//! The text published for a processed build: the README section, the release
//! notes, and the launcher script that enables the added flags.

use vstd::prelude::*;
use crate::text::{chars_of, views_of};

verus! {

pub open spec fn digit_char(d: nat) -> char {
    (('0' as nat) + d) as char
}

/// The decimal numeral of `n`, without leading zeros.
pub open spec fn decimal(n: nat) -> Seq<char>
    decreases n,
{
    if n < 10 {
        seq![digit_char(n)]
    } else {
        decimal(n / 10).push(digit_char(n % 10))
    }
}

fn digit_str(d: u64) -> (r: &'static str)
    requires
        d < 10,
    ensures
        r@ == seq![digit_char(d as nat)],
{
    proof {
        reveal_strlit("0");
        reveal_strlit("1");
        reveal_strlit("2");
        reveal_strlit("3");
        reveal_strlit("4");
        reveal_strlit("5");
        reveal_strlit("6");
        reveal_strlit("7");
        reveal_strlit("8");
        reveal_strlit("9");
    }
    let r = if d == 0 {
        "0"
    } else if d == 1 {
        "1"
    } else if d == 2 {
        "2"
    } else if d == 3 {
        "3"
    } else if d == 4 {
        "4"
    } else if d == 5 {
        "5"
    } else if d == 6 {
        "6"
    } else if d == 7 {
        "7"
    } else if d == 8 {
        "8"
    } else {
        "9"
    };
    assert(r@ =~= seq![digit_char(d as nat)]);
    r
}

/// Appends the decimal numeral of `n`.
fn push_decimal(out: &mut String, n: u64)
    ensures
        final(out)@ == old(out)@ + decimal(n as nat),
    decreases n,
{
    if n >= 10 {
        push_decimal(out, n / 10);
    }
    out.append(digit_str(n % 10));
    proof {
        if n >= 10 {
            assert(final(out)@ =~= old(out)@ + decimal(n as nat));
        } else {
            assert(final(out)@ =~= old(out)@ + decimal(n as nat));
        }
    }
}

/// One `* flag` line per flag.
pub open spec fn bullets(items: Seq<Seq<char>>) -> Seq<char>
    decreases items.len(),
{
    if items.len() == 0 {
        Seq::empty()
    } else {
        bullets(items.drop_last()) + "* "@ + items.last() + "\n"@
    }
}

/// The bullet list of the flags, one `* flag` line each.
pub fn bullet_list(items: &Vec<String>) -> (r: String)
    ensures
        r@ == bullets(views_of(items@)),
{
    let mut out = String::new();
    let mut i: usize = 0;
    while i < items.len()
        invariant
            0 <= i <= items.len(),
            out@ == bullets(views_of(items@.subrange(0, i as int))),
        decreases items.len() - i,
    {
        assert(views_of(items@.subrange(0, i as int + 1)).drop_last() =~= views_of(
            items@.subrange(0, i as int),
        ));
        out.append("* ");
        out.append(items[i].as_str());
        out.append("\n");
        assert(out@ =~= bullets(views_of(items@.subrange(0, i as int + 1))));
        i = i + 1;
    }
    assert(items@.subrange(0, i as int) =~= items@);
    out
}

/// A list in the release notes: the bullet list, or a single empty bullet when
/// there is nothing to list.
pub open spec fn release_list(items: Seq<Seq<char>>) -> Seq<char> {
    if items.len() == 0 {
        "* \n"@
    } else {
        bullets(items)
    }
}

fn release_list_of(items: &Vec<String>) -> (r: String)
    ensures
        r@ == release_list(views_of(items@)),
{
    if items.len() == 0 {
        String::from_str("* \n")
    } else {
        bullet_list(items)
    }
}

pub const README_TITLE: &'static str = "\n### <a href=\"https://github.com/SpyNetGirl/MSEdgeFeatures\"><img width=\"35\" src=\"https://github.com/HotCakeX/Harden-Windows-Security/raw/main/images/WebP/Edge%20Canary.webp\"></a> Latest Edge Canary version: ";

pub const README_PROCESSED: &'static str = "\n### Last processed at: ";

pub const README_SUMMARY: &'static str = " (UTC+00:00)\n<details>\n<summary>";

pub const README_LIST: &'static str = " new features were added in the latest Edge Canary update</summary>\n\n<br>\n\n";

pub const README_END: &'static str = "</details>\n";

/// The README section for a build: its version, when it was processed, and
/// the added flags.
pub open spec fn readme_section(full: Seq<char>, time: Seq<char>, added: Seq<Seq<char>>) -> Seq<
    char,
> {
    README_TITLE@ + full + README_PROCESSED@ + time + README_SUMMARY@ + decimal(added.len())
        + README_LIST@ + bullets(added) + README_END@
}

/// Writes the README section for a build processed at `time`.
pub fn readme_details(full_version: &str, time: &str, added: &Vec<String>) -> (r: String)
    ensures
        r@ == readme_section(full_version@, time@, views_of(added@)),
{
    let mut out = String::from_str(README_TITLE);
    out.append(full_version);
    out.append(README_PROCESSED);
    out.append(time);
    out.append(README_SUMMARY);
    push_decimal(&mut out, added.len() as u64);
    out.append(README_LIST);
    let list = bullet_list(added);
    out.append(list.as_str());
    out.append(README_END);
    assert(out@ =~= readme_section(full_version@, time@, views_of(added@)));
    out
}

pub const NOTES_TITLE: &'static str = "\n# <img width=\"35\" src=\"https://github.com/HotCakeX/Harden-Windows-Security/raw/main/images/WebP/Edge%20Canary.webp\"> Automated update\n\n## Processed at: ";

pub const NOTES_VISIT: &'static str = " (UTC+00:00)\n\nVisit the GitHub's release section for full details on how to use it:\nhttps://github.com/SpyNetGirl/MSEdgeFeatures/releases/tag/";

pub const NOTES_PROCESSED_END: &'static str = " (UTC+00:00)";

pub const NOTES_ADDED: &'static str = "\n\n### ";

pub const NOTES_ADDED_TAIL: &'static str = " New features were added\n\n";

pub const NOTES_REMOVED: &'static str = "\n<br>\n\n### ";

pub const NOTES_REMOVED_TAIL: &'static str = " Features were removed\n\n";

pub const NOTES_END: &'static str = "\n<br>\n\n";

pub const NOTES_HOW_TO: &'static str = "### How to use the new features in this Edge canary update\n\n1. First make sure your Edge canary is up to date\n\n2. Copy and paste the code below in your PowerShell. NO admin privileges required. An Edge canary `.bat` file will be created in your Downloads folder. Double-click/tap on it to launch Edge canary with the features added in this update.\n\n<br>\n\n```powershell\ninvoke-restMethod '";

pub const NOTES_HOW_TO_END: &'static str = "' | Invoke-Expression\n```\n\n";

/// The name of the launcher script attached to each release.
pub const SCRIPT_ASSET: &'static str = "EdgeCanaryShortcutMaker.ps1";

pub const DOWNLOAD_BASE: &'static str = "https://github.com/SpyNetGirl/MSEdgeFeatures/releases/download/";

/// The counts and lists of added and removed flags.
pub open spec fn notes_lists(added: Seq<Seq<char>>, removed: Seq<Seq<char>>) -> Seq<char> {
    NOTES_ADDED@ + decimal(added.len()) + NOTES_ADDED_TAIL@ + release_list(added)
        + NOTES_REMOVED@ + decimal(removed.len()) + NOTES_REMOVED_TAIL@ + release_list(removed)
        + NOTES_END@
}

fn push_lists(out: &mut String, added: &Vec<String>, removed: &Vec<String>)
    ensures
        final(out)@ == old(out)@ + notes_lists(views_of(added@), views_of(removed@)),
{
    out.append(NOTES_ADDED);
    push_decimal(out, added.len() as u64);
    out.append(NOTES_ADDED_TAIL);
    let a = release_list_of(added);
    out.append(a.as_str());
    out.append(NOTES_REMOVED);
    push_decimal(out, removed.len() as u64);
    out.append(NOTES_REMOVED_TAIL);
    let r = release_list_of(removed);
    out.append(r.as_str());
    out.append(NOTES_END);
    assert(final(out)@ =~= old(out)@ + notes_lists(views_of(added@), views_of(removed@)));
}

/// The notes a release is created with.
pub open spec fn first_notes(
    full: Seq<char>,
    time: Seq<char>,
    added: Seq<Seq<char>>,
    removed: Seq<Seq<char>>,
) -> Seq<char> {
    NOTES_TITLE@ + time + NOTES_VISIT@ + full + notes_lists(added, removed)
}

/// Writes the notes a release of `full_version` is created with.
pub fn release_notes(full_version: &str, time: &str, added: &Vec<String>, removed: &Vec<String>) -> (r:
    String)
    ensures
        r@ == first_notes(full_version@, time@, views_of(added@), views_of(removed@)),
{
    let mut out = String::from_str(NOTES_TITLE);
    out.append(time);
    out.append(NOTES_VISIT);
    out.append(full_version);
    push_lists(&mut out, added, removed);
    assert(out@ =~= first_notes(full_version@, time@, views_of(added@), views_of(removed@)));
    out
}

/// Where the launcher script of a release can be downloaded.
pub open spec fn asset_url(full: Seq<char>) -> Seq<char> {
    DOWNLOAD_BASE@ + full + "/"@ + SCRIPT_ASSET@
}

pub fn asset_download_url(full_version: &str) -> (r: String)
    ensures
        r@ == asset_url(full_version@),
{
    let mut out = String::from_str(DOWNLOAD_BASE);
    out.append(full_version);
    out.append("/");
    out.append(SCRIPT_ASSET);
    assert(out@ =~= asset_url(full_version@));
    out
}

/// The notes a release ends with, once its launcher script is attached.
pub open spec fn final_notes(
    full: Seq<char>,
    time: Seq<char>,
    added: Seq<Seq<char>>,
    removed: Seq<Seq<char>>,
) -> Seq<char> {
    NOTES_TITLE@ + time + NOTES_PROCESSED_END@ + notes_lists(added, removed) + NOTES_HOW_TO@
        + asset_url(full) + NOTES_HOW_TO_END@
}

/// Writes the notes of a release of `full_version` with its script attached.
pub fn final_release_notes(
    full_version: &str,
    time: &str,
    added: &Vec<String>,
    removed: &Vec<String>,
) -> (r: String)
    ensures
        r@ == final_notes(full_version@, time@, views_of(added@), views_of(removed@)),
{
    let mut out = String::from_str(NOTES_TITLE);
    out.append(time);
    out.append(NOTES_PROCESSED_END);
    push_lists(&mut out, added, removed);
    out.append(NOTES_HOW_TO);
    let url = asset_download_url(full_version);
    out.append(url.as_str());
    out.append(NOTES_HOW_TO_END);
    assert(out@ =~= final_notes(full_version@, time@, views_of(added@), views_of(removed@)));
    out
}

pub const RELEASE_NAME: &'static str = "Edge Canary version ";

/// The title of the release of `full_version`.
pub fn release_name(full_version: &str) -> (r: String)
    ensures
        r@ == RELEASE_NAME@ + full_version@,
{
    let mut out = String::from_str(RELEASE_NAME);
    out.append(full_version);
    out
}

/// The flags joined with commas.
pub open spec fn comma_joined(items: Seq<Seq<char>>) -> Seq<char>
    decreases items.len(),
{
    if items.len() == 0 {
        Seq::empty()
    } else if items.len() == 1 {
        items[0]
    } else {
        comma_joined(items.drop_last()) + ","@ + items.last()
    }
}

/// `s` without the commas at its end.
pub open spec fn trim_commas(s: Seq<char>) -> Seq<char>
    decreases s.len(),
{
    if s.len() > 0 && s.last() == ',' {
        trim_commas(s.drop_last())
    } else {
        s
    }
}

pub const FEATURES_SWITCH: &'static str = "--enable-features=";

/// The command-line switch that enables the flags.
pub open spec fn features_switch(items: Seq<Seq<char>>) -> Seq<char> {
    FEATURES_SWITCH@ + trim_commas(comma_joined(items))
}

/// Writes the switch that launches the browser with the flags enabled.
pub fn enable_features_argument(added: &Vec<String>) -> (r: String)
    ensures
        r@ == features_switch(views_of(added@)),
{
    let mut joined = String::new();
    let mut i: usize = 0;
    while i < added.len()
        invariant
            0 <= i <= added.len(),
            joined@ == comma_joined(views_of(added@.subrange(0, i as int))),
        decreases added.len() - i,
    {
        proof {
            reveal_strlit(",");
        }
        assert(views_of(added@.subrange(0, i as int + 1)).drop_last() =~= views_of(
            added@.subrange(0, i as int),
        ));
        if i > 0 {
            joined.append(",");
        }
        joined.append(added[i].as_str());
        assert(joined@ =~= comma_joined(views_of(added@.subrange(0, i as int + 1))));
        i = i + 1;
    }
    assert(added@.subrange(0, i as int) =~= added@);
    let js = joined.as_str();
    let mut k = js.unicode_len();
    assert(js@.subrange(0, k as int) =~= js@);
    while k > 0 && js.get_char(k - 1) == ','
        invariant
            k <= js@.len(),
            trim_commas(js@.subrange(0, k as int)) == trim_commas(js@),
        decreases k,
    {
        assert(js@.subrange(0, k as int).drop_last() =~= js@.subrange(0, k as int - 1));
        k = k - 1;
    }
    let kept = js.substring_char(0, k);
    let mut out = String::from_str(FEATURES_SWITCH);
    out.append(kept);
    out
}

pub const SCRIPT_HEAD: &'static str = "\n$FullVersionToUse = \"";

pub const SCRIPT_ARGUMENTS: &'static str = "\"\n\n$Arguments = \"";

pub const SCRIPT_BODY: &'static str = r#""

$content = @"
powershell.exe -WindowStyle hidden -Command "`$UserSID = [System.Security.Principal.WindowsIdentity]::GetCurrent().user.value;`$UserName = (Get-LocalUser | where-object -FilterScript {`$_.SID -eq `$UserSID}).name;Get-Process | where-object -FilterScript {`$_.path -eq \`"C:\Users\`$UserName\AppData\Local\Microsoft\Edge SxS\Application\msedge.exe\`"} | ForEach-Object -Process {Stop-Process -Id `$_.id -Force -ErrorAction SilentlyContinue};& \`"C:\Users\`$UserName\AppData\Local\Microsoft\Edge SxS\Application\msedge.exe\`" $Arguments"
"@

$content | Out-File -FilePath "C:\Users\$env:USERNAME\Downloads\EDGECAN Launcher $FullVersionToUse.bat"
"#;

/// The launcher script: it writes a batch file that starts the browser of
/// `full` with the added flags enabled.
pub open spec fn launcher_script(full: Seq<char>, added: Seq<Seq<char>>) -> Seq<char> {
    SCRIPT_HEAD@ + full + SCRIPT_ARGUMENTS@ + features_switch(added) + SCRIPT_BODY@
}

/// Writes the launcher script for a build and its added flags.
pub fn shortcut_script(full_version: &str, added: &Vec<String>) -> (r: String)
    ensures
        r@ == launcher_script(full_version@, views_of(added@)),
{
    let mut out = String::from_str(SCRIPT_HEAD);
    out.append(full_version);
    out.append(SCRIPT_ARGUMENTS);
    let switch = enable_features_argument(added);
    out.append(switch.as_str());
    out.append(SCRIPT_BODY);
    assert(out@ =~= launcher_script(full_version@, views_of(added@)));
    out
}

/// `pat` occurs in `s` at position `i`.
pub open spec fn occurs_at(s: Seq<char>, pat: Seq<char>, i: int) -> bool {
    0 <= i && i + pat.len() <= s.len() && s.subrange(i, i + pat.len()) == pat
}

/// `p` is where `pat` first occurs in `s`.
pub open spec fn first_occurrence(s: Seq<char>, pat: Seq<char>, p: int) -> bool {
    occurs_at(s, pat, p) && forall|q: int| 0 <= q < p ==> !occurs_at(s, pat, q)
}

/// The position of the first occurrence of `pat` in `s`.
fn find_first(s: &Vec<char>, pat: &Vec<char>) -> (r: Option<usize>)
    ensures
        r matches Some(p) ==> first_occurrence(s@, pat@, p as int),
        r is None ==> forall|q: int| !occurs_at(s@, pat@, q),
{
    if pat.len() > s.len() {
        return None;
    }
    let n = s.len();
    let last = n - pat.len();
    let mut i: usize = 0;
    loop
        invariant
            n == s@.len(),
            i <= last,
            last == s@.len() - pat@.len(),
            forall|q: int| 0 <= q < i ==> !occurs_at(s@, pat@, q),
        decreases last - i,
    {
        let mut j: usize = 0;
        while j < pat.len() && s[i + j] == pat[j]
            invariant
                n == s@.len(),
                i <= last,
                last == s@.len() - pat@.len(),
                0 <= j <= pat@.len(),
                forall|k: int| 0 <= k < j ==> s@[i + k] == pat@[k],
            decreases pat@.len() - j,
        {
            j = j + 1;
        }
        if j == pat.len() {
            assert(s@.subrange(i as int, i + pat@.len()) =~= pat@);
            return Some(i);
        }
        assert(!occurs_at(s@, pat@, i as int)) by {
            if occurs_at(s@, pat@, i as int) {
                assert(s@.subrange(i as int, i + pat@.len())[j as int] == pat@[j as int]);
            }
        }
        if i == last {
            assert forall|q: int| !occurs_at(s@, pat@, q) by {
                if q > i {
                    assert(q + pat@.len() > s@.len());
                }
            }
            return None;
        }
        i = i + 1;
    }
}

/// The characters with Unicode's White_Space property.
pub open spec fn is_white_space(c: char) -> bool {
    ('\u{9}' <= c && c <= '\u{d}') || c == ' ' || c == '\u{85}' || c == '\u{a0}' || c
        == '\u{1680}' || ('\u{2000}' <= c && c <= '\u{200a}') || c == '\u{2028}' || c
        == '\u{2029}' || c == '\u{202f}' || c == '\u{205f}' || c == '\u{3000}'
}

/// `s` without the white space at its end.
pub open spec fn trim_end(s: Seq<char>) -> Seq<char>
    decreases s.len(),
{
    if s.len() > 0 && is_white_space(s.last()) {
        trim_end(s.drop_last())
    } else {
        s
    }
}

/// The marker after which the README section starts.
pub const SECTION_START: &'static str = "<!-- Edge-Canary-Version:START -->";

/// The marker before which the README section ends.
pub const SECTION_END: &'static str = "<!-- Edge-Canary-Version:END -->";

/// The README with the text after the first start marker and before the first
/// end marker replaced by `details`, white space trimmed from its end.
pub open spec fn spliced(readme: Seq<char>, details: Seq<char>, start: int, end: int) -> Seq<
    char,
> {
    trim_end(
        readme.subrange(0, start + SECTION_START@.len()) + details + readme.subrange(
            end,
            readme.len() as int,
        ),
    )
}

/// Replaces the README section between the markers with `details`; `None`
/// when either marker is missing.
pub fn replace_section(readme: &str, details: &str) -> (r: Option<String>)
    ensures
        r is None <==> (forall|q: int| !occurs_at(readme@, SECTION_START@, q)) || (forall|q: int|
            !occurs_at(readme@, SECTION_END@, q)),
        r matches Some(t) ==> exists|ps: int, pe: int|
            first_occurrence(readme@, SECTION_START@, ps) && first_occurrence(
                readme@,
                SECTION_END@,
                pe,
            ) && t@ == spliced(readme@, details@, ps, pe),
{
    let text = chars_of(readme);
    let start_pat = chars_of(SECTION_START);
    let end_pat = chars_of(SECTION_END);
    let ps = match find_first(&text, &start_pat) {
        Some(p) => p,
        None => {
            return None;
        },
    };
    let pe = match find_first(&text, &end_pat) {
        Some(p) => p,
        None => {
            return None;
        },
    };
    let n = text.len();
    let m = start_pat.len();
    assert(ps + m <= n);
    let cut = ps + m;
    let mut joined = String::from_str(readme.substring_char(0, cut));
    joined.append(details);
    joined.append(readme.substring_char(pe, text.len()));
    let js = joined.as_str();
    let mut k = js.unicode_len();
    assert(js@.subrange(0, k as int) =~= js@);
    while k > 0 && is_space_char(js.get_char(k - 1))
        invariant
            k <= js@.len(),
            trim_end(js@.subrange(0, k as int)) == trim_end(js@),
        decreases k,
    {
        assert(js@.subrange(0, k as int).drop_last() =~= js@.subrange(0, k as int - 1));
        k = k - 1;
    }
    let t = String::from_str(js.substring_char(0, k));
    assert(t@ == spliced(readme@, details@, ps as int, pe as int));
    Some(t)
}

fn is_space_char(c: char) -> (r: bool)
    ensures
        r == is_white_space(c),
{
    ('\u{9}' <= c && c <= '\u{d}') || c == ' ' || c == '\u{85}' || c == '\u{a0}' || c
        == '\u{1680}' || ('\u{2000}' <= c && c <= '\u{200a}') || c == '\u{2028}' || c
        == '\u{2029}' || c == '\u{202f}' || c == '\u{205f}' || c == '\u{3000}'
}

} // verus!
