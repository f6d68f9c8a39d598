//! Flag sets, the filter that picks flag names out of extracted text, and the
//! added/removed diff between two sets.

use vstd::prelude::*;
use std::cmp::Ordering;
use crate::text::{
    compare_text, lemma_lines_round_trip, lemma_text_order, newline_joined, sort_strings,
    strictly_ascending, text_le, text_lines, text_lt, views_of, lemma_contains_push,
};

verus! {

/// A set of flag names, held in ascending byte order without repeats.
pub struct FlagSet {
    items: Vec<String>,
}

impl FlagSet {
    /// The flags in ascending byte order.
    pub closed spec fn entries(&self) -> Seq<Seq<char>> {
        views_of(self.items@)
    }

    #[verifier::type_invariant]
    spec fn ascending(&self) -> bool {
        strictly_ascending(views_of(self.items@))
    }
}

impl View for FlagSet {
    type V = Set<Seq<char>>;

    closed spec fn view(&self) -> Set<Seq<char>> {
        self.entries().to_set()
    }
}

impl FlagSet {
    /// The empty set.
    pub fn new() -> (r: FlagSet)
        ensures
            r@ == Set::<Seq<char>>::empty(),
    {
        let r = FlagSet { items: Vec::new() };
        assert(r.entries().to_set() =~= Set::<Seq<char>>::empty());
        r
    }

    /// The set of the given strings; repeats collapse.
    pub fn from_lines(lines: Vec<String>) -> (r: FlagSet)
        ensures
            r@ == views_of(lines@).to_set(),
    {
        let mut sorted = lines;
        sort_strings(&mut sorted);
        let ghost src = views_of(sorted@);
        proof {
            assert forall|x: Seq<char>| src.contains(x) <==> views_of(lines@).contains(x) by {
                vstd::seq_lib::to_multiset_contains(src, x);
                vstd::seq_lib::to_multiset_contains(views_of(lines@), x);
            }
        }
        let mut out: Vec<String> = Vec::new();
        let mut i: usize = 0;
        while i < sorted.len()
            invariant
                src == views_of(sorted@),
                forall|a: int, b: int|
                    0 <= a < b < src.len() ==> text_le(#[trigger] src[a], #[trigger] src[b]),
                0 <= i <= sorted.len(),
                strictly_ascending(views_of(out@)),
                i > 0 ==> out@.len() > 0 && out@.last()@ == src[i - 1],
                i == 0 ==> out@.len() == 0,
                forall|x: Seq<char>|
                    views_of(out@).contains(x) <==> src.subrange(0, i as int).contains(x),
            decreases sorted.len() - i,
        {
            let ghost pre = src.subrange(0, i as int);
            assert(src.subrange(0, i as int + 1) =~= pre.push(src[i as int]));
            let fresh = out.len() == 0 || out[out.len() - 1] != sorted[i];
            if fresh {
                let ghost old_out = views_of(out@);
                out.push(sorted[i].clone());
                proof {
                    let vn = views_of(out@);
                    assert(vn =~= old_out.push(src[i as int]));
                    if i > 0 {
                        assert(text_le(src[i - 1], src[i as int]));
                        lemma_text_order(src[i - 1], src[i as int], src[i as int]);
                        assert forall|a: int, b: int| 0 <= a < b < vn.len() implies text_lt(
                            #[trigger] vn[a],
                            #[trigger] vn[b],
                        ) by {
                            if b == vn.len() - 1 && a < b - 1 {
                                lemma_text_order(vn[a], old_out.last(), src[i as int]);
                            }
                        }
                    }
                    assert forall|x: Seq<char>| vn.contains(x) <==> pre.push(
                        src[i as int],
                    ).contains(x) by {
                        lemma_contains_push(old_out, src[i as int], x);
                        lemma_contains_push(pre, src[i as int], x);
                    }
                }
            } else {
                proof {
                    let vo = views_of(out@);
                    assert(vo.last() == src[i as int]);
                    assert forall|x: Seq<char>| vo.contains(x) <==> pre.push(
                        src[i as int],
                    ).contains(x) by {
                        lemma_contains_push(pre, src[i as int], x);
                        assert(vo[vo.len() - 1] == src[i as int]);
                    }
                }
            }
            i = i + 1;
        }
        assert(src.subrange(0, i as int) =~= src);
        let r = FlagSet { items: out };
        assert(r.entries().to_set() =~= views_of(lines@).to_set());
        r
    }

    /// Whether `s` is one of the flags.
    pub fn contains(&self, s: &str) -> (r: bool)
        ensures
            r == self@.contains(s@),
    {
        proof {
            use_type_invariant(self);
        }
        let ghost e = self.entries();
        let mut lo: usize = 0;
        let mut hi: usize = self.items.len();
        while lo < hi
            invariant
                e == views_of(self.items@),
                strictly_ascending(e),
                0 <= lo <= hi <= e.len(),
                forall|k: int| 0 <= k < lo ==> text_lt(#[trigger] e[k], s@),
                forall|k: int| hi <= k < e.len() ==> text_lt(s@, #[trigger] e[k]),
            decreases hi - lo,
        {
            let mid = lo + (hi - lo) / 2;
            let o = compare_text(s, self.items[mid].as_str());
            proof {
                lemma_text_order(s@, e[mid as int], s@);
                lemma_text_order(e[mid as int], s@, s@);
            }
            match o {
                Ordering::Equal => {
                    assert(self@.contains(s@)) by {
                        assert(e[mid as int] == s@);
                        assert(e.contains(s@));
                    }
                    return true;
                },
                Ordering::Less => {
                    proof {
                        assert forall|k: int| mid <= k < e.len() implies text_lt(
                            s@,
                            #[trigger] e[k],
                        ) by {
                            if k > mid {
                                lemma_text_order(s@, e[mid as int], e[k]);
                            }
                        }
                    }
                    hi = mid;
                },
                Ordering::Greater => {
                    proof {
                        assert forall|k: int| 0 <= k <= mid implies text_lt(
                            #[trigger] e[k],
                            s@,
                        ) by {
                            if k < mid {
                                lemma_text_order(e[k], e[mid as int], s@);
                            }
                        }
                    }
                    lo = mid + 1;
                },
            }
        }
        proof {
            if e.contains(s@) {
                let w = choose|w: int| 0 <= w < e.len() && e[w] == s@;
                lemma_text_order(s@, s@, s@);
            }
        }
        false
    }

    /// The flags in ascending byte order.
    pub fn to_sorted_vec(&self) -> (r: Vec<String>)
        ensures
            views_of(r@) == self.entries(),
            strictly_ascending(views_of(r@)),
            views_of(r@).to_set() == self@,
    {
        proof {
            use_type_invariant(self);
        }
        let r = self.items.clone();
        assert(views_of(r@) =~= self.entries());
        r
    }

    /// The number of flags.
    pub fn len(&self) -> (r: usize)
        ensures
            r == self.entries().len(),
    {
        self.items.len()
    }
}

/// The result of comparing a build's flags with the previous build's.
pub struct DiffResult {
    /// Flags of the current build that the previous one lacks, ascending.
    pub added: Vec<String>,
    /// Flags of the previous build that the current one lacks, ascending.
    pub removed: Vec<String>,
}

/// `d` is the diff of `current` against `previous`.
pub open spec fn is_diff_of(
    d: DiffResult,
    current: Set<Seq<char>>,
    previous: Set<Seq<char>>,
) -> bool {
    &&& strictly_ascending(views_of(d.added@))
    &&& views_of(d.added@).to_set() == current.difference(previous)
    &&& strictly_ascending(views_of(d.removed@))
    &&& views_of(d.removed@).to_set() == previous.difference(current)
}

/// The flags of `from` that `other` lacks, in ascending byte order.
fn missing_from(from: &FlagSet, other: &FlagSet) -> (r: Vec<String>)
    ensures
        strictly_ascending(views_of(r@)),
        views_of(r@).to_set() == from@.difference(other@),
{
    let items = from.to_sorted_vec();
    let ghost e = views_of(items@);
    let mut out: Vec<String> = Vec::new();
    let mut i: usize = 0;
    while i < items.len()
        invariant
            e == views_of(items@),
            strictly_ascending(e),
            e.to_set() == from@,
            0 <= i <= items.len(),
            strictly_ascending(views_of(out@)),
            forall|k: int, m: int|
                0 <= k < out@.len() && i <= m < e.len() ==> text_lt(
                    #[trigger] views_of(out@)[k],
                    #[trigger] e[m],
                ),
            forall|x: Seq<char>|
                #![trigger views_of(out@).contains(x)]
                #![trigger e.subrange(0, i as int).contains(x)]
                views_of(out@).contains(x) <==> (e.subrange(0, i as int).contains(x)
                    && !other@.contains(x)),
        decreases items.len() - i,
    {
        let ghost pre = e.subrange(0, i as int);
        let ghost old_out = views_of(out@);
        assert(e.subrange(0, i as int + 1) =~= pre.push(e[i as int]));
        assert(forall|x: Seq<char>|
            old_out.contains(x) <==> (pre.contains(x) && !other@.contains(x)));
        if !other.contains(items[i].as_str()) {
            out.push(items[i].clone());
            proof {
                let vn = views_of(out@);
                assert(vn =~= old_out.push(e[i as int]));
                assert forall|a: int, b: int| 0 <= a < b < vn.len() implies text_lt(
                    #[trigger] vn[a],
                    #[trigger] vn[b],
                ) by {
                    if b == vn.len() - 1 {
                        assert(vn[a] == old_out[a]);
                    } else {
                        assert(vn[a] == old_out[a] && vn[b] == old_out[b]);
                    }
                }
                assert forall|k: int, m: int|
                    0 <= k < vn.len() && i + 1 <= m < e.len() implies text_lt(
                    #[trigger] vn[k],
                    #[trigger] e[m],
                ) by {
                    if k == vn.len() - 1 {
                    } else {
                        assert(vn[k] == old_out[k]);
                    }
                }
                assert forall|x: Seq<char>|
                    vn.contains(x) <==> (pre.push(e[i as int]).contains(x) && !other@.contains(
                        x,
                    )) by {
                    lemma_contains_push(old_out, e[i as int], x);
                    lemma_contains_push(pre, e[i as int], x);
                }
            }
        } else {
            proof {
                assert forall|k: int, m: int|
                    0 <= k < old_out.len() && i + 1 <= m < e.len() implies text_lt(
                    #[trigger] old_out[k],
                    #[trigger] e[m],
                ) by {}
                assert forall|x: Seq<char>|
                    old_out.contains(x) <==> (pre.push(e[i as int]).contains(x)
                        && !other@.contains(x)) by {
                    lemma_contains_push(pre, e[i as int], x);
                }
            }
        }
        i = i + 1;
    }
    assert(e.subrange(0, i as int) =~= e);
    assert forall|x: Seq<char>|
        views_of(out@).to_set().contains(x) <==> from@.difference(other@).contains(x) by {
        assert(views_of(out@).contains(x) <==> (e.contains(x) && !other@.contains(x)));
        assert(e.contains(x) <==> e.to_set().contains(x));
    }
    assert(views_of(out@).to_set() =~= from@.difference(other@));
    out
}

/// Compares the flags of the current build with those of the previous one.
pub fn diff(current: &FlagSet, previous: &FlagSet) -> (r: DiffResult)
    ensures
        is_diff_of(r, current@, previous@),
{
    let added = missing_from(current, previous);
    let removed = missing_from(previous, current);
    DiffResult { added, removed }
}

/// The two lists of a diff share no flag, and each is ascending without repeats.
pub proof fn lemma_diff_disjoint(
    d: DiffResult,
    current: Set<Seq<char>>,
    previous: Set<Seq<char>>,
)
    requires
        is_diff_of(d, current, previous),
    ensures
        forall|x: Seq<char>|
            !(views_of(d.added@).contains(x) && views_of(d.removed@).contains(x)),
        views_of(d.added@).no_duplicates(),
        views_of(d.removed@).no_duplicates(),
        forall|i: int, j: int|
            0 <= i < j < d.added@.len() ==> text_lt(d.added@[i]@, d.added@[j]@),
        forall|i: int, j: int|
            0 <= i < j < d.removed@.len() ==> text_lt(d.removed@[i]@, d.removed@[j]@),
{
    let a = views_of(d.added@);
    let r = views_of(d.removed@);
    assert forall|x: Seq<char>| !(a.contains(x) && r.contains(x)) by {
        if a.contains(x) {
            assert(a.to_set().contains(x));
        }
        if r.contains(x) {
            assert(r.to_set().contains(x));
        }
    }
    assert forall|i: int, j: int| 0 <= i < a.len() && 0 <= j < a.len() && i != j implies a[i]
        != a[j] by {
        if i < j {
            assert(text_lt(a[i], a[j]));
        } else {
            assert(text_lt(a[j], a[i]));
        }
        lemma_text_order(a[i], a[j], a[j]);
    }
    assert forall|i: int, j: int| 0 <= i < r.len() && 0 <= j < r.len() && i != j implies r[i]
        != r[j] by {
        if i < j {
            assert(text_lt(r[i], r[j]));
        } else {
            assert(text_lt(r[j], r[i]));
        }
        lemma_text_order(r[i], r[j], r[j]);
    }
    assert forall|i: int, j: int| 0 <= i < j < d.added@.len() implies text_lt(
        d.added@[i]@,
        d.added@[j]@,
    ) by {
        assert(a[i] == d.added@[i]@ && a[j] == d.added@[j]@);
    }
    assert forall|i: int, j: int| 0 <= i < j < d.removed@.len() implies text_lt(
        d.removed@[i]@,
        d.removed@[j]@,
    ) by {
        assert(r[i] == d.removed@[i]@ && r[j] == d.removed@[j]@);
    }
}

/// A flag name: `ms`, then at least four letters or digits from `a-z`,
/// `A-Z` and `0-9`, the whole line, matched case-insensitively in the regex
/// crate's Unicode mode (so the long s `ſ` also matches `s`, and the Kelvin
/// sign matches `k`).
pub const FLAG_PATTERN: &'static str = "(?i)^ms[a-zA-Z0-9]{4,}$";

/// Whether `text` matches the regular expression `pattern`.
pub uninterp spec fn regex_matches(pattern: Seq<char>, text: Seq<char>) -> bool;

/// Whether `pattern` compiles: it is a valid regular expression within the
/// default size limit.
pub uninterp spec fn regex_compiles(pattern: Seq<char>) -> bool;

/// Relies on `regex::Regex::new` and `regex::Regex::is_match`: `None` exactly
/// when the pattern does not compile (which depends on the pattern alone),
/// else one answer per line, whether it matches.
#[verifier::external_body]
fn match_lines(pattern: &str, lines: &Vec<String>) -> (r: Option<Vec<bool>>)
    ensures
        r is Some <==> regex_compiles(pattern@),
        r matches Some(m) ==> m@.len() == lines@.len() && forall|i: int|
            0 <= i < lines@.len() ==> m@[i] == regex_matches(pattern@, #[trigger] lines@[i]@),
{
    let re = regex::Regex::new(pattern).ok()?;
    Some(lines.iter().map(|l| re.is_match(l)).collect())
}

/// The lines whose mark is set.
pub open spec fn selected(lines: Seq<Seq<char>>, marks: Seq<bool>) -> Set<Seq<char>> {
    Set::new(|x: Seq<char>| exists|i: int| 0 <= i < lines.len() && marks[i] && lines[i] == x)
}

/// The lines of extracted text that are flag names.
pub open spec fn flag_lines(lines: Seq<Seq<char>>) -> Set<Seq<char>> {
    Set::new(|x: Seq<char>| lines.contains(x) && regex_matches(FLAG_PATTERN@, x))
}

/// The set of the lines whose mark is set; `marks` holds one mark per line.
pub fn select_flags(lines: &Vec<String>, marks: &Vec<bool>) -> (r: FlagSet)
    requires
        marks@.len() == lines@.len(),
    ensures
        r@ == selected(views_of(lines@), marks@),
{
    let ghost lv = views_of(lines@);
    let mut kept: Vec<String> = Vec::new();
    let mut i: usize = 0;
    while i < lines.len()
        invariant
            lv == views_of(lines@),
            marks@.len() == lines@.len(),
            0 <= i <= lines.len(),
            forall|x: Seq<char>|
                #![trigger views_of(kept@).contains(x)]
                views_of(kept@).contains(x) <==> exists|j: int|
                    0 <= j < i && marks@[j] && lv[j] == x,
        decreases lines.len() - i,
    {
        let ghost old_kept = views_of(kept@);
        if marks[i] {
            kept.push(lines[i].clone());
            proof {
                let vn = views_of(kept@);
                assert(vn =~= old_kept.push(lv[i as int]));
                assert forall|x: Seq<char>| vn.contains(x) <==> exists|j: int|
                    0 <= j < i + 1 && marks@[j] && lv[j] == x by {
                    lemma_contains_push(old_kept, lv[i as int], x);
                    if exists|j: int| 0 <= j < i + 1 && marks@[j] && lv[j] == x {
                        let j = choose|j: int| 0 <= j < i + 1 && marks@[j] && lv[j] == x;
                        if j < i {
                            assert(old_kept.contains(x));
                        }
                    }
                    if old_kept.contains(x) {
                        let j = choose|j: int| 0 <= j < i && marks@[j] && lv[j] == x;
                        assert(0 <= j < i + 1 && marks@[j] && lv[j] == x);
                    }
                    if x == lv[i as int] {
                        assert(marks@[i as int] && lv[i as int] == x);
                    }
                }
            }
        } else {
            proof {
                assert forall|x: Seq<char>| old_kept.contains(x) <==> exists|j: int|
                    0 <= j < i + 1 && marks@[j] && lv[j] == x by {
                    if exists|j: int| 0 <= j < i + 1 && marks@[j] && lv[j] == x {
                        let j = choose|j: int| 0 <= j < i + 1 && marks@[j] && lv[j] == x;
                        assert(j < i);
                    }
                }
            }
        }
        i = i + 1;
    }
    let r = FlagSet::from_lines(kept);
    assert(r@ =~= selected(lv, marks@));
    r
}

/// The flag names among the lines of text extracted from a binary; `None` when
/// the flag pattern does not compile.
pub fn extract_features(lines: &Vec<String>) -> (r: Option<FlagSet>)
    ensures
        r is Some <==> regex_compiles(FLAG_PATTERN@),
        r matches Some(f) ==> f@ == flag_lines(views_of(lines@)),
{
    match match_lines(FLAG_PATTERN, lines) {
        None => None,
        Some(marks) => {
            let f = select_flags(lines, &marks);
            proof {
                let lv = views_of(lines@);
                assert forall|x: Seq<char>| f@.contains(x) <==> flag_lines(lv).contains(x) by {
                    if f@.contains(x) {
                        let j = choose|j: int| 0 <= j < lv.len() && marks@[j] && lv[j] == x;
                        assert(lines@[j]@ == x);
                    }
                    if flag_lines(lv).contains(x) {
                        let j = choose|j: int| 0 <= j < lv.len() && lv[j] == x;
                        assert(lines@[j]@ == x);
                        assert(selected(lv, marks@).contains(x));
                    }
                }
                assert(f@ =~= flag_lines(lv));
            }
            Some(f)
        },
    }
}

/// The flags read back from a stored file: its non-empty lines.
pub open spec fn nonempty_lines(lines: Seq<Seq<char>>) -> Set<Seq<char>> {
    Set::new(|x: Seq<char>| lines.contains(x) && x.len() > 0)
}

/// The set of the non-empty lines.
pub fn parse_snapshot(lines: &Vec<String>) -> (r: FlagSet)
    ensures
        r@ == nonempty_lines(views_of(lines@)),
{
    let mut marks: Vec<bool> = Vec::new();
    let mut i: usize = 0;
    while i < lines.len()
        invariant
            0 <= i <= lines.len(),
            marks@.len() == i,
            forall|j: int| 0 <= j < i ==> marks@[j] == (lines@[j]@.len() > 0),
        decreases lines.len() - i,
    {
        marks.push(!lines[i].as_str().is_empty());
        i = i + 1;
    }
    let r = select_flags(lines, &marks);
    proof {
        let lv = views_of(lines@);
        assert forall|x: Seq<char>| r@.contains(x) <==> nonempty_lines(lv).contains(x) by {
            if r@.contains(x) {
                let j = choose|j: int| 0 <= j < lv.len() && marks@[j] && lv[j] == x;
                assert(lines@[j]@ == x);
            }
            if nonempty_lines(lv).contains(x) {
                let j = choose|j: int| 0 <= j < lv.len() && lv[j] == x;
                assert(lines@[j]@ == x);
                assert(selected(lv, marks@).contains(x));
            }
        }
        assert(r@ =~= nonempty_lines(lv));
    }
    r
}

/// Writing a flag set's entries and reading back the non-empty lines gives the
/// same set, provided no flag is the empty string.
pub proof fn lemma_snapshot_round_trip(f: FlagSet)
    requires
        !f@.contains(Seq::empty()),
    ensures
        nonempty_lines(f.entries()) == f@,
{
    assert forall|x: Seq<char>| nonempty_lines(f.entries()).contains(x) <==> f@.contains(x) by {
        if x.len() == 0 {
            assert(x =~= Seq::<char>::empty());
        }
    }
    assert(nonempty_lines(f.entries()) =~= f@);
}

/// Writing a flag set to a file, one flag per line, and reading back the
/// non-empty lines of the file gives the same set, provided no flag is empty,
/// holds a newline or ends with a carriage return.
pub proof fn lemma_snapshot_file_round_trip(f: FlagSet)
    requires
        forall|x: Seq<char>|
            #[trigger] f@.contains(x) ==> x.len() > 0 && !x.contains('\n') && x.last() != '\r',
    ensures
        nonempty_lines(text_lines(newline_joined(f.entries()))) == f@,
{
    let e = f.entries();
    assert forall|i: int| 0 <= i < e.len() implies f@.contains(#[trigger] e[i]) by {
        assert(e.contains(e[i]));
    }
    lemma_lines_round_trip(e);
    lemma_snapshot_round_trip(f);
}

} // verus!
