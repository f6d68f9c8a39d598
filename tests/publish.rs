use edge_features::install::{edge_app_path, next_source, wait_step, WaitStep};
use edge_features::notes::{
    asset_download_url, bullet_list, enable_features_argument, final_release_notes,
    readme_details, release_name, release_notes, replace_section, shortcut_script,
};

fn strings(items: &[&str]) -> Vec<String> {
    items.iter().map(|s| s.to_string()).collect()
}

fn bullets(items: &[String]) -> String {
    items.iter().map(|f| format!("* {}\n", f)).collect()
}

#[test]
fn wait_steps() {
    assert_eq!(wait_step(0, true), WaitStep::Done);
    assert_eq!(wait_step(3600, false), WaitStep::Retry);
    assert_eq!(wait_step(3600, true), WaitStep::Done);
    assert_eq!(wait_step(3601, true), WaitStep::TimedOut);
    assert_eq!(wait_step(10, false), WaitStep::Retry);
}

#[test]
fn sources_are_tried_in_order() {
    assert_eq!(next_source(0, 2), Some(0));
    assert_eq!(next_source(1, 2), Some(1));
    assert_eq!(next_source(2, 2), None);
    assert_eq!(next_source(0, 0), None);
}

#[test]
fn app_path_for_user() {
    assert_eq!(
        edge_app_path("alice"),
        "C:\\Users\\alice\\AppData\\Local\\Microsoft\\Edge SxS\\Application"
    );
}

#[test]
fn bullet_list_lines() {
    assert_eq!(bullet_list(&strings(&["msA1234", "msB1234"])), "* msA1234\n* msB1234\n");
    assert_eq!(bullet_list(&Vec::new()), "");
}

#[test]
fn readme_section_text() {
    let added = strings(&[
        "msA1", "msA2", "msA3", "msA4", "msA5", "msA6", "msA7", "msA8", "msA9", "msA10", "msA11",
        "msA12",
    ]);
    let expected = format!(
        "\n### <a href=\"https://github.com/SpyNetGirl/MSEdgeFeatures\"><img width=\"35\" src=\"https://github.com/HotCakeX/Harden-Windows-Security/raw/main/images/WebP/Edge%20Canary.webp\"></a> Latest Edge Canary version: {}\n\
            ### Last processed at: {} (UTC+00:00)\n\
            <details>\n\
            <summary>{} new features were added in the latest Edge Canary update</summary>\n\n\
            <br>\n\n\
            {}\
            </details>\n",
        "121.0.2.0",
        "01/02/2024 03:04:05",
        added.len(),
        bullets(&added)
    );
    assert_eq!(readme_details("121.0.2.0", "01/02/2024 03:04:05", &added), expected);
    assert!(expected.contains("<summary>12 new features"));
}

#[test]
fn readme_section_with_nothing_added() {
    let text = readme_details("121.0.2.0", "t", &Vec::new());
    assert!(text.contains("<summary>0 new features"));
    assert!(text.ends_with("<br>\n\n</details>\n"));
}

#[test]
fn release_notes_text() {
    let added = strings(&["msNew1234"]);
    let removed: Vec<String> = Vec::new();
    let expected = format!(
        "\n# <img width=\"35\" src=\"https://github.com/HotCakeX/Harden-Windows-Security/raw/main/images/WebP/Edge%20Canary.webp\"> Automated update\n\n\
            ## Processed at: {} (UTC+00:00)\n\n\
            Visit the GitHub's release section for full details on how to use it:\n\
            https://github.com/SpyNetGirl/MSEdgeFeatures/releases/tag/{}\n\n\
            ### {} New features were added\n\n\
            {}\n\
            <br>\n\n\
            ### {} Features were removed\n\n\
            {}\n\
            <br>\n\n",
        "T",
        "121.0.2.0",
        1,
        "* msNew1234\n",
        0,
        "* \n"
    );
    assert_eq!(release_notes("121.0.2.0", "T", &added, &removed), expected);
    assert_eq!(release_name("121.0.2.0"), "Edge Canary version 121.0.2.0");
}

#[test]
fn final_release_notes_text() {
    let added: Vec<String> = Vec::new();
    let removed = strings(&["msOld1234", "msOld5678"]);
    let url = asset_download_url("121.0.2.0");
    assert_eq!(
        url,
        "https://github.com/SpyNetGirl/MSEdgeFeatures/releases/download/121.0.2.0/EdgeCanaryShortcutMaker.ps1"
    );
    let expected = format!(
        "\n# <img width=\"35\" src=\"https://github.com/HotCakeX/Harden-Windows-Security/raw/main/images/WebP/Edge%20Canary.webp\"> Automated update\n\n\
            ## Processed at: {} (UTC+00:00)\n\n\
            ### {} New features were added\n\n\
            {}\n\
            <br>\n\n\
            ### {} Features were removed\n\n\
            {}\n\
            <br>\n\n\
            ### How to use the new features in this Edge canary update\n\n\
            1. First make sure your Edge canary is up to date\n\n\
            2. Copy and paste the code below in your PowerShell. NO admin privileges required. An Edge canary `.bat` file will be created in your Downloads folder. Double-click/tap on it to launch Edge canary with the features added in this update.\n\n\
            <br>\n\n\
            ```powershell\n\
            invoke-restMethod '{}' | Invoke-Expression\n\
            ```\n\n",
        "T",
        0,
        "* \n",
        2,
        "* msOld1234\n* msOld5678\n",
        url
    );
    assert_eq!(final_release_notes("121.0.2.0", "T", &added, &removed), expected);
}

#[test]
fn features_switch_joins_and_trims() {
    assert_eq!(
        enable_features_argument(&strings(&["msA1234", "msB1234"])),
        "--enable-features=msA1234,msB1234"
    );
    assert_eq!(enable_features_argument(&strings(&["msA1234", ""])), "--enable-features=msA1234");
    assert_eq!(enable_features_argument(&Vec::new()), "--enable-features=");
}

#[test]
fn launcher_script_text() {
    let added = strings(&["msA1234", "msB1234"]);
    let expected = format!(
        r#"
$FullVersionToUse = "{}"

$Arguments = "{}"

$content = @"
powershell.exe -WindowStyle hidden -Command "`$UserSID = [System.Security.Principal.WindowsIdentity]::GetCurrent().user.value;`$UserName = (Get-LocalUser | where-object -FilterScript {{`$_.SID -eq `$UserSID}}).name;Get-Process | where-object -FilterScript {{`$_.path -eq \`"C:\Users\`$UserName\AppData\Local\Microsoft\Edge SxS\Application\msedge.exe\`"}} | ForEach-Object -Process {{Stop-Process -Id `$_.id -Force -ErrorAction SilentlyContinue}};& \`"C:\Users\`$UserName\AppData\Local\Microsoft\Edge SxS\Application\msedge.exe\`" $Arguments"
"@

$content | Out-File -FilePath "C:\Users\$env:USERNAME\Downloads\EDGECAN Launcher $FullVersionToUse.bat"
"#,
        "121.0.2.0", "--enable-features=msA1234,msB1234"
    );
    assert_eq!(shortcut_script("121.0.2.0", &added), expected);
}

#[test]
fn readme_section_is_replaced() {
    let readme = "# Title\n<!-- Edge-Canary-Version:START -->\nold text\n<!-- Edge-Canary-Version:END -->\nrest  \n\n";
    let updated = replace_section(readme, "NEW\n").unwrap();
    assert_eq!(
        updated,
        "# Title\n<!-- Edge-Canary-Version:START -->NEW\n<!-- Edge-Canary-Version:END -->\nrest"
    );
}

#[test]
fn readme_without_markers_is_refused() {
    assert_eq!(replace_section("no markers here", "x"), None);
    assert_eq!(replace_section("<!-- Edge-Canary-Version:START --> only", "x"), None);
    assert_eq!(replace_section("<!-- Edge-Canary-Version:END --> only", "x"), None);
}

#[test]
fn readme_with_non_ascii_text() {
    let readme = "é<!-- Edge-Canary-Version:START -->ü<!-- Edge-Canary-Version:END -->ß\u{3000}";
    assert_eq!(
        replace_section(readme, "ñ").unwrap(),
        "é<!-- Edge-Canary-Version:START -->ñ<!-- Edge-Canary-Version:END -->ß"
    );
}
