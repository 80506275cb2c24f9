use ignition::config::{
    add_target, add_target_with, clamp_delays, clamp_item_delay, default_stagger, infer_kind,
    infer_name, is_blank, kind_for, name_for, new_item, same_target, targets_match, url_name,
    ItemKind, LaunchConfig,
};

fn empty_config() -> LaunchConfig {
    LaunchConfig::default()
}

#[test]
fn default_config() {
    let cfg = LaunchConfig::default();
    assert_eq!(cfg.login_delay_ms, 0);
    assert_eq!(cfg.stagger_ms, 350);
    assert_eq!(default_stagger(), 350);
    assert!(cfg.items.is_empty());
}

#[test]
fn web_addresses_are_urls() {
    assert_eq!(infer_kind("https://example.com"), ItemKind::Url);
    assert_eq!(infer_kind("  http://example.com/x  "), ItemKind::Url);
    assert_ne!(infer_kind("ftp://example.com"), ItemKind::Url);
}

#[test]
fn programs_by_extension() {
    assert_eq!(infer_kind("/no/such/dir/tool.EXE"), ItemKind::App);
    assert_eq!(infer_kind("/no/such/dir/run.ps1"), ItemKind::App);
    assert_eq!(infer_kind(" /no/such/dir/short.Lnk "), ItemKind::App);
    assert_eq!(infer_kind("/no/such/dir/readme.txt"), ItemKind::File);
    assert_eq!(infer_kind("/no/such/dir/noext"), ItemKind::File);
}

#[test]
fn directories_are_folders() {
    assert_eq!(infer_kind("/"), ItemKind::Folder);
    assert_eq!(infer_kind(" . "), ItemKind::Folder);
}

#[test]
fn kind_rule_by_parts() {
    assert_eq!(kind_for("a.CMD", false, Some("CMD")), ItemKind::App);
    assert_eq!(kind_for("a.cmd", true, Some("cmd")), ItemKind::Folder);
    assert_eq!(kind_for("https://a.exe", true, Some("exe")), ItemKind::Url);
    assert_eq!(kind_for("a.doc", false, Some("doc")), ItemKind::File);
    assert_eq!(kind_for("a", false, None), ItemKind::File);
    assert_eq!(kind_for("a.msc", false, Some("msc")), ItemKind::App);
    assert_eq!(kind_for("a.com", false, Some("com")), ItemKind::App);
    assert_eq!(kind_for("a.bat", false, Some("bat")), ItemKind::App);
}

#[test]
fn url_names_are_hosts() {
    assert_eq!(url_name("https://example.com/path/page"), "example.com");
    assert_eq!(url_name("  http://host:8080/  "), "host:8080");
    assert_eq!(url_name("https://example.com///"), "example.com");
    assert_eq!(url_name("example.com/"), "example.com");
    assert_eq!(url_name("https://"), "https:");
}

#[test]
fn names_from_file_stems() {
    assert_eq!(infer_name("/opt/tools/editor.exe", &ItemKind::App), "editor");
    assert_eq!(infer_name("  /home/me/notes.txt ", &ItemKind::File), "notes");
    assert_eq!(infer_name("https://example.com/a", &ItemKind::Url), "example.com");
    assert_eq!(infer_name("   ", &ItemKind::File), "");
}

#[test]
fn names_by_parts() {
    assert_eq!(name_for(" x/y.exe ", ItemKind::App, Some("y")), "y");
    assert_eq!(name_for(" x/y.exe ", ItemKind::App, Some("")), "x/y.exe");
    assert_eq!(name_for(" x/y.exe ", ItemKind::File, None), "x/y.exe");
    assert_eq!(name_for("http://h/p", ItemKind::Url, Some("p")), "h");
}

#[test]
fn matching_targets() {
    assert!(same_target("  /a/b.exe ", "/a/b.exe"));
    assert!(!same_target("/a/b.exe", "/a/c.exe"));
    assert!(targets_match("C:\\A.EXE", " c:\\a.exe", true));
    assert!(!targets_match("C:\\A.EXE", "c:\\a.exe", false));
    assert!(targets_match("x", "x ", false));
}

#[test]
fn new_items() {
    let item = new_item("  /no/such/dir/start.bat ".to_string());
    assert_eq!(item.target, "/no/such/dir/start.bat");
    assert_eq!(item.name, "start");
    assert_eq!(item.kind, ItemKind::App);
    assert_eq!(item.args, "");
    assert!(item.enabled);
    assert_eq!(item.delay_ms, 0);
    assert_eq!(item.id.len(), 36);
    let other = new_item("https://example.com".to_string());
    assert_ne!(item.id, other.id);
    assert_eq!(other.kind, ItemKind::Url);
    assert_eq!(other.name, "example.com");
}

#[test]
fn adding_targets() {
    let mut cfg = empty_config();
    let item = add_target(&mut cfg, "  https://example.com  ".to_string()).unwrap();
    assert_eq!(item.target, "https://example.com");
    assert_eq!(cfg.items.len(), 1);
    assert_eq!(cfg.items[0].id, item.id);
    assert_eq!(add_target(&mut cfg, "   ".to_string()).unwrap_err(), "Empty target");
    assert_eq!(
        add_target(&mut cfg, "https://example.com".to_string()).unwrap_err(),
        "Already in the list"
    );
    assert_eq!(cfg.items.len(), 1);
    add_target(&mut cfg, "/no/such/x.txt".to_string()).unwrap();
    assert_eq!(cfg.items.len(), 2);
    assert_eq!(cfg.stagger_ms, 350);
}

#[test]
fn adding_with_case_folding() {
    let mut cfg = empty_config();
    add_target_with(&mut cfg, "C:\\Tools\\A.exe".to_string(), true).unwrap();
    assert_eq!(
        add_target_with(&mut cfg, "c:\\tools\\a.EXE".to_string(), true).unwrap_err(),
        "Already in the list"
    );
    assert!(add_target_with(&mut cfg, "c:\\tools\\a.EXE".to_string(), false).is_ok());
    assert_eq!(cfg.items.len(), 2);
}

#[test]
fn delay_caps() {
    assert_eq!(clamp_delays(70_000, 6_000), (60_000, 5_000));
    assert_eq!(clamp_delays(100, 200), (100, 200));
    assert_eq!(clamp_delays(60_000, 5_000), (60_000, 5_000));
    assert_eq!(clamp_item_delay(130_000), 120_000);
    assert_eq!(clamp_item_delay(120_000), 120_000);
    assert_eq!(clamp_item_delay(7), 7);
    assert_eq!(clamp_item_delay(clamp_item_delay(u64::MAX)), clamp_item_delay(u64::MAX));
}

#[test]
fn blank_texts() {
    assert!(is_blank(""));
    assert!(is_blank(" \n\t\u{3000}"));
    assert!(!is_blank(" {} "));
}

#[test]
fn matching_is_reflexive_and_symmetric() {
    for (a, b) in [("X", " x"), ("a", "a"), ("C:\\A", "c:\\b")] {
        for fold in [false, true] {
            assert!(targets_match(a, a, fold));
            assert_eq!(targets_match(a, b, fold), targets_match(b, a, fold));
        }
    }
}

#[test]
fn bare_file_names() {
    assert_eq!(infer_kind("notepad.exe"), ItemKind::App);
    assert_eq!(infer_kind(" run.PS1 "), ItemKind::App);
    assert_eq!(infer_kind("notes.exe.txt"), ItemKind::File);
    assert_eq!(infer_kind(".exe"), ItemKind::File);
    assert_eq!(infer_name("notepad.exe", &ItemKind::App), "notepad");
    assert_eq!(infer_name("archive.tar.gz", &ItemKind::File), "archive.tar");
    assert_eq!(infer_name(".profile", &ItemKind::File), ".profile");
    assert_eq!(infer_name("README", &ItemKind::File), "README");
}

#[test]
fn ids_are_version_four() {
    let id = new_item("x".to_string()).id;
    let chars: Vec<char> = id.chars().collect();
    assert_eq!(chars.len(), 36);
    assert_eq!(chars[14], '4');
    assert!(matches!(chars[19], '8' | '9' | 'a' | 'b'));
    for (i, c) in chars.iter().enumerate() {
        if [8, 13, 18, 23].contains(&i) {
            assert_eq!(*c, '-');
        } else {
            assert!(c.is_ascii_hexdigit() && !c.is_ascii_uppercase());
        }
    }
}

#[test]
fn full_paths() {
    assert_eq!(infer_kind("C:/Tools/Setup.EXE"), ItemKind::App);
    assert_eq!(infer_kind(r"C:\Windows\notepad.exe"), ItemKind::App);
    assert_eq!(infer_kind("/home/me/report.pdf"), ItemKind::File);
    assert_eq!(infer_name("/home/me/archive.tar.gz", &ItemKind::File), "archive.tar");
    assert_eq!(infer_name("C:/Tools/Setup.EXE", &ItemKind::App), "Setup");
    assert_eq!(infer_name("/home/me/.bashrc", &ItemKind::File), ".bashrc");
    let item = new_item(" C:/Games/Play.bat ".to_string());
    assert_eq!((item.kind, item.name.as_str()), (ItemKind::App, "Play"));
}
