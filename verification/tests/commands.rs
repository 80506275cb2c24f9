use ignition::commands::{
    add_targets, find_item, is_launch_mode, item_for_id, remove_item, set_args, set_delays, set_enabled,
    set_item_delay, validate_url,
};
use ignition::text::str_eq;
use ignition::config::{ItemKind, LaunchConfig, LaunchItem};

fn item(id: &str, target: &str) -> LaunchItem {
    LaunchItem {
        id: id.into(),
        name: id.into(),
        target: target.into(),
        args: String::new(),
        kind: ItemKind::File,
        enabled: true,
        delay_ms: 0,
    }
}

fn config() -> LaunchConfig {
    LaunchConfig {
        login_delay_ms: 10,
        stagger_ms: 20,
        items: vec![item("a", "/x/a"), item("b", "/x/b"), item("a", "/x/c")],
    }
}

#[test]
fn urls_need_a_web_scheme() {
    assert_eq!(validate_url("  https://e.com ").unwrap(), "https://e.com");
    assert_eq!(validate_url("http://e.com").unwrap(), "http://e.com");
    assert_eq!(
        validate_url("e.com").unwrap_err(),
        "URL must start with http:// or https://"
    );
}

#[test]
fn adding_several_paths() {
    let mut cfg = LaunchConfig::default();
    assert_eq!(add_targets(&mut cfg, vec!["/x/1".into(), " ".into(), "/x/2".into()]), Ok(2));
    assert_eq!(cfg.items.len(), 2);
    assert_eq!(add_targets(&mut cfg, vec![]), Err("Nothing to add".to_string()));
    assert_eq!(
        add_targets(&mut cfg, vec!["/x/1".into(), "  ".into()]),
        Err("Empty target".to_string())
    );
    assert_eq!(add_targets(&mut cfg, vec!["/x/2".into()]), Err("Already in the list".to_string()));
    assert_eq!(add_targets(&mut cfg, vec!["/x/3".into(), "/x/3".into()]), Ok(1));
    assert_eq!(cfg.items.len(), 3);
}

#[test]
fn removing_items() {
    let mut cfg = config();
    remove_item(&mut cfg, "a").unwrap();
    assert_eq!(cfg.items.len(), 1);
    assert_eq!(cfg.items[0].id, "b");
    assert_eq!(remove_item(&mut cfg, "a").unwrap_err(), "Item not found");
    assert_eq!(cfg.items.len(), 1);
    assert_eq!((cfg.login_delay_ms, cfg.stagger_ms), (10, 20));
}

#[test]
fn editing_the_first_matching_item() {
    let mut cfg = config();
    set_enabled(&mut cfg, "a", false).unwrap();
    assert!(!cfg.items[0].enabled);
    assert!(cfg.items[2].enabled);
    set_args(&mut cfg, "b", "-v".into()).unwrap();
    assert_eq!(cfg.items[1].args, "-v");
    set_item_delay(&mut cfg, "b", 999_999).unwrap();
    assert_eq!(cfg.items[1].delay_ms, 120_000);
    set_item_delay(&mut cfg, "a", 15).unwrap();
    assert_eq!(cfg.items[0].delay_ms, 15);
    assert_eq!(set_enabled(&mut cfg, "z", true).unwrap_err(), "Item not found");
    assert_eq!(set_args(&mut cfg, "z", String::new()).unwrap_err(), "Item not found");
    assert_eq!(set_item_delay(&mut cfg, "z", 1).unwrap_err(), "Item not found");
    assert_eq!(cfg.items[1].target, "/x/b");
}

#[test]
fn setting_delays() {
    let mut cfg = config();
    set_delays(&mut cfg, 90_000, 100);
    assert_eq!((cfg.login_delay_ms, cfg.stagger_ms), (60_000, 100));
    assert_eq!(cfg.items.len(), 3);
}

#[test]
fn finding_items() {
    let cfg = config();
    assert_eq!(find_item(&cfg.items, "a"), Some(0));
    assert_eq!(find_item(&cfg.items, "b"), Some(1));
    assert_eq!(find_item(&cfg.items, "c"), None);
    assert_eq!(item_for_id(&cfg.items, "b"), Ok(1));
    assert_eq!(item_for_id(&cfg.items, "c"), Err("Item not found".to_string()));
    assert!(str_eq("x", "x"));
    assert!(!str_eq("x", "X"));
}

#[test]
fn launch_mode_flag() {
    assert!(is_launch_mode(&["app".into(), "--launch".into()]));
    assert!(!is_launch_mode(&["app".into(), "--launched".into()]));
    assert!(!is_launch_mode(&[]));
}
