use ssm_env::overlay::Overlay;

fn pair(key: &str, value: &str) -> (String, String) {
    (key.to_string(), value.to_string())
}

#[test]
fn a_new_overlay_is_empty() {
    let overlay = Overlay::new();
    assert!(overlay.is_empty());
    assert_eq!(overlay.len(), 0);
    assert_eq!(overlay.entries(), Vec::new());
    assert_eq!(overlay.get("A"), None);
    assert!(!overlay.contains_key("A"));
}

#[test]
fn insert_binds_and_replaces_in_place() {
    let mut overlay = Overlay::new();
    overlay.insert("A".to_string(), "1".to_string());
    overlay.insert("B".to_string(), "2".to_string());
    overlay.insert("A".to_string(), "3".to_string());
    assert_eq!(overlay.len(), 2);
    assert!(!overlay.is_empty());
    assert_eq!(overlay.get("A"), Some(&"3".to_string()));
    assert_eq!(overlay.get("B"), Some(&"2".to_string()));
    assert_eq!(overlay.get("C"), None);
    assert!(overlay.contains_key("B"));
    assert!(!overlay.contains_key("b"));
    assert_eq!(overlay.entries(), vec![pair("A", "3"), pair("B", "2")]);
}

#[test]
fn extend_writes_one_binding_after_another() {
    let mut overlay = Overlay::new();
    overlay.insert("A".to_string(), "old".to_string());
    overlay.extend(&vec![pair("B", "1"), pair("A", "2"), pair("B", "3"), pair("", "empty")]);
    assert_eq!(overlay.entries(), vec![pair("A", "2"), pair("B", "3"), pair("", "empty")]);
    overlay.extend(&Vec::new());
    assert_eq!(overlay.len(), 3);
}

#[test]
fn writing_the_entries_anew_gives_the_same_overlay() {
    let mut overlay = Overlay::new();
    overlay.extend(&vec![pair("X", "1"), pair("Y", "2"), pair("X", "3")]);
    let mut copy = Overlay::new();
    copy.extend(&overlay.entries());
    assert_eq!(copy.entries(), overlay.entries());
}
