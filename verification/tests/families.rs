use placard::families::missing_families;

fn req(items: &[(&str, bool)]) -> Vec<(String, bool)> {
    items.iter().map(|(n, p)| (n.to_string(), *p)).collect()
}

#[test]
fn missing_families_are_deduplicated_without_regard_to_case() {
    let r = missing_families(&req(&[
        ("Foo", false),
        ("foo", false),
        ("Bar", true),
        ("baz", false),
        ("FOO", false),
    ]));
    assert_eq!(r, vec!["baz".to_string(), "Foo".to_string()]);
}

#[test]
fn missing_families_are_ordered_by_lowercased_name() {
    let r = missing_families(&req(&[("Zeta", false), ("alpha", false), ("Mid", false)]));
    assert_eq!(r, vec!["alpha".to_string(), "Mid".to_string(), "Zeta".to_string()]);
}

#[test]
fn provided_families_raise_no_warning() {
    assert!(missing_families(&req(&[("Inter", true), ("inter", true)])).is_empty());
    assert!(missing_families(&Vec::new()).is_empty());
}

#[test]
fn a_provided_spelling_does_not_hide_a_missing_one() {
    let r = missing_families(&req(&[("Inter", true), ("INTER", false)]));
    assert_eq!(r, vec!["INTER".to_string()]);
}
