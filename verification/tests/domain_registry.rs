use wezterm_core::domain_registry::domains_to_register;

#[test]
fn known_and_repeated_names_are_skipped() {
    let names: Vec<String> = vec!["a".into(), "local".into(), "b".into(), "a".into(), "c".into()];
    let known: Vec<String> = vec!["local".into(), "c".into()];
    assert_eq!(domains_to_register(&names, &known), vec![0, 2]);
    assert_eq!(domains_to_register(&names, &vec![]), vec![0, 1, 2, 4]);
}
