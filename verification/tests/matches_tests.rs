use minipat::Matches;

#[test]
fn get_present_entry() {
    let captured = Matches::new(vec!["one".to_string(), "two".to_string()]);
    assert_eq!(captured.get(0), "one");
    assert_eq!(captured.get(1), "two");
}

#[test]
fn get_missing_entry_is_empty() {
    let captured = Matches::new(vec!["one".to_string()]);
    assert_eq!(captured.get(1), "");
    assert_eq!(captured.get(100), "");
}

#[test]
fn get_from_empty_list_is_empty() {
    let captured = Matches::new(Vec::new());
    assert_eq!(captured.get(0), "");
}
