use jellespelletjes_api::results::{store_action, StoreAction};

#[test]
fn first_write_wins() {
    assert_eq!(store_action(None, "{\"won\":true}"), StoreAction::Insert);
    assert_eq!(store_action(Some("{\"won\":true}"), "{\"won\":true}"), StoreAction::Existing);
    assert_eq!(store_action(Some("{\"won\":false}"), "{\"won\":true}"), StoreAction::Conflict);
}

#[test]
fn stored_values_compare_as_json() {
    let payload = "{\"guesses\":[\"appel\"],\"won\":true}";
    assert_eq!(
        store_action(Some("{ \"won\": true,\n  \"guesses\": [ \"appel\" ] }"), payload),
        StoreAction::Existing
    );
    assert_eq!(store_action(Some("not json"), payload), StoreAction::Conflict);
    assert_eq!(store_action(Some("not json"), "null"), StoreAction::Existing);
}
