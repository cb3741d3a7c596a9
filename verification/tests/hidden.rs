use ilium::hidden::{classify, private, Hidden, Visibility};

#[test]
fn a_remembered_value_outlasts_an_unseen_field() {
    assert_eq!(Hidden::update(Hidden::LastSeen(5), Hidden::Unseen), Hidden::LastSeen(5));
}

#[test]
fn an_unseen_field_stays_unseen() {
    assert_eq!(Hidden::<u32>::update(Hidden::Unseen, Hidden::Unseen), Hidden::Unseen);
}

#[test]
fn a_seen_value_replaces_what_was_seen() {
    assert_eq!(Hidden::update(Hidden::Seen(5), Hidden::Seen(7)), Hidden::Seen(7));
    assert_eq!(Hidden::update(Hidden::LastSeen(5), Hidden::Seen(7)), Hidden::Seen(7));
    assert_eq!(Hidden::update(Hidden::Unseen, Hidden::Seen(7)), Hidden::Seen(7));
}

#[test]
fn a_value_seen_before_is_not_remembered_by_itself() {
    assert_eq!(Hidden::update(Hidden::Seen(5), Hidden::Unseen), Hidden::Unseen);
}

#[test]
fn whatever_was_computed_goes_out_as_it_is_otherwise() {
    assert_eq!(Hidden::update(Hidden::Seen(5), Hidden::LastSeen(3)), Hidden::LastSeen(3));
    assert_eq!(Hidden::update(Hidden::LastSeen(5), Hidden::LastSeen(3)), Hidden::LastSeen(3));
}

#[test]
fn a_field_is_seen_where_it_is_visible() {
    assert_eq!(Hidden::observe(true, 4), Hidden::Seen(4));
    assert_eq!(Hidden::observe(false, 4), Hidden::Unseen);
}

#[test]
fn a_private_field_is_shown_to_its_owner_only() {
    assert_eq!(private(3, 3, "x"), Some("x"));
    assert_eq!(private(3, 4, "x"), None);
}

#[test]
fn a_field_is_private_unless_marked() {
    assert_eq!(classify(Some(true), false), Visibility::Open);
    assert_eq!(classify(Some(true), true), Visibility::Open);
    assert_eq!(classify(Some(false), true), Visibility::Hidden);
    assert_eq!(classify(None, true), Visibility::Hidden);
    assert_eq!(classify(Some(false), false), Visibility::Private);
    assert_eq!(classify(None, false), Visibility::Private);
}
