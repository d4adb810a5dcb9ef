use discord_exporter::input::{resolve_window, MessageInput};
use discord_exporter::snowflake::{checked_lower_bound_id, lower_bound_id, DISCORD_EPOCH_MS};

#[test]
fn a_number_is_an_identifier() {
    assert_eq!(MessageInput::from_str("175928847299117063").ok(), Some(MessageInput::Id(175928847299117063)));
    assert_eq!(MessageInput::from_str("0").ok(), Some(MessageInput::Id(0)));
    assert_eq!(MessageInput::from_str("+42").ok(), Some(MessageInput::Id(42)));
    assert_eq!(MessageInput::from_str("18446744073709551615").ok(), Some(MessageInput::Id(u64::MAX)));
}

#[test]
fn a_date_is_its_first_instant() {
    assert_eq!(MessageInput::from_str("2015-01-01").ok(), Some(MessageInput::DateTime(1420070400000)));
    assert_eq!(MessageInput::from_str("1970-01-02").ok(), Some(MessageInput::DateTime(86400000)));
    assert_eq!(MessageInput::from_str("1969-12-31").ok(), Some(MessageInput::DateTime(-86400000)));
    assert_eq!(MessageInput::from_str("2022-03-01").ok(), Some(MessageInput::DateTime(1646092800000)));
}

#[test]
fn a_timestamp_is_read_with_its_offset() {
    assert_eq!(
        MessageInput::from_str("2022-03-01T12:00:00+00:00").ok(),
        Some(MessageInput::DateTime(1646136000000))
    );
    assert_eq!(
        MessageInput::from_str("2022-03-01T12:00:00.250+01:00").ok(),
        Some(MessageInput::DateTime(1646132400250))
    );
    assert_eq!(MessageInput::from_str("2015-01-01T00:00:00Z").ok(), Some(MessageInput::DateTime(1420070400000)));
}

#[test]
fn other_text_is_rejected() {
    for text in ["", "abc", "12a", "2022-13-01", "2022-02-30", "2022-03-01T12:00:00", "18446744073709551616", "-5", "+"] {
        assert!(MessageInput::from_str(text).is_err(), "{text:?} was accepted");
    }
}

#[test]
fn lower_bound_of_the_epoch_is_zero() {
    assert_eq!(lower_bound_id(DISCORD_EPOCH_MS), 0);
    assert_eq!(lower_bound_id(DISCORD_EPOCH_MS + 1), 4194304);
    assert_eq!(lower_bound_id(1646092800000), (1646092800000 - 1420070400000) << 22);
    assert_eq!(lower_bound_id(1646092800000), 948006656409600000);
}

#[test]
fn lower_bound_is_below_every_identifier_issued_later() {
    // An identifier issued at 2016-04-30T11:18:25.796Z.
    let issued: u64 = 175928847299117063;
    let issued_at_ms: i64 = (issued >> 22) as i64 + DISCORD_EPOCH_MS;
    assert_eq!(issued_at_ms, 1462015105796);
    assert!(lower_bound_id(issued_at_ms) <= issued);
    assert!(lower_bound_id(issued_at_ms - 1) <= issued);
    assert!(lower_bound_id(issued_at_ms + 1) > issued);
    assert_eq!(lower_bound_id(issued_at_ms), (issued >> 22) << 22);
}

#[test]
fn instants_outside_the_identifier_space_have_no_bound() {
    assert_eq!(checked_lower_bound_id(DISCORD_EPOCH_MS - 1), None);
    assert_eq!(checked_lower_bound_id(0), None);
    assert_eq!(checked_lower_bound_id(-1), None);
    assert_eq!(checked_lower_bound_id(DISCORD_EPOCH_MS), Some(0));
    let last: i64 = DISCORD_EPOCH_MS + (1 << 42) - 1;
    assert_eq!(checked_lower_bound_id(last), Some(((1u64 << 42) - 1) << 22));
    assert_eq!(checked_lower_bound_id(last + 1), None);
    assert_eq!(checked_lower_bound_id(i64::MAX), None);
    assert_eq!(checked_lower_bound_id(i64::MIN), None);
}

#[test]
fn a_bound_stands_for_an_identifier() {
    assert_eq!(MessageInput::Id(17).to_id(), Some(17));
    assert_eq!(MessageInput::DateTime(DISCORD_EPOCH_MS + 2).to_id(), Some(2 << 22));
    assert_eq!(MessageInput::DateTime(5).to_id(), None);
    assert_eq!(MessageInput::from_str("2022-03-01").ok().and_then(|input| input.to_id()), Some(948006656409600000));
}

#[test]
fn a_window_takes_its_defaults_from_zero_and_now() {
    let now_ms: i64 = DISCORD_EPOCH_MS + 1000;
    assert_eq!(resolve_window(None, None, now_ms), Some((0, 1000 << 22)));
    assert_eq!(resolve_window(Some(MessageInput::Id(5)), Some(MessageInput::Id(9)), now_ms), Some((5, 9)));
    assert_eq!(
        resolve_window(Some(MessageInput::DateTime(DISCORD_EPOCH_MS + 1)), None, now_ms),
        Some((1 << 22, 1000 << 22))
    );
    assert_eq!(resolve_window(Some(MessageInput::DateTime(0)), None, now_ms), None);
    assert_eq!(resolve_window(None, None, 0), None);
    assert_eq!(resolve_window(None, Some(MessageInput::Id(9)), 0), Some((0, 9)));
}
