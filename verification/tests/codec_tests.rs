use webhook_core::codec::{decode, encode};
use webhook_core::update::{DecodeError, Update, UpdateKind};

fn upd(update_id: u64, chat_id: i64, kind: UpdateKind) -> Update {
    Update { update_id, chat_id, kind }
}

#[test]
fn round_trip_message() {
    let u = upd(42, 7, UpdateKind::Message);
    assert_eq!(decode(&encode(&u)), Ok(u));
}

#[test]
fn round_trip_edited_message() {
    let u = upd(1, -99, UpdateKind::EditedMessage);
    assert_eq!(decode(&encode(&u)), Ok(u));
}

#[test]
fn round_trip_callback_query() {
    let u = upd(123456789, -1001234567890, UpdateKind::CallbackQuery);
    assert_eq!(decode(&encode(&u)), Ok(u));
}

#[test]
fn round_trip_extreme_values() {
    for u in [
        upd(0, 0, UpdateKind::Message),
        upd(u64::MAX, i64::MAX, UpdateKind::Message),
        upd(u64::MAX, i64::MIN, UpdateKind::CallbackQuery),
        upd(10, -1, UpdateKind::EditedMessage),
    ] {
        assert_eq!(decode(&encode(&u)), Ok(u));
    }
}

#[test]
fn encode_exact_bytes() {
    let u = upd(42, 7, UpdateKind::Message);
    assert_eq!(
        encode(&u),
        b"{\"update_id\":42,\"message\":{\"chat\":{\"id\":7}}}".to_vec()
    );
    let v = upd(5, -13, UpdateKind::EditedMessage);
    assert_eq!(
        encode(&v),
        b"{\"update_id\":5,\"edited_message\":{\"chat\":{\"id\":-13}}}".to_vec()
    );
}

#[test]
fn decode_exact_bytes() {
    let body = b"{\"update_id\":42,\"callback_query\":{\"chat\":{\"id\":-7}}}".to_vec();
    assert_eq!(decode(&body), Ok(upd(42, -7, UpdateKind::CallbackQuery)));
}

#[test]
fn decode_rejects_malformed() {
    let cases: Vec<&[u8]> = vec![
        b"",
        b"{",
        b"[]",
        b"{\"update_id\":42}",
        b"{\"update_id\":,\"message\":{\"chat\":{\"id\":7}}}",
        b"{\"update_id\":01,\"message\":{\"chat\":{\"id\":7}}}",
        b"{\"update_id\":42,\"message\":{\"chat\":{\"id\":-0}}}",
        b"{\"update_id\":42,\"message\":{\"chat\":{\"id\":07}}}",
        b"{\"update_id\":42,\"message\":{\"chat\":{\"id\":7}}",
        b"{\"update_id\":42,\"message\":{\"chat\":{\"id\":7}}}}",
        b"{\"update_id\":42,\"\":{\"chat\":{\"id\":7}}}",
        b"{\"update_id\":42,\"MESSAGE\":{\"chat\":{\"id\":7}}}",
        b"{\"update_id\":42, \"message\":{\"chat\":{\"id\":7}}}",
        b"{\"update_id\":42,\"message\":{\"chat\":{\"id\":}}}",
        b"{\"update_id\":18446744073709551616,\"message\":{\"chat\":{\"id\":7}}}",
        b"{\"update_id\":42,\"message\":{\"chat\":{\"id\":9223372036854775808}}}",
        b"{\"update_id\":42,\"message\":{\"chat\":{\"id\":-9223372036854775809}}}",
    ];
    for c in cases {
        assert_eq!(decode(&c.to_vec()), Err(DecodeError::Malformed));
    }
}

#[test]
fn decode_boundary_numbers() {
    let max_id = b"{\"update_id\":18446744073709551615,\"message\":{\"chat\":{\"id\":7}}}";
    assert_eq!(
        decode(&max_id.to_vec()),
        Ok(upd(u64::MAX, 7, UpdateKind::Message))
    );
    let min_chat = b"{\"update_id\":1,\"message\":{\"chat\":{\"id\":-9223372036854775808}}}";
    assert_eq!(
        decode(&min_chat.to_vec()),
        Ok(upd(1, i64::MIN, UpdateKind::Message))
    );
    let max_chat = b"{\"update_id\":1,\"message\":{\"chat\":{\"id\":9223372036854775807}}}";
    assert_eq!(
        decode(&max_chat.to_vec()),
        Ok(upd(1, i64::MAX, UpdateKind::Message))
    );
}

#[test]
fn decode_rejects_unsupported_variant() {
    let body = b"{\"update_id\":42,\"channel_post\":{\"chat\":{\"id\":7}}}".to_vec();
    assert_eq!(decode(&body), Err(DecodeError::UnsupportedVariant));
    let body2 = b"{\"update_id\":9,\"poll_answer\":{\"chat\":{\"id\":-3}}}".to_vec();
    assert_eq!(decode(&body2), Err(DecodeError::UnsupportedVariant));
}

#[test]
fn unsupported_variant_needs_whole_envelope() {
    // An unknown key inside a broken envelope is malformed, not merely
    // unsupported.
    let body = b"{\"update_id\":42,\"channel_post\":{\"chat\":{\"id\":7}}".to_vec();
    assert_eq!(decode(&body), Err(DecodeError::Malformed));
}
