use vic2enc_core::safe_token::{to_safe_string, to_unsafe_string};

fn roundtrip(s: &str) {
    let safe = to_safe_string(s);
    let back = to_unsafe_string(&safe);
    assert_eq!(s, back, "safe-token roundtrip failed: {s:?} -> {safe:?}");
}

#[test]
fn variable_token() {
    assert_eq!(to_safe_string("$COUNTRY$"), "<VAR-COUNTRY>");
    roundtrip("$COUNTRY$ owns $CAPITAL$");
}

#[test]
fn color_token() {
    assert_eq!(to_safe_string("§Y黄金§!"), "<A7-Y>黄金<A7-!>");
    roundtrip("§Y黄金§! and §Gtext§!");
}

#[test]
fn icon_tokens() {
    assert_eq!(to_safe_string("£gold£"), "<A3-gold-A3>");
    roundtrip("£gold£");
    roundtrip("cost £gold and more");
    roundtrip("¤ and ¤");
}

#[test]
fn plain_dollar_is_kept() {
    roundtrip("price is 5$ only");
    roundtrip("$$");
}

#[test]
fn mixed() {
    roundtrip("§Y$VAL$§! gold £money£ costs ¤100");
}

#[test]
fn icon_key_at_end_of_text_gains_a_space_on_the_way_back() {
    // An icon key that ends the text has no closing space; decoding writes one.
    assert_eq!(to_safe_string("cost £gold"), "cost <A3-gold>");
    assert_eq!(to_unsafe_string("cost <A3-gold>"), "cost £gold ");
}

#[test]
fn lone_section_sign_and_malformed_tokens() {
    assert_eq!(to_safe_string("end§"), "end<A7>");
    assert_eq!(to_unsafe_string("end<A7>"), "end§");
    // Tokens that never close are kept as they are.
    assert_eq!(to_unsafe_string("<A3-gold"), "<A3-gold");
    assert_eq!(to_unsafe_string("<VAR-X"), "<VAR-X");
    assert_eq!(to_unsafe_string("<A7-Y"), "<A7-Y");
}

#[test]
fn literal_tokens_in_raw_text_do_not_survive() {
    // Text that already looks like a token is decoded on the way back.
    assert_eq!(to_safe_string("<A4>"), "<A4>");
    assert_eq!(to_unsafe_string("<A4>"), "¤");
}
