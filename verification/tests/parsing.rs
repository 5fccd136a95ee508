use keybinds::codemap::CodeMap;
use keybinds::keys::{parse_key_binding, KeyCode, ParseError, MASK_ALT, MASK_CONTROL, MASK_SHIFT, MASK_SUPER};

fn small_map() -> CodeMap {
    let mut m = CodeMap::new();
    m.insert(b"a".to_vec(), 38);
    m.insert(b"Return".to_vec(), 36);
    m.insert(b"semicolon".to_vec(), 47);
    m
}

#[test]
fn parse_single_modifier() {
    let m = small_map();
    assert_eq!(
        parse_key_binding(b"M-a", &m),
        Ok(KeyCode { mask: MASK_SUPER, code: 38 })
    );
}

#[test]
fn parse_no_modifier() {
    let m = small_map();
    assert_eq!(parse_key_binding(b"a", &m), Ok(KeyCode { mask: 0, code: 38 }));
}

#[test]
fn parse_all_modifiers() {
    let m = small_map();
    assert_eq!(
        parse_key_binding(b"M-A-C-S-Return", &m),
        Ok(KeyCode { mask: MASK_SUPER | MASK_ALT | MASK_CONTROL | MASK_SHIFT, code: 36 })
    );
}

#[test]
fn parse_modifier_order_immaterial() {
    let m = small_map();
    assert_eq!(parse_key_binding(b"M-C-a", &m), parse_key_binding(b"C-M-a", &m));
    assert_eq!(
        parse_key_binding(b"M-C-a", &m),
        Ok(KeyCode { mask: MASK_SUPER | MASK_CONTROL, code: 38 })
    );
}

#[test]
fn parse_modifier_repetition_immaterial() {
    let m = small_map();
    assert_eq!(parse_key_binding(b"M-M-a", &m), parse_key_binding(b"M-a", &m));
}

#[test]
fn parse_unknown_name_without_modifiers() {
    let m = small_map();
    assert_eq!(parse_key_binding(b"nosuchkey", &m), Err(ParseError::UnknownKeyName));
}

#[test]
fn parse_unknown_name_with_modifiers() {
    let m = small_map();
    assert_eq!(parse_key_binding(b"M-S-nosuchkey", &m), Err(ParseError::UnknownKeyName));
}

#[test]
fn parse_unknown_name_wins_over_bad_modifier() {
    let m = small_map();
    assert_eq!(parse_key_binding(b"Z-nosuchkey", &m), Err(ParseError::UnknownKeyName));
}

#[test]
fn parse_bad_modifier_letter() {
    let m = small_map();
    assert_eq!(
        parse_key_binding(b"Z-a", &m),
        Err(ParseError::UnknownModifier { index: 0 })
    );
}

#[test]
fn parse_bad_modifier_reports_first() {
    let m = small_map();
    assert_eq!(
        parse_key_binding(b"M-Ctrl-S-a", &m),
        Err(ParseError::UnknownModifier { index: 1 })
    );
}

#[test]
fn parse_lowercase_modifier_is_bad() {
    let m = small_map();
    assert_eq!(
        parse_key_binding(b"m-a", &m),
        Err(ParseError::UnknownModifier { index: 0 })
    );
}

#[test]
fn codemap_last_registration_wins() {
    let mut m = CodeMap::new();
    m.insert(b"a".to_vec(), 10);
    m.insert(b"a".to_vec(), 20);
    assert_eq!(m.get(b"a"), Some(20));
    assert_eq!(m.len(), 2);
}

#[test]
fn codemap_get_absent() {
    let m = CodeMap::new();
    assert_eq!(m.get(b"a"), None);
}

#[test]
fn parse_empty_pattern_has_empty_name() {
    let m = small_map();
    assert_eq!(parse_key_binding(b"", &m), Err(ParseError::UnknownKeyName));
}

#[test]
fn parse_trailing_dash_has_empty_name() {
    let m = small_map();
    assert_eq!(parse_key_binding(b"M-", &m), Err(ParseError::UnknownKeyName));
}

#[test]
fn parse_empty_name_can_be_registered() {
    let mut m = CodeMap::new();
    m.insert(b"".to_vec(), 7);
    assert_eq!(parse_key_binding(b"M-", &m), Ok(KeyCode { mask: MASK_SUPER, code: 7 }));
}

#[test]
fn key_identity_from_key_press_fields() {
    let k = KeyCode::from_key_press(MASK_SUPER | MASK_SHIFT, 36);
    assert_eq!(k, KeyCode { mask: MASK_SUPER | MASK_SHIFT, code: 36 });
}
