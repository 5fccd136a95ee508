use keybinds::codemap::{codemap_from_keymap_output, KeymapError};

#[test]
fn keymap_line_registers_every_name() {
    let m = codemap_from_keymap_output(b"keycode 38 = a A").unwrap();
    assert_eq!(m.len(), 2);
    assert_eq!(m.get(b"a"), Some(38));
    assert_eq!(m.get(b"A"), Some(38));
}

#[test]
fn keymap_trailing_newline_is_no_line() {
    let m = codemap_from_keymap_output(b"keycode 38 = a A\n").unwrap();
    assert_eq!(m.len(), 2);
    assert_eq!(m.get(b"A"), Some(38));
}

#[test]
fn keymap_several_lines() {
    let m =
        codemap_from_keymap_output(b"keycode 10 = 1 exclam\nkeycode 36 = Return\n").unwrap();
    assert_eq!(m.get(b"1"), Some(10));
    assert_eq!(m.get(b"exclam"), Some(10));
    assert_eq!(m.get(b"Return"), Some(36));
    assert_eq!(m.get(b"plus"), None);
}

#[test]
fn keymap_line_without_names() {
    let m = codemap_from_keymap_output(b"keycode 8 =\nkeycode 9 = Escape\n").unwrap();
    assert_eq!(m.len(), 1);
    assert_eq!(m.get(b"Escape"), Some(9));
}

#[test]
fn keymap_two_word_line_has_no_names() {
    let m = codemap_from_keymap_output(b"keycode 8").unwrap();
    assert_eq!(m.len(), 0);
}

#[test]
fn keymap_empty_output() {
    let m = codemap_from_keymap_output(b"").unwrap();
    assert_eq!(m.len(), 0);
}

#[test]
fn keymap_later_line_wins() {
    let m = codemap_from_keymap_output(b"keycode 10 = a\nkeycode 20 = a\n").unwrap();
    assert_eq!(m.get(b"a"), Some(20));
}

#[test]
fn keymap_one_word_line_is_missing_code() {
    assert_eq!(
        codemap_from_keymap_output(b"keycode 9 = Escape\nkeycode\n").unwrap_err(),
        KeymapError::MissingCode { line: 1 }
    );
}

#[test]
fn keymap_blank_middle_line_is_missing_code() {
    assert_eq!(
        codemap_from_keymap_output(b"keycode 9 = Escape\n\nkeycode 10 = a\n").unwrap_err(),
        KeymapError::MissingCode { line: 1 }
    );
}

#[test]
fn keymap_non_numeric_code() {
    assert_eq!(
        codemap_from_keymap_output(b"keycode x9 = a\n").unwrap_err(),
        KeymapError::BadCode { line: 0 }
    );
}

#[test]
fn keymap_code_too_large() {
    assert_eq!(
        codemap_from_keymap_output(b"keycode 300 = a\n").unwrap_err(),
        KeymapError::BadCode { line: 0 }
    );
}

#[test]
fn keymap_first_bad_line_reported() {
    assert_eq!(
        codemap_from_keymap_output(b"keycode ! = a\nkeycode\n").unwrap_err(),
        KeymapError::BadCode { line: 0 }
    );
}

#[test]
fn keymap_code_bounds() {
    let m = codemap_from_keymap_output(b"keycode 0 = zero\nkeycode 255 = max\n").unwrap();
    assert_eq!(m.get(b"zero"), Some(0));
    assert_eq!(m.get(b"max"), Some(255));
}

#[test]
fn keymap_tabs_and_crlf_accepted() {
    let m = codemap_from_keymap_output(b"keycode\t38 = a\r\nkeycode 39 = s\r\n").unwrap();
    assert_eq!(m.get(b"a"), Some(38));
    assert_eq!(m.get(b"s"), Some(39));
}
