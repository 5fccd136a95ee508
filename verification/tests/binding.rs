use keybinds::bindings::{build_binding_table, Action, BindError, MethodId};
use keybinds::codemap::{codemap_from_keymap_output, CodeMap};
use keybinds::config::key_bindings;
use keybinds::keys::{KeyCode, ParseError, MASK_SHIFT, MASK_SUPER};

fn stock_map() -> CodeMap {
    codemap_from_keymap_output(
        b"keycode 47 = semicolon colon\nkeycode 36 = Return\nkeycode 9 = Escape\nkeycode 38 = a A\n",
    )
    .unwrap()
}

fn spawn(cmd: &[u8]) -> Action {
    Action::SpawnExternal { program: cmd.to_vec() }
}

fn assert_spawns(a: Option<&Action>, cmd: &[u8]) {
    match a {
        Some(Action::SpawnExternal { program }) => assert_eq!(program.as_slice(), cmd),
        other => panic!("expected a spawn of {:?}, got {:?}", cmd, other),
    }
}

#[test]
fn build_resolves_each_declaration() {
    let codes = stock_map();
    let decls = vec![
        (b"M-a".to_vec(), spawn(b"firefox")),
        (b"M-S-Return".to_vec(), spawn(b"alacritty")),
    ];
    let t = build_binding_table(decls, &codes).unwrap();
    assert_eq!(t.len(), 2);
    assert_spawns(t.get(KeyCode { mask: MASK_SUPER, code: 38 }), b"firefox");
    assert_spawns(
        t.get(KeyCode { mask: MASK_SUPER | MASK_SHIFT, code: 36 }),
        b"alacritty",
    );
    assert!(t.get(KeyCode { mask: 0, code: 38 }).is_none());
}

#[test]
fn build_later_declaration_overwrites() {
    let codes = stock_map();
    let decls = vec![
        (b"M-a".to_vec(), spawn(b"first")),
        (b"M-a".to_vec(), spawn(b"second")),
    ];
    let t = build_binding_table(decls, &codes).unwrap();
    assert_eq!(t.len(), 2);
    assert_spawns(t.get(KeyCode { mask: MASK_SUPER, code: 38 }), b"second");
    assert_eq!(t.keys(), vec![KeyCode { mask: MASK_SUPER, code: 38 }]);
}

#[test]
fn build_reports_first_unresolved_pattern() {
    let codes = stock_map();
    let decls = vec![
        (b"M-a".to_vec(), spawn(b"first")),
        (b"M-nosuchkey".to_vec(), spawn(b"second")),
        (b"Q-Return".to_vec(), spawn(b"third")),
    ];
    let e = build_binding_table(decls, &codes).unwrap_err();
    assert_eq!(e, BindError { index: 1, cause: ParseError::UnknownKeyName });
}

#[test]
fn build_reports_bad_modifier() {
    let codes = stock_map();
    let decls = vec![(b"Q-Return".to_vec(), spawn(b"x"))];
    let e = build_binding_table(decls, &codes).unwrap_err();
    assert_eq!(
        e,
        BindError { index: 0, cause: ParseError::UnknownModifier { index: 0 } }
    );
}

#[test]
fn build_empty_declarations() {
    let codes = stock_map();
    let t = build_binding_table(Vec::new(), &codes).unwrap();
    assert_eq!(t.len(), 0);
    assert!(t.keys().is_empty());
}

#[test]
fn build_is_deterministic() {
    let codes = stock_map();
    let mk = || {
        vec![
            (b"M-a".to_vec(), spawn(b"firefox")),
            (b"M-Return".to_vec(), spawn(b"alacritty")),
            (b"S-M-a".to_vec(), spawn(b"dmenu")),
        ]
    };
    let t1 = build_binding_table(mk(), &codes).unwrap();
    let t2 = build_binding_table(mk(), &codes).unwrap();
    assert_eq!(t1.keys(), t2.keys());
    assert_eq!(t1.len(), t2.len());
}

#[test]
fn keys_are_distinct_and_in_first_bound_order() {
    let codes = stock_map();
    let decls = vec![
        (b"M-a".to_vec(), spawn(b"one")),
        (b"M-Return".to_vec(), spawn(b"two")),
        (b"M-M-a".to_vec(), spawn(b"three")),
    ];
    let t = build_binding_table(decls, &codes).unwrap();
    assert_eq!(
        t.keys(),
        vec![
            KeyCode { mask: MASK_SUPER, code: 38 },
            KeyCode { mask: MASK_SUPER, code: 36 },
        ]
    );
}

#[test]
fn stock_bindings_resolve() {
    let codes = stock_map();
    let t = key_bindings(&codes).unwrap();
    assert_eq!(t.len(), 3);
    assert_spawns(t.get(KeyCode { mask: MASK_SUPER, code: 47 }), b"firefox");
    assert_spawns(t.get(KeyCode { mask: MASK_SUPER, code: 36 }), b"alacritty");
    match t.get(KeyCode { mask: MASK_SUPER | MASK_SHIFT, code: 9 }) {
        Some(Action::InvokeInternal { method, argument }) => {
            assert_eq!(*method, MethodId::Kill);
            assert_eq!(*argument, None);
        },
        other => panic!("expected the kill invocation, got {:?}", other),
    }
}

#[test]
fn stock_bindings_need_every_name() {
    let codes = codemap_from_keymap_output(b"keycode 47 = semicolon\n").unwrap();
    let e = key_bindings(&codes).unwrap_err();
    assert_eq!(e, BindError { index: 1, cause: ParseError::UnknownKeyName });
}
