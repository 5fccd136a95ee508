use keybinds::bindings::{build_binding_table, Action, MethodId};
use keybinds::codemap::codemap_from_keymap_output;
use keybinds::dispatch::{Directive, Dispatcher, Event};
use keybinds::keys::{KeyCode, MASK_SUPER};

fn dispatcher() -> Dispatcher {
    let codes = codemap_from_keymap_output(b"keycode 36 = Return\nkeycode 9 = Escape\n").unwrap();
    let decls = vec![
        (
            b"M-Return".to_vec(),
            Action::SpawnExternal { program: b"st -e vim".to_vec() },
        ),
        (
            b"M-Escape".to_vec(),
            Action::InvokeInternal { method: MethodId::Kill, argument: None },
        ),
    ];
    Dispatcher::new(build_binding_table(decls, &codes).unwrap())
}

fn assert_ignore(d: Directive) {
    match d {
        Directive::Ignore => (),
        other => panic!("expected no dispatch, got {:?}", other),
    }
}

#[test]
fn exact_match_dispatches_bound_action() {
    let mut d = dispatcher();
    match d.handle(&Event::KeyPress { mask: MASK_SUPER, code: 36 }) {
        Directive::Spawn { program, arguments } => {
            assert_eq!(program.as_slice(), b"st");
            assert_eq!(arguments, vec![b"-e".to_vec(), b"vim".to_vec()]);
        },
        other => panic!("expected a spawn, got {:?}", other),
    }
}

#[test]
fn same_code_other_mask_does_not_match() {
    let mut d = dispatcher();
    assert_ignore(d.handle(&Event::KeyPress { mask: 0, code: 36 }));
    assert_ignore(d.handle(&Event::KeyPress { mask: MASK_SUPER | 1, code: 36 }));
}

#[test]
fn unbound_key_is_silently_ignored() {
    let mut d = dispatcher();
    assert_ignore(d.handle(&Event::KeyPress { mask: MASK_SUPER, code: 99 }));
}

#[test]
fn non_key_event_is_discarded() {
    let mut d = dispatcher();
    assert_ignore(d.handle(&Event::Other));
}

#[test]
fn kill_exits_and_nothing_runs_afterwards() {
    let mut d = dispatcher();
    match d.handle(&Event::KeyPress { mask: MASK_SUPER, code: 9 }) {
        Directive::Exit => (),
        other => panic!("expected an exit, got {:?}", other),
    }
    // The bound spawn key no longer dispatches once the loop has ended.
    assert_ignore(d.handle(&Event::KeyPress { mask: MASK_SUPER, code: 36 }));
    assert_ignore(d.handle(&Event::KeyPress { mask: MASK_SUPER, code: 9 }));
}

#[test]
fn spawn_leaves_loop_and_table_unaffected() {
    let mut d = dispatcher();
    // Dispatch the spawn twice in a row: whatever became of the spawned
    // process, the next event is still dispatched normally.
    for _ in 0..2 {
        match d.handle(&Event::KeyPress { mask: MASK_SUPER, code: 36 }) {
            Directive::Spawn { program, .. } => assert_eq!(program.as_slice(), b"st"),
            other => panic!("expected a spawn, got {:?}", other),
        }
    }
    match d.handle(&Event::KeyPress { mask: MASK_SUPER, code: 9 }) {
        Directive::Exit => (),
        other => panic!("expected an exit, got {:?}", other),
    }
}

#[test]
fn empty_command_line_spawns_nothing() {
    let codes = codemap_from_keymap_output(b"keycode 36 = Return\n").unwrap();
    let decls = vec![(
        b"M-Return".to_vec(),
        Action::SpawnExternal { program: b"   ".to_vec() },
    )];
    let mut d = Dispatcher::new(build_binding_table(decls, &codes).unwrap());
    assert_ignore(d.handle(&Event::KeyPress { mask: MASK_SUPER, code: 36 }));
}

#[test]
fn single_word_command_has_no_arguments() {
    let codes = codemap_from_keymap_output(b"keycode 36 = Return\n").unwrap();
    let decls = vec![(
        b"M-Return".to_vec(),
        Action::SpawnExternal { program: b"firefox".to_vec() },
    )];
    let mut d = Dispatcher::new(build_binding_table(decls, &codes).unwrap());
    match d.handle(&Event::KeyPress { mask: MASK_SUPER, code: 36 }) {
        Directive::Spawn { program, arguments } => {
            assert_eq!(program.as_slice(), b"firefox");
            assert!(arguments.is_empty());
        },
        other => panic!("expected a spawn, got {:?}", other),
    }
}

#[test]
fn grab_list_matches_table_keys() {
    let d = dispatcher();
    assert_eq!(
        d.table().keys(),
        vec![
            KeyCode { mask: MASK_SUPER, code: 36 },
            KeyCode { mask: MASK_SUPER, code: 9 },
        ]
    );
}
