use vstd::prelude::*;

use crate::bindings::{table_lookup, Action, ActionView, BindingTable};
use crate::bytes::{split_ws, split_ws_bytes, views_of};
use crate::keys::KeyCode;

verus! {

/// A server event as the dispatch loop sees it: a key press with the
/// state and detail fields the server reported, or anything else, which
/// is discarded.
#[derive(Debug, Clone, Copy, PartialEq, Eq, Structural)]
pub enum Event {
    KeyPress { mask: u16, code: u8 },
    Other,
}

/// What the caller must do for one event. The dispatcher only decides;
/// the caller performs the effect, flushes, and comes back with the next
/// event.
#[derive(Debug)]
pub enum Directive {
    /// Start `program` with `arguments` as a detached process and discard
    /// the handle. If starting fails the caller logs a warning and goes
    /// on unaffected.
    Spawn { program: Vec<u8>, arguments: Vec<Vec<u8>> },
    /// Flush pending requests and exit the process cleanly.
    Exit,
    /// Nothing to do.
    Ignore,
}

/// The mathematical value of a `Directive`.
pub enum DirectiveView {
    Spawn { program: Seq<u8>, arguments: Seq<Seq<u8>> },
    Exit,
    Ignore,
}

impl View for Directive {
    type V = DirectiveView;

    open spec fn view(&self) -> DirectiveView {
        match self {
            Directive::Spawn { program, arguments } => DirectiveView::Spawn {
                program: program@,
                arguments: views_of(arguments@),
            },
            Directive::Exit => DirectiveView::Exit,
            Directive::Ignore => DirectiveView::Ignore,
        }
    }
}

/// What performing an action means: an external command line splits on
/// whitespace into program and arguments, and one with no words at all
/// starts nothing; the only internal method is kill, which ends the run.
pub open spec fn action_directive(a: ActionView) -> DirectiveView {
    match a {
        ActionView::SpawnExternal { program } => {
            let ws = split_ws(program);
            if ws.len() == 0 {
                DirectiveView::Ignore
            } else {
                DirectiveView::Spawn { program: ws[0], arguments: ws.skip(1) }
            }
        },
        ActionView::InvokeInternal { method: _, argument: _ } => DirectiveView::Exit,
    }
}

/// What one event dispatches to against `table` while `active` holds:
/// only a key press is considered, and only when its exact mask and code
/// equal a bound identity; everything else is a silent no-op, as is any
/// event once the dispatcher has stopped.
pub open spec fn spec_directive(
    table: Seq<(KeyCode, ActionView)>,
    active: bool,
    ev: Event,
) -> DirectiveView {
    if !active {
        DirectiveView::Ignore
    } else {
        match ev {
            Event::KeyPress { mask, code } => match table_lookup(table, KeyCode { mask, code }) {
                Some(a) => action_directive(a),
                None => DirectiveView::Ignore,
            },
            Event::Other => DirectiveView::Ignore,
        }
    }
}

/// Whether the dispatcher still runs after handling `ev`: only the kill
/// invocation ever stops it.
pub open spec fn spec_active_after(
    table: Seq<(KeyCode, ActionView)>,
    active: bool,
    ev: Event,
) -> bool {
    active && !(spec_directive(table, active, ev) is Exit)
}

/// The dispatch loop's state: the binding table, fixed at construction
/// and never changed afterwards, and whether the loop still runs. A
/// two-state machine: it waits for events while active, and ignores every
/// event after the kill action.
pub struct Dispatcher {
    table: BindingTable,
    active: bool,
}

impl Dispatcher {
    pub closed spec fn table_view(&self) -> Seq<(KeyCode, ActionView)> {
        self.table@
    }

    pub closed spec fn is_active(&self) -> bool {
        self.active
    }

    pub fn new(table: BindingTable) -> (d: Dispatcher)
        ensures
            d.table_view() == table@,
            d.is_active(),
    {
        Dispatcher { table, active: true }
    }

    /// A borrow of the table, for registering grabs before the loop runs.
    pub fn table(&self) -> (t: &BindingTable)
        ensures
            t@ == self.table_view(),
    {
        &self.table
    }

    /// Decides what `ev` dispatches to and advances the state. The table
    /// is left exactly as it was, whatever comes in.
    pub fn handle(&mut self, ev: &Event) -> (r: Directive)
        ensures
            r@ == spec_directive(old(self).table_view(), old(self).is_active(), *ev),
            final(self).is_active() == spec_active_after(
                old(self).table_view(),
                old(self).is_active(),
                *ev,
            ),
            final(self).table_view() == old(self).table_view(),
    {
        if !self.active {
            return Directive::Ignore;
        }
        match *ev {
            Event::KeyPress { mask, code } => {
                match self.table.get(KeyCode { mask, code }) {
                    Some(a) => match a {
                        Action::SpawnExternal { program } => {
                            let ghost ws = split_ws(program@);
                            let mut words = split_ws_bytes(program.as_slice());
                            if words.len() == 0 {
                                Directive::Ignore
                            } else {
                                let ghost words0 = words@;
                                let head = words.remove(0);
                                proof {
                                    assert(head@ == ws[0]);
                                    assert(views_of(words@) =~= ws.skip(1));
                                }
                                Directive::Spawn { program: head, arguments: words }
                            }
                        },
                        Action::InvokeInternal { method: _, argument: _ } => {
                            self.active = false;
                            Directive::Exit
                        },
                    },
                    None => Directive::Ignore,
                }
            },
            Event::Other => Directive::Ignore,
        }
    }
}

/// The directives a whole run of events produces from a given state, in
/// order.
pub open spec fn spec_run(
    table: Seq<(KeyCode, ActionView)>,
    active: bool,
    evs: Seq<Event>,
) -> Seq<DirectiveView>
    decreases evs.len(),
{
    if evs.len() == 0 {
        Seq::empty()
    } else {
        seq![spec_directive(table, active, evs[0])] + spec_run(
            table,
            spec_active_after(table, active, evs[0]),
            evs.skip(1),
        )
    }
}

/// A stopped dispatcher processes nothing: every event of a run from the
/// inactive state yields no directive at all.
pub proof fn lemma_inactive_ignores_all(table: Seq<(KeyCode, ActionView)>, evs: Seq<Event>)
    ensures
        spec_run(table, false, evs).len() == evs.len(),
        forall|i: int|
            0 <= i < evs.len() ==> spec_run(table, false, evs)[i] == DirectiveView::Ignore,
    decreases evs.len(),
{
    if evs.len() > 0 {
        lemma_inactive_ignores_all(table, evs.skip(1));
        let r = spec_run(table, false, evs);
        assert forall|i: int| 0 <= i < evs.len() implies r[i] == DirectiveView::Ignore by {
            if i > 0 {
                assert(r[i] == spec_run(table, false, evs.skip(1))[i - 1]);
            }
        }
    }
}

/// The kill action ends the run: a key press bound to the internal
/// invocation stops the dispatcher, and no event received afterwards is
/// processed, however many follow.
pub proof fn lemma_kill_terminates(
    table: Seq<(KeyCode, ActionView)>,
    mask: u16,
    code: u8,
    evs: Seq<Event>,
)
    requires
        table_lookup(table, KeyCode { mask, code }) matches Some(a) && a is InvokeInternal,
    ensures
        spec_directive(table, true, Event::KeyPress { mask, code }) == DirectiveView::Exit,
        !spec_active_after(table, true, Event::KeyPress { mask, code }),
        forall|i: int|
            0 <= i < evs.len() ==> spec_run(table, false, evs)[i] == DirectiveView::Ignore,
{
    lemma_inactive_ignores_all(table, evs);
}

/// Dispatch is exact-match: against a table whose only entry binds `k`,
/// a key press with exactly `k`'s mask and code dispatches the bound
/// action, and one with any other mask or code dispatches nothing, even
/// with the same raw code.
pub proof fn lemma_dispatch_exact_match(k: KeyCode, a: ActionView, mask: u16, code: u8)
    ensures
        (KeyCode { mask, code }) == k ==> spec_directive(
            seq![(k, a)],
            true,
            (Event::KeyPress { mask, code }),
        ) == action_directive(a),
        (KeyCode { mask, code }) != k ==> spec_directive(
            seq![(k, a)],
            true,
            (Event::KeyPress { mask, code }),
        ) == DirectiveView::Ignore,
{
    let t = seq![(k, a)];
    assert(t.last() == (k, a));
    assert(t.drop_last() =~= Seq::<(KeyCode, ActionView)>::empty());
    assert(table_lookup(Seq::<(KeyCode, ActionView)>::empty(), KeyCode { mask, code }) is None);
    if (KeyCode { mask, code }) != k {
        assert(table_lookup(t, KeyCode { mask, code }) == table_lookup(
            t.drop_last(),
            KeyCode { mask, code },
        ));
    }
}

/// An event that does not dispatch the kill invocation leaves the run
/// going: the dispatcher stays active and every later event is dispatched
/// exactly as it would have been before, against the unchanged table.
pub proof fn lemma_non_kill_keeps_running(table: Seq<(KeyCode, ActionView)>, ev: Event)
    requires
        !(spec_directive(table, true, ev) is Exit),
    ensures
        spec_active_after(table, true, ev),
        forall|e2: Event|
            spec_directive(table, spec_active_after(table, true, ev), e2) == spec_directive(
                table,
                true,
                e2,
            ),
{
}

} // verus!
