use vstd::prelude::*;

use crate::bytes::lemma_contains_split;
use crate::codemap::CodeMap;
use crate::keys::{parse_key_binding, spec_parse, KeyCode, ParseError};

verus! {

/// Identifier of a window-manager method an internal action invokes.
#[derive(Debug, Clone, Copy, PartialEq, Eq, Structural)]
pub enum MethodId {
    /// Terminate the run loop and exit the process cleanly.
    Kill,
}

/// A bound action: start a detached external program, or invoke a named
/// method on the window-manager state. Pure data; the dispatcher decides
/// what it means and the caller gives it effect.
#[derive(Debug)]
pub enum Action {
    /// `program` is a whole command line, split on whitespace at dispatch
    /// into the program name and its arguments.
    SpawnExternal { program: Vec<u8> },
    InvokeInternal { method: MethodId, argument: Option<i64> },
}

/// The mathematical value of an `Action`.
pub enum ActionView {
    SpawnExternal { program: Seq<u8> },
    InvokeInternal { method: MethodId, argument: Option<i64> },
}

impl View for Action {
    type V = ActionView;

    open spec fn view(&self) -> ActionView {
        match self {
            Action::SpawnExternal { program } => ActionView::SpawnExternal { program: program@ },
            Action::InvokeInternal { method, argument } => ActionView::InvokeInternal {
                method: *method,
                argument: *argument,
            },
        }
    }
}

/// Lookup table from canonical key identity to action, built once from an
/// ordered declaration list and never changed afterwards. Entries keep
/// declaration order; the last entry with a given key is the one in force,
/// so a later declaration overwrites an earlier one.
#[derive(Debug)]
pub struct BindingTable {
    pairs: Vec<(KeyCode, Action)>,
}

impl View for BindingTable {
    type V = Seq<(KeyCode, ActionView)>;

    closed spec fn view(&self) -> Seq<(KeyCode, ActionView)> {
        self.pairs@.map_values(|p: (KeyCode, Action)| (p.0, p.1@))
    }
}

/// The action bound to `k`: that of the last entry with key `k`.
pub open spec fn table_lookup(
    entries: Seq<(KeyCode, ActionView)>,
    k: KeyCode,
) -> Option<ActionView>
    decreases entries.len(),
{
    if entries.len() == 0 {
        None
    } else if entries.last().0 == k {
        Some(entries.last().1)
    } else {
        table_lookup(entries.drop_last(), k)
    }
}

/// A later entry overwrites an earlier one with the same key identity,
/// and leaves what every other key is bound to untouched.
pub proof fn lemma_later_entry_overwrites(
    entries: Seq<(KeyCode, ActionView)>,
    k: KeyCode,
    a: ActionView,
    k2: KeyCode,
)
    ensures
        table_lookup(entries.push((k, a)), k) == Some(a),
        k2 != k ==> table_lookup(entries.push((k, a)), k2) == table_lookup(entries, k2),
{
    assert(entries.push((k, a)).last() == (k, a));
    assert(entries.push((k, a)).drop_last() =~= entries);
}

pub open spec fn has_key(entries: Seq<(KeyCode, ActionView)>, k: KeyCode) -> bool {
    exists|i: int| 0 <= i < entries.len() && (#[trigger] entries[i]).0 == k
}

/// The distinct keys of `entries`, each exactly once, in the order of
/// their first occurrence.
pub open spec fn distinct_keys(entries: Seq<(KeyCode, ActionView)>) -> Seq<KeyCode>
    decreases entries.len(),
{
    if entries.len() == 0 {
        Seq::empty()
    } else {
        let front = distinct_keys(entries.drop_last());
        if front.contains(entries.last().0) {
            front
        } else {
            front.push(entries.last().0)
        }
    }
}

proof fn lemma_has_key_split(entries: Seq<(KeyCode, ActionView)>, k: KeyCode)
    requires
        entries.len() > 0,
    ensures
        has_key(entries, k) <==> (has_key(entries.drop_last(), k) || entries.last().0 == k),
{
    let dl = entries.drop_last();
    if has_key(entries, k) {
        let i = choose|i: int| 0 <= i < entries.len() && (#[trigger] entries[i]).0 == k;
        if i < entries.len() - 1 {
            assert(dl[i] == entries[i]);
            assert(has_key(dl, k));
        }
    }
    if has_key(dl, k) {
        let i = choose|i: int| 0 <= i < dl.len() && (#[trigger] dl[i]).0 == k;
        assert(entries[i] == dl[i]);
    }
    if entries.last().0 == k {
        assert((entries[entries.len() - 1]).0 == k);
    }
}

/// The distinct keys are exactly the keys that occur among the entries.
pub proof fn lemma_distinct_keys_membership(entries: Seq<(KeyCode, ActionView)>, k: KeyCode)
    ensures
        distinct_keys(entries).contains(k) <==> has_key(entries, k),
    decreases entries.len(),
{
    if entries.len() > 0 {
        let dl = entries.drop_last();
        let front = distinct_keys(dl);
        lemma_distinct_keys_membership(dl, k);
        lemma_distinct_keys_membership(dl, entries.last().0);
        lemma_has_key_split(entries, k);
        if !front.contains(entries.last().0) {
            lemma_contains_split(front.push(entries.last().0), k);
            assert(front.push(entries.last().0).drop_last() =~= front);
        }
    }
}

/// No key occurs twice among the distinct keys.
pub proof fn lemma_distinct_keys_nodup(entries: Seq<(KeyCode, ActionView)>)
    ensures
        forall|i: int, j: int|
            0 <= i < j < distinct_keys(entries).len() ==> distinct_keys(entries)[i]
                != distinct_keys(entries)[j],
    decreases entries.len(),
{
    if entries.len() > 0 {
        let dl = entries.drop_last();
        let front = distinct_keys(dl);
        lemma_distinct_keys_nodup(dl);
        if !front.contains(entries.last().0) {
            let r = front.push(entries.last().0);
            assert forall|i: int, j: int| 0 <= i < j < r.len() implies r[i] != r[j] by {
                if j < r.len() - 1 {
                    assert(r[i] == front[i] && r[j] == front[j]);
                } else {
                    assert(r[j] == entries.last().0);
                    assert(r[i] == front[i]);
                    if r[i] == r[j] {
                        assert(front.contains(entries.last().0));
                    }
                }
            }
        }
    }
}

fn keycode_vec_contains(v: &Vec<KeyCode>, k: KeyCode) -> (r: bool)
    ensures
        r == v@.contains(k),
{
    let mut i: usize = 0;
    while i < v.len()
        invariant
            i <= v@.len(),
            forall|j: int| 0 <= j < i ==> v@[j] != k,
        decreases v@.len() - i,
    {
        if v[i] == k {
            return true;
        }
        i += 1;
    }
    false
}

impl BindingTable {
    /// The action bound to `k`, if any: later declarations win.
    pub fn get(&self, k: KeyCode) -> (r: Option<&Action>)
        ensures
            match r {
                Some(a) => table_lookup(self@, k) == Some(a@),
                None => table_lookup(self@, k) is None,
            },
    {
        let mut i: usize = self.pairs.len();
        proof {
            assert(self@.take(i as int) =~= self@);
        }
        while i > 0
            invariant
                i <= self.pairs@.len(),
                table_lookup(self@, k) == table_lookup(self@.take(i as int), k),
            decreases i,
        {
            let j = i - 1;
            proof {
                assert(self@.take(i as int).last() == self@[j as int]);
                assert(self@[j as int] == (self.pairs@[j as int].0, self.pairs@[j as int].1@));
            }
            if self.pairs[j].0 == k {
                return Some(&self.pairs[j].1);
            }
            proof {
                assert(self@.take(i as int).drop_last() =~= self@.take(j as int));
            }
            i = j;
        }
        proof {
            assert(self@.take(0) =~= Seq::<(KeyCode, ActionView)>::empty());
        }
        None
    }

    /// The table's key identities, each exactly once, in the order first
    /// bound. This is what the grab manager registers with the server.
    pub fn keys(&self) -> (r: Vec<KeyCode>)
        ensures
            r@ == distinct_keys(self@),
            forall|k: KeyCode| #[trigger] r@.contains(k) <==> has_key(self@, k),
            forall|i: int, j: int| 0 <= i < j < r@.len() ==> r@[i] != r@[j],
    {
        let mut out: Vec<KeyCode> = Vec::new();
        let mut i: usize = 0;
        proof {
            assert(self@.take(0) =~= Seq::<(KeyCode, ActionView)>::empty());
            assert(out@ =~= distinct_keys(self@.take(0)));
        }
        while i < self.pairs.len()
            invariant
                i <= self.pairs@.len(),
                out@ == distinct_keys(self@.take(i as int)),
            decreases self.pairs@.len() - i,
        {
            let ghost pre = self@.take(i as int + 1);
            proof {
                assert(pre.drop_last() =~= self@.take(i as int));
                assert(pre.last() == self@[i as int]);
                assert(self@[i as int] == (self.pairs@[i as int].0, self.pairs@[i as int].1@));
            }
            let k = self.pairs[i].0;
            if !keycode_vec_contains(&out, k) {
                out.push(k);
            }
            i += 1;
        }
        proof {
            assert(self@.take(i as int) =~= self@);
            lemma_distinct_keys_nodup(self@);
            assert forall|k: KeyCode| #[trigger] out@.contains(k) <==> has_key(self@, k) by {
                lemma_distinct_keys_membership(self@, k);
            }
        }
        out
    }

    pub fn len(&self) -> (r: usize)
        ensures
            r == self@.len(),
    {
        self.pairs.len()
    }
}

/// Why a binding table could not be built; the caller treats it as fatal
/// and starts nothing.
#[derive(Debug, Clone, Copy, PartialEq, Eq, Structural)]
pub struct BindError {
    /// Position of the first declaration whose pattern did not resolve.
    pub index: usize,
    pub cause: ParseError,
}

/// The mathematical value of a declaration list.
pub open spec fn decls_view(decls: Seq<(Vec<u8>, Action)>) -> Seq<(Seq<u8>, ActionView)> {
    decls.map_values(|d: (Vec<u8>, Action)| (d.0@, d.1@))
}

pub open spec fn all_resolve(decls: Seq<(Seq<u8>, ActionView)>, codes: Seq<(Seq<u8>, u8)>) -> bool {
    forall|i: int| 0 <= i < decls.len() ==> spec_parse((#[trigger] decls[i]).0, codes) is Ok
}

/// The table a declaration list denotes once every pattern resolves:
/// each pattern replaced by its key identity, in declaration order.
pub open spec fn spec_table(
    decls: Seq<(Seq<u8>, ActionView)>,
    codes: Seq<(Seq<u8>, u8)>,
) -> Seq<(KeyCode, ActionView)> {
    decls.map_values(|d: (Seq<u8>, ActionView)| (spec_parse(d.0, codes)->Ok_0, d.1))
}

/// Resolves an ordered declaration list into a binding table, all or
/// nothing: the first pattern that does not resolve is reported instead,
/// and no table is produced. When two patterns resolve to the same key
/// identity the later declaration wins at lookup.
pub fn build_binding_table(decls: Vec<(Vec<u8>, Action)>, codes: &CodeMap) -> (r: Result<
    BindingTable,
    BindError,
>)
    ensures
        ({
            let ds = decls_view(decls@);
            &&& (r is Ok <==> all_resolve(ds, codes@))
            &&& (r matches Ok(t) ==> t@ == spec_table(ds, codes@))
            &&& (r matches Err(e) ==> {
                &&& 0 <= (e.index as int) < ds.len()
                &&& spec_parse(ds[e.index as int].0, codes@) == Err::<KeyCode, ParseError>(e.cause)
                &&& forall|j: int|
                    0 <= j < e.index ==> spec_parse((#[trigger] ds[j]).0, codes@) is Ok
            })
        }),
{
    let ghost ds = decls_view(decls@);
    let mut rest = decls;
    let mut pairs: Vec<(KeyCode, Action)> = Vec::new();
    let mut i: usize = 0;
    proof {
        assert(rest.len() == rest@.len());
        assert(ds.len() == rest@.len());
        assert(decls_view(rest@) =~~= ds.skip(0));
        assert(pairs@.map_values(|p: (KeyCode, Action)| (p.0, p.1@)) =~= spec_table(
            ds.take(0),
            codes@,
        ));
    }
    while rest.len() > 0
        invariant
            ds == decls_view(decls@),
            ds.len() <= usize::MAX,
            i + rest@.len() == ds.len(),
            decls_view(rest@) == ds.skip(i as int),
            forall|j: int| 0 <= j < i ==> spec_parse((#[trigger] ds[j]).0, codes@) is Ok,
            pairs@.map_values(|p: (KeyCode, Action)| (p.0, p.1@)) == spec_table(
                ds.take(i as int),
                codes@,
            ),
        decreases rest@.len(),
    {
        let ghost rest0 = rest@;
        let (pat, act) = rest.remove(0);
        proof {
            assert(decls_view(rest0)[0] == (pat@, act@));
            assert(ds[i as int] == (pat@, act@));
            assert(decls_view(rest@) =~~= decls_view(rest0).skip(1));
            assert(ds.skip(i as int).skip(1) =~~= ds.skip(i as int + 1));
        }
        match parse_key_binding(pat.as_slice(), codes) {
            Err(cause) => {
                proof {
                    assert(spec_parse(ds[i as int].0, codes@) is Err);
                    assert(!all_resolve(ds, codes@));
                }
                return Err(BindError { index: i, cause });
            },
            Ok(k) => {
                let ghost pairs0 = pairs@;
                pairs.push((k, act));
                proof {
                    assert(spec_table(ds.take(i as int + 1), codes@) =~= spec_table(
                        ds.take(i as int),
                        codes@,
                    ).push((k, act@)));
                    assert(pairs@.map_values(|p: (KeyCode, Action)| (p.0, p.1@)) =~= pairs0
                        .map_values(|p: (KeyCode, Action)| (p.0, p.1@)).push((k, act@)));
                }
                i += 1;
            },
        }
    }
    proof {
        assert(ds.take(i as int) =~= ds);
    }
    Ok(BindingTable { pairs })
}

/// Construction is deterministic: tables built from the same declaration
/// list and the same code map hold the same entries, and so the same keys.
pub proof fn lemma_build_deterministic(
    decls: Seq<(Seq<u8>, ActionView)>,
    codes: Seq<(Seq<u8>, u8)>,
    t1: Seq<(KeyCode, ActionView)>,
    t2: Seq<(KeyCode, ActionView)>,
)
    requires
        t1 == spec_table(decls, codes),
        t2 == spec_table(decls, codes),
    ensures
        t1 == t2,
        distinct_keys(t1) == distinct_keys(t2),
{
}

} // verus!
