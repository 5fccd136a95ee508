use vstd::prelude::*;

use crate::bindings::{
    all_resolve, build_binding_table, decls_view, spec_table, Action, ActionView, BindError,
    BindingTable, MethodId,
};
use crate::codemap::CodeMap;
use crate::keys::{spec_parse, KeyCode, ParseError};

verus! {

/// The stock declaration list, in the order declared:
/// `M-semicolon` starts the browser, `M-Return` starts the terminal, and
/// `M-S-Escape` invokes the internal kill method. The byte sequences
/// spell those pattern and program names in ASCII.
pub open spec fn default_decls() -> Seq<(Seq<u8>, ActionView)> {
    seq![
        (
            seq![77u8, 45, 115, 101, 109, 105, 99, 111, 108, 111, 110],
            ActionView::SpawnExternal { program: seq![102u8, 105, 114, 101, 102, 111, 120] },
        ),
        (
            seq![77u8, 45, 82, 101, 116, 117, 114, 110],
            ActionView::SpawnExternal {
                program: seq![97u8, 108, 97, 99, 114, 105, 116, 116, 121],
            },
        ),
        (
            seq![77u8, 45, 83, 45, 69, 115, 99, 97, 112, 101],
            ActionView::InvokeInternal { method: MethodId::Kill, argument: None },
        ),
    ]
}

fn byte_vec<const N: usize>(a: [u8; N]) -> (r: Vec<u8>)
    ensures
        r@ == a@,
{
    let mut v: Vec<u8> = Vec::new();
    let mut i: usize = 0;
    while i < N
        invariant
            i <= N,
            N == a@.len(),
            v@ == a@.take(i as int),
        decreases N - i,
    {
        v.push(a[i]);
        proof {
            assert(a@.take(i as int + 1) =~= a@.take(i as int).push(a@[i as int]));
        }
        i += 1;
    }
    proof {
        assert(a@.take(N as int) =~= a@);
    }
    v
}

/// Builds the binding table of the stock configuration against `codes`,
/// all or nothing: the first stock pattern that does not resolve is
/// reported instead, and the caller treats that as fatal.
pub fn key_bindings(codes: &CodeMap) -> (r: Result<BindingTable, BindError>)
    ensures
        r is Ok <==> all_resolve(default_decls(), codes@),
        r matches Ok(t) ==> t@ == spec_table(default_decls(), codes@),
        r matches Err(e) ==> {
            &&& 0 <= (e.index as int) < default_decls().len()
            &&& spec_parse(default_decls()[e.index as int].0, codes@) == Err::<
                KeyCode,
                ParseError,
            >(e.cause)
            &&& forall|j: int|
                0 <= j < e.index ==> spec_parse((#[trigger] default_decls()[j]).0, codes@) is Ok
        },
{
    let mut decls: Vec<(Vec<u8>, Action)> = Vec::new();
    decls.push(
        (
            byte_vec([77u8, 45, 115, 101, 109, 105, 99, 111, 108, 111, 110]),
            Action::SpawnExternal { program: byte_vec([102u8, 105, 114, 101, 102, 111, 120]) },
        ),
    );
    decls.push(
        (
            byte_vec([77u8, 45, 82, 101, 116, 117, 114, 110]),
            Action::SpawnExternal {
                program: byte_vec([97u8, 108, 97, 99, 114, 105, 116, 116, 121]),
            },
        ),
    );
    decls.push(
        (
            byte_vec([77u8, 45, 83, 45, 69, 115, 99, 97, 112, 101]),
            Action::InvokeInternal { method: MethodId::Kill, argument: None },
        ),
    );
    proof {
        assert(decls_view(decls@) =~~= default_decls());
    }
    build_binding_table(decls, codes)
}

} // verus!
