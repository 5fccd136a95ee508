use vstd::prelude::*;

use crate::bytes::{
    all_digits, dec_val, parse_u8_dec, split_byte, split_on, split_ws, split_ws_bytes, views_of,
    bytes_eq,
};

verus! {

/// Mapping from symbolic key name to raw key code, built once from the
/// keymap source. Entries are kept in the order they were registered and a
/// name registered more than once takes its last occurrence, with no merging.
#[derive(Debug)]
pub struct CodeMap {
    pairs: Vec<(Vec<u8>, u8)>,
}

impl View for CodeMap {
    type V = Seq<(Seq<u8>, u8)>;

    closed spec fn view(&self) -> Seq<(Seq<u8>, u8)> {
        self.pairs@.map_values(|p: (Vec<u8>, u8)| (p.0@, p.1))
    }
}

/// The code registered for `name` among `entries`, taking the last
/// occurrence when a name was registered more than once.
pub open spec fn lookup(entries: Seq<(Seq<u8>, u8)>, name: Seq<u8>) -> Option<u8>
    decreases entries.len(),
{
    if entries.len() == 0 {
        None
    } else if entries.last().0 == name {
        Some(entries.last().1)
    } else {
        lookup(entries.drop_last(), name)
    }
}

/// Registering a name again makes it point to the new code, and leaves
/// what every other name points to untouched: the last occurrence wins,
/// with no merging of duplicate entries.
pub proof fn lemma_last_registration_wins(
    entries: Seq<(Seq<u8>, u8)>,
    name: Seq<u8>,
    code: u8,
    other: Seq<u8>,
)
    ensures
        lookup(entries.push((name, code)), name) == Some(code),
        other != name ==> lookup(entries.push((name, code)), other) == lookup(entries, other),
{
    assert(entries.push((name, code)).last() == (name, code));
    assert(entries.push((name, code)).drop_last() =~= entries);
}

impl CodeMap {
    pub fn new() -> (r: CodeMap)
        ensures
            r@ == Seq::<(Seq<u8>, u8)>::empty(),
    {
        let r = CodeMap { pairs: Vec::new() };
        proof {
            assert(r@ =~= Seq::<(Seq<u8>, u8)>::empty());
        }
        r
    }

    /// Registers `name` as pointing to `code`, after every earlier entry,
    /// so that it wins over any earlier registration of the same name.
    pub fn insert(&mut self, name: Vec<u8>, code: u8)
        ensures
            final(self)@ == old(self)@.push((name@, code)),
    {
        let ghost before = self@;
        let ghost n = name@;
        self.pairs.push((name, code));
        proof {
            assert(self@ =~= before.push((n, code)));
        }
    }

    /// The code bound to `name`, if any; the last registration wins.
    pub fn get(&self, name: &[u8]) -> (r: Option<u8>)
        ensures
            r == lookup(self@, name@),
    {
        let mut i: usize = self.pairs.len();
        proof {
            assert(self@.take(i as int) =~= self@);
        }
        while i > 0
            invariant
                i <= self.pairs@.len(),
                lookup(self@, name@) == lookup(self@.take(i as int), name@),
            decreases i,
        {
            let j = i - 1;
            proof {
                assert(self@.take(i as int).last() == self@[j as int]);
                assert(self@[j as int] == (self.pairs@[j as int].0@, self.pairs@[j as int].1));
            }
            if bytes_eq(self.pairs[j].0.as_slice(), name) {
                return Some(self.pairs[j].1);
            }
            proof {
                assert(self@.take(i as int).drop_last() =~= self@.take(j as int));
            }
            i = j;
        }
        proof {
            assert(self@.take(0) =~= Seq::<(Seq<u8>, u8)>::empty());
        }
        None
    }

    pub fn len(&self) -> (r: usize)
        ensures
            r == self@.len(),
    {
        self.pairs.len()
    }
}

/// A keymap source line that could not be read; fatal to the caller.
#[derive(Debug, Clone, Copy, PartialEq, Eq, Structural)]
pub enum KeymapError {
    /// The line has no second word to read a key code from.
    MissingCode { line: usize },
    /// The line's second word is not a decimal number that fits in a byte.
    BadCode { line: usize },
}

pub open spec fn err_line(e: KeymapError) -> usize {
    match e {
        KeymapError::MissingCode { line } => line,
        KeymapError::BadCode { line } => line,
    }
}

/// The lines of the keymap text: newline-separated, with the empty segment
/// after a final newline not counted as a line.
pub open spec fn keymap_lines(s: Seq<u8>) -> Seq<Seq<u8>> {
    let ls = split_on(s, 10);
    if ls.len() > 0 && ls.last().len() == 0 {
        ls.drop_last()
    } else {
        ls
    }
}

/// A line reads `keycode <N> = <name> ...`: its second word must be a
/// decimal key code that fits in a byte. Nothing more is checked; the
/// words around the code are not inspected.
pub open spec fn line_ok(l: Seq<u8>) -> bool {
    let ws = split_ws(l);
    ws.len() >= 2 && ws[1].len() > 0 && all_digits(ws[1]) && dec_val(ws[1]) <= 255
}

pub open spec fn line_code(l: Seq<u8>) -> u8 {
    dec_val(split_ws(l)[1]) as u8
}

/// The entries a line contributes: every word after the third, each bound
/// to the line's key code.
pub open spec fn line_entries(l: Seq<u8>) -> Seq<(Seq<u8>, u8)> {
    let ws = split_ws(l);
    if ws.len() <= 3 {
        Seq::empty()
    } else {
        ws.skip(3).map_values(|n: Seq<u8>| (n, line_code(l)))
    }
}

/// All entries of all lines, in line order.
pub open spec fn keymap_entries(lines: Seq<Seq<u8>>) -> Seq<(Seq<u8>, u8)>
    decreases lines.len(),
{
    if lines.len() == 0 {
        Seq::empty()
    } else {
        keymap_entries(lines.drop_last()) + line_entries(lines.last())
    }
}

pub open spec fn all_lines_ok(lines: Seq<Seq<u8>>) -> bool {
    forall|i: int| 0 <= i < lines.len() ==> line_ok(#[trigger] lines[i])
}

/// Reads the text of a keymap dump into a `CodeMap`.
///
/// Each line `keycode <N> = <name> ...` registers every name after the `=`
/// as pointing to code `N`, in order, so a name listed on a later line wins.
/// The first line whose code cannot be read is reported instead, and the
/// caller treats that as fatal.
pub fn codemap_from_keymap_output(out: &[u8]) -> (r: Result<CodeMap, KeymapError>)
    ensures
        ({
            let lines = keymap_lines(out@);
            &&& (r is Ok <==> all_lines_ok(lines))
            &&& (r matches Ok(m) ==> m@ == keymap_entries(lines))
            &&& (r matches Err(e) ==> {
                let i = err_line(e) as int;
                &&& 0 <= i < lines.len()
                &&& !line_ok(lines[i])
                &&& (forall|j: int| 0 <= j < i ==> line_ok(#[trigger] lines[j]))
                &&& (e is MissingCode <==> split_ws(lines[i]).len() < 2)
            })
        }),
{
    let ghost lines_spec = keymap_lines(out@);
    let mut lines = split_byte(out, 10);
    if lines.len() > 0 && lines[lines.len() - 1].len() == 0 {
        let ghost before = lines@;
        lines.pop();
        proof {
            assert(views_of(lines@) =~= views_of(before).drop_last());
            assert(views_of(lines@) == lines_spec);
        }
    } else {
        proof {
            assert(views_of(lines@) == lines_spec);
        }
    }
    let mut m = CodeMap::new();
    let mut i: usize = 0;
    proof {
        assert(lines_spec.take(0) =~= Seq::<Seq<u8>>::empty());
    }
    while i < lines.len()
        invariant
            lines_spec == keymap_lines(out@),
            views_of(lines@) == lines_spec,
            i <= lines@.len(),
            forall|j: int| 0 <= j < i ==> line_ok(#[trigger] lines_spec[j]),
            m@ == keymap_entries(lines_spec.take(i as int)),
        decreases lines@.len() - i,
    {
        let ghost l = lines_spec[i as int];
        let ghost ws = split_ws(l);
        let words = split_ws_bytes(lines[i].as_slice());
        proof {
            assert(views_of(words@) == ws);
        }
        if words.len() < 2 {
            proof {
                assert(ws.len() < 2);
                assert(!line_ok(lines_spec[i as int]));
                assert(!all_lines_ok(lines_spec));
            }
            return Err(KeymapError::MissingCode { line: i });
        }
        let code = match parse_u8_dec(words[1].as_slice()) {
            Some(c) => c,
            None => {
                proof {
                    assert(words@[1]@ == ws[1]);
                    assert(!(ws[1].len() > 0 && all_digits(ws[1]) && dec_val(ws[1]) <= 255));
                    assert(!line_ok(lines_spec[i as int]));
                    assert(!all_lines_ok(lines_spec));
                    assert(ws.len() >= 2);
                }
                return Err(KeymapError::BadCode { line: i });
            },
        };
        proof {
            assert(words@[1]@ == ws[1]);
            assert(line_ok(l));
            assert(code == line_code(l));
        }
        let mut k: usize = 3;
        proof {
            if ws.len() > 3 {
                assert(line_entries(l).take(0) =~= Seq::<(Seq<u8>, u8)>::empty());
            }
            assert(m@ =~= keymap_entries(lines_spec.take(i as int)) + line_entries(l).take(
                k as int - 3,
            ));
        }
        while k < words.len()
            invariant
                views_of(words@) == ws,
                split_ws(l) == ws,
                line_ok(l),
                code == line_code(l),
                3 <= k,
                k <= words@.len() || k == 3,
                m@ == keymap_entries(lines_spec.take(i as int)) + line_entries(l).take(
                    k as int - 3,
                ),
            decreases words@.len() - k,
        {
            let name = words[k].clone();
            proof {
                assert(name@ =~= words@[k as int]@);
                assert(line_entries(l)[k as int - 3] == (ws[k as int], line_code(l)));
            }
            m.insert(name, code);
            proof {
                assert(line_entries(l).take(k as int - 3 + 1) =~= line_entries(l).take(
                    k as int - 3,
                ).push((ws[k as int], line_code(l))));
                assert(m@ =~= keymap_entries(lines_spec.take(i as int)) + line_entries(l).take(
                    k as int - 3 + 1,
                ));
            }
            k += 1;
        }
        proof {
            assert(line_entries(l).take(k as int - 3) =~= line_entries(l));
            assert(lines_spec.take(i as int + 1).drop_last() =~= lines_spec.take(i as int));
            assert(lines_spec.take(i as int + 1).last() == l);
            assert(keymap_entries(lines_spec.take(i as int + 1)) == keymap_entries(
                lines_spec.take(i as int),
            ) + line_entries(l));
        }
        i += 1;
    }
    proof {
        assert(lines_spec.take(i as int) =~= lines_spec);
    }
    Ok(m)
}

} // verus!
