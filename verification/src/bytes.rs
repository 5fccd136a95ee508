use vstd::prelude::*;

verus! {

/// Word separators in keymap text: space, tab, and carriage return
/// (so lines ending in CRLF need no special case).
pub open spec fn is_space(b: u8) -> bool {
    b == 32 || b == 9 || b == 13
}

/// ASCII decimal digit.
pub open spec fn is_digit(b: u8) -> bool {
    48 <= b && b <= 57
}

pub open spec fn all_digits(s: Seq<u8>) -> bool {
    forall|i: int| 0 <= i < s.len() ==> is_digit(#[trigger] s[i])
}

/// Value of `s` read as a decimal numeral, most significant digit first.
pub open spec fn dec_val(s: Seq<u8>) -> int
    decreases s.len(),
{
    if s.len() == 0 {
        0
    } else {
        dec_val(s.drop_last()) * 10 + (s.last() - 48)
    }
}

/// Index of the first occurrence of `sep` in `s`, or `s.len()` if there is none.
pub open spec fn first_sep(s: Seq<u8>, sep: u8) -> nat
    decreases s.len(),
{
    if s.len() == 0 {
        0
    } else if s[0] == sep {
        0
    } else {
        1 + first_sep(s.skip(1), sep)
    }
}

/// Index of the first whitespace byte of `s`, or `s.len()` if there is none.
pub open spec fn first_space(s: Seq<u8>) -> nat
    decreases s.len(),
{
    if s.len() == 0 {
        0
    } else if is_space(s[0]) {
        0
    } else {
        1 + first_space(s.skip(1))
    }
}

/// `s` split at every occurrence of `sep`. Empty segments are kept, so the
/// result always holds exactly one more segment than `s` holds separators.
pub open spec fn split_on(s: Seq<u8>, sep: u8) -> Seq<Seq<u8>>
    decreases s.len(),
{
    let i = first_sep(s, sep);
    if i >= s.len() {
        seq![s]
    } else {
        seq![s.take(i as int)] + split_on(s.skip(i as int + 1), sep)
    }
}

/// The whitespace-separated words of `s`, in order: the maximal runs of
/// non-space bytes. The result never holds an empty word.
pub open spec fn split_ws(s: Seq<u8>) -> Seq<Seq<u8>>
    decreases s.len(),
{
    if s.len() == 0 {
        Seq::empty()
    } else if is_space(s[0]) {
        split_ws(s.skip(1))
    } else {
        let i = first_space(s);
        if i >= s.len() {
            seq![s]
        } else {
            seq![s.take(i as int)] + split_ws(s.skip(i as int))
        }
    }
}

/// The views of a sequence of byte vectors.
pub open spec fn views_of(vs: Seq<Vec<u8>>) -> Seq<Seq<u8>> {
    vs.map_values(|v: Vec<u8>| v@)
}

proof fn lemma_first_sep_at(s: Seq<u8>, sep: u8, i: int)
    requires
        0 <= i <= s.len(),
        forall|j: int| 0 <= j < i ==> s[j] != sep,
        i < s.len() ==> s[i] == sep,
    ensures
        first_sep(s, sep) == i,
    decreases i,
{
    if i == 0 {
        if s.len() > 0 {
            assert(s[0] == sep);
        }
    } else {
        assert(s[0] != sep);
        let t = s.skip(1);
        assert forall|j: int| 0 <= j < i - 1 implies t[j] != sep by {
            assert(t[j] == s[j + 1]);
        }
        if i - 1 < t.len() {
            assert(t[i - 1] == s[i]);
        }
        lemma_first_sep_at(t, sep, i - 1);
    }
}

proof fn lemma_first_space_at(s: Seq<u8>, i: int)
    requires
        0 <= i <= s.len(),
        forall|j: int| 0 <= j < i ==> !is_space(s[j]),
        i < s.len() ==> is_space(s[i]),
    ensures
        first_space(s) == i,
    decreases i,
{
    if i == 0 {
        if s.len() > 0 {
            assert(is_space(s[0]));
        }
    } else {
        assert(!is_space(s[0]));
        let t = s.skip(1);
        assert forall|j: int| 0 <= j < i - 1 implies !is_space(t[j]) by {
            assert(t[j] == s[j + 1]);
        }
        if i - 1 < t.len() {
            assert(t[i - 1] == s[i]);
        }
        lemma_first_space_at(t, i - 1);
    }
}

/// `s` split at `sep`, with every segment kept, empty or not.
pub fn split_byte(s: &[u8], sep: u8) -> (r: Vec<Vec<u8>>)
    ensures
        views_of(r@) == split_on(s@, sep),
{
    let mut out: Vec<Vec<u8>> = Vec::new();
    let mut cur: Vec<u8> = Vec::new();
    let mut i: usize = 0;
    proof {
        assert(cur@ + s@.skip(0) =~= s@);
        assert(views_of(out@) + split_on(cur@ + s@.skip(0), sep) =~= split_on(s@, sep));
    }
    while i < s.len()
        invariant
            i <= s@.len(),
            forall|j: int| 0 <= j < cur@.len() ==> cur@[j] != sep,
            split_on(s@, sep) == views_of(out@) + split_on(cur@ + s@.skip(i as int), sep),
        decreases s@.len() - i,
    {
        let ghost cur0 = cur@;
        let ghost out0 = out@;
        let ghost t = cur@ + s@.skip(i as int);
        if s[i] == sep {
            proof {
                assert(t[cur0.len() as int] == s@[i as int]);
                assert forall|j: int| 0 <= j < cur0.len() implies t[j] != sep by {
                    assert(t[j] == cur0[j]);
                }
                lemma_first_sep_at(t, sep, cur0.len() as int);
                assert(t.take(cur0.len() as int) =~= cur0);
                assert(t.skip(cur0.len() as int + 1) =~= s@.skip(i as int + 1));
                assert(split_on(t, sep) == seq![cur0] + split_on(s@.skip(i as int + 1), sep));
            }
            out.push(cur);
            cur = Vec::new();
            proof {
                assert(views_of(out@) =~= views_of(out0) + seq![cur0]);
                assert(cur@ + s@.skip(i as int + 1) =~= s@.skip(i as int + 1));
                assert(views_of(out@) + split_on(cur@ + s@.skip(i as int + 1), sep)
                    =~= views_of(out0) + split_on(t, sep));
            }
        } else {
            cur.push(s[i]);
            proof {
                assert(cur@ + s@.skip(i as int + 1) =~= t);
            }
        }
        i += 1;
    }
    let ghost cur0 = cur@;
    let ghost out0 = out@;
    proof {
        assert(cur@ + s@.skip(i as int) =~= cur@);
        lemma_first_sep_at(cur@, sep, cur@.len() as int);
        assert(split_on(cur@, sep) == seq![cur0]);
    }
    out.push(cur);
    proof {
        assert(views_of(out@) =~= views_of(out0) + seq![cur0]);
        assert(views_of(out@) =~= split_on(s@, sep));
    }
    out
}

/// The whitespace-separated words of `s`.
pub fn split_ws_bytes(s: &[u8]) -> (r: Vec<Vec<u8>>)
    ensures
        views_of(r@) == split_ws(s@),
{
    let mut out: Vec<Vec<u8>> = Vec::new();
    let mut cur: Vec<u8> = Vec::new();
    let mut i: usize = 0;
    proof {
        assert(cur@ + s@.skip(0) =~= s@);
        assert(views_of(out@) + split_ws(cur@ + s@.skip(0)) =~= split_ws(s@));
    }
    while i < s.len()
        invariant
            i <= s@.len(),
            forall|j: int| 0 <= j < cur@.len() ==> !is_space(cur@[j]),
            split_ws(s@) == views_of(out@) + split_ws(cur@ + s@.skip(i as int)),
        decreases s@.len() - i,
    {
        let ghost cur0 = cur@;
        let ghost out0 = out@;
        let ghost t = cur@ + s@.skip(i as int);
        let b = s[i];
        proof {
            assert(t[cur0.len() as int] == s@[i as int]);
            assert(s@.skip(i as int).skip(1) =~= s@.skip(i as int + 1));
        }
        if b == 32 || b == 9 || b == 13 {
            if cur.len() > 0 {
                proof {
                    assert forall|j: int| 0 <= j < cur0.len() implies !is_space(t[j]) by {
                        assert(t[j] == cur0[j]);
                    }
                    lemma_first_space_at(t, cur0.len() as int);
                    assert(t.take(cur0.len() as int) =~= cur0);
                    assert(t.skip(cur0.len() as int) =~= s@.skip(i as int));
                    assert(split_ws(t) == seq![cur0] + split_ws(s@.skip(i as int)));
                    assert(split_ws(s@.skip(i as int)) == split_ws(s@.skip(i as int + 1)));
                }
                out.push(cur);
                cur = Vec::new();
                proof {
                    assert(views_of(out@) =~= views_of(out0) + seq![cur0]);
                    assert(cur@ + s@.skip(i as int + 1) =~= s@.skip(i as int + 1));
                    assert(views_of(out@) + split_ws(cur@ + s@.skip(i as int + 1))
                        =~= views_of(out0) + split_ws(t));
                }
            } else {
                proof {
                    assert(t =~= s@.skip(i as int));
                    assert(split_ws(t) == split_ws(s@.skip(i as int + 1)));
                    assert(cur@ + s@.skip(i as int + 1) =~= s@.skip(i as int + 1));
                }
            }
        } else {
            cur.push(b);
            proof {
                assert(cur@ + s@.skip(i as int + 1) =~= t);
            }
        }
        i += 1;
    }
    let ghost cur0 = cur@;
    let ghost out0 = out@;
    proof {
        assert(cur@ + s@.skip(i as int) =~= cur@);
    }
    if cur.len() > 0 {
        proof {
            lemma_first_space_at(cur@, cur@.len() as int);
            assert(split_ws(cur@) == seq![cur0]);
        }
        out.push(cur);
        proof {
            assert(views_of(out@) =~= views_of(out0) + seq![cur0]);
            assert(views_of(out@) =~= split_ws(s@));
        }
    } else {
        proof {
            assert(split_ws(cur@) =~= Seq::<Seq<u8>>::empty());
            assert(views_of(out@) =~= split_ws(s@));
        }
    }
    out
}

/// Membership in a non-empty sequence splits into membership in the front
/// or equality with the last element.
pub proof fn lemma_contains_split<T>(s: Seq<T>, x: T)
    requires
        s.len() > 0,
    ensures
        s.contains(x) <==> (s.drop_last().contains(x) || s.last() == x),
{
    if s.contains(x) {
        let i = choose|i: int| 0 <= i < s.len() && s[i] == x;
        if i < s.len() - 1 {
            assert(s.drop_last()[i] == x);
            assert(s.drop_last().contains(x));
        }
    }
    if s.drop_last().contains(x) {
        let i = choose|i: int| 0 <= i < s.drop_last().len() && s.drop_last()[i] == x;
        assert(s[i] == x);
    }
    if s.last() == x {
        assert(s[s.len() - 1] == x);
    }
}

proof fn lemma_dec_val_nonneg(s: Seq<u8>)
    requires
        all_digits(s),
    ensures
        dec_val(s) >= 0,
    decreases s.len(),
{
    if s.len() > 0 {
        assert(is_digit(s[s.len() - 1]));
        lemma_dec_val_nonneg(s.drop_last());
    }
}

proof fn lemma_dec_val_prefix(s: Seq<u8>, i: int)
    requires
        all_digits(s),
        0 <= i <= s.len(),
    ensures
        dec_val(s.take(i)) <= dec_val(s),
    decreases s.len() - i,
{
    if i == s.len() {
        assert(s.take(i) =~= s);
    } else {
        let a = s.take(i);
        let b = s.take(i + 1);
        assert(b.drop_last() =~= a);
        assert(b.last() == s[i]);
        assert(is_digit(s[i]));
        assert forall|j: int| 0 <= j < a.len() implies is_digit(#[trigger] a[j]) by {
            assert(a[j] == s[j]);
        }
        lemma_dec_val_nonneg(a);
        assert(dec_val(b) == dec_val(a) * 10 + (s[i] - 48));
        lemma_dec_val_prefix(s, i + 1);
    }
}

/// Reads `w` as an unsigned decimal numeral that must fit in a byte.
/// Returns the value exactly when `w` is non-empty, made of digits alone,
/// and no greater than 255.
pub fn parse_u8_dec(w: &[u8]) -> (r: Option<u8>)
    ensures
        r is Some <==> (w@.len() > 0 && all_digits(w@) && dec_val(w@) <= 255),
        r matches Some(v) ==> v as int == dec_val(w@),
{
    if w.len() == 0 {
        return None;
    }
    let mut i: usize = 0;
    let mut acc: u16 = 0;
    while i < w.len()
        invariant
            i <= w@.len(),
            all_digits(w@.take(i as int)),
            acc as int == dec_val(w@.take(i as int)),
            acc <= 255,
        decreases w@.len() - i,
    {
        let b = w[i];
        if b < 48 || b > 57 {
            assert(!is_digit(w@[i as int]));
            return None;
        }
        proof {
            assert(w@.take(i as int + 1).drop_last() =~= w@.take(i as int));
            assert(w@.take(i as int + 1).last() == w@[i as int]);
            assert forall|j: int| 0 <= j < i + 1 implies is_digit(#[trigger] w@.take(
                i as int + 1,
            )[j]) by {
                assert(w@.take(i as int + 1)[j] == w@[j]);
            }
        }
        let d = (b - 48) as u16;
        let next = acc * 10 + d;
        if next > 255 {
            proof {
                if all_digits(w@) {
                    lemma_dec_val_prefix(w@, i as int + 1);
                }
            }
            return None;
        }
        acc = next;
        i += 1;
    }
    proof {
        assert(w@.take(i as int) =~= w@);
    }
    Some(acc as u8)
}

/// Byte-for-byte equality of two slices.
pub fn bytes_eq(a: &[u8], b: &[u8]) -> (r: bool)
    ensures
        r == (a@ == b@),
{
    if a.len() != b.len() {
        return false;
    }
    let mut i: usize = 0;
    while i < a.len()
        invariant
            i <= a@.len(),
            a@.len() == b@.len(),
            forall|j: int| 0 <= j < i ==> a@[j] == b@[j],
        decreases a@.len() - i,
    {
        if a[i] != b[i] {
            return false;
        }
        i += 1;
    }
    proof {
        assert(a@ =~= b@);
    }
    true
}

} // verus!
