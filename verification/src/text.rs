//! Scalar scanner: walking a `&str` one Unicode scalar at a time by byte offset.
//!
//! A position in a string is a byte offset that falls on a scalar boundary.
//! Everything above this module reasons about the scalars that remain after a
//! position ([`rest_at`]) and never about bytes.

use vstd::prelude::*;
use vstd::string::*;
use vstd::utf8::*;

verus! {

/// Number of bytes that the UTF-8 encoding of `s` occupies.
pub open spec fn byte_len(s: Seq<char>) -> nat {
    encode_utf8(s).len()
}

/// Number of bytes that the UTF-8 encoding of the scalar `c` occupies.
pub open spec fn scalar_width(c: char) -> nat {
    encode_scalar(c as u32).len()
}

/// The byte offset `i` falls on a scalar boundary of `s`: it is the start of
/// `s`, the start of one of its scalars, or its end. For a `&str` that is what
/// `str::is_char_boundary` tests.
pub open spec fn is_boundary(s: Seq<char>, i: int) -> bool {
    i == 0 || is_char_boundary(encode_utf8(s), i)
}

/// The scalars of `s` from byte offset `i` on.
pub open spec fn rest_at(s: Seq<char>, i: int) -> Seq<char> {
    decode_utf8(encode_utf8(s).subrange(i, byte_len(s) as int))
}

/// Starting at byte offset `i` of `s` and stepping over `n` scalars ends at
/// byte offset `j`.
pub open spec fn reaches(s: Seq<char>, i: int, n: int, j: int) -> bool {
    &&& 0 <= n <= rest_at(s, i).len()
    &&& j == i + byte_len(rest_at(s, i).take(n))
    &&& is_boundary(s, j)
    &&& rest_at(s, j) == rest_at(s, i).skip(n)
}

/// Encoding distributes over concatenation.
pub proof fn lemma_encode_concat(a: Seq<char>, b: Seq<char>)
    ensures
        encode_utf8(a + b) == encode_utf8(a) + encode_utf8(b),
        byte_len(a + b) == byte_len(a) + byte_len(b),
    decreases a.len(),
{
    if a.len() == 0 {
        assert(a + b =~= b);
        assert(encode_utf8(a) + encode_utf8(b) =~= encode_utf8(b));
    } else {
        lemma_encode_concat(a.drop_first(), b);
        assert((a + b).drop_first() =~= a.drop_first() + b);
        assert(encode_utf8(a + b) =~= encode_utf8(a) + encode_utf8(b));
    }
}

/// Appending one scalar adds its width to the encoded length.
pub proof fn lemma_byte_len_push(a: Seq<char>, c: char)
    ensures
        byte_len(a.push(c)) == byte_len(a) + scalar_width(c),
        1 <= scalar_width(c) <= 4,
{
    lemma_encode_concat(a, seq![c]);
    assert(a.push(c) =~= a + seq![c]);
    reveal_with_fuel(encode_utf8, 2);
    assert(seq![c].drop_first() =~= Seq::<char>::empty());
    assert(encode_utf8(seq![c]) =~= encode_scalar(c as u32));
}

/// Every scalar takes at least one byte.
pub proof fn lemma_byte_len_lower(a: Seq<char>)
    ensures
        a.len() <= byte_len(a),
    decreases a.len(),
{
    if a.len() > 0 {
        lemma_byte_len_lower(a.drop_last());
        lemma_byte_len_push(a.drop_last(), a.last());
        assert(a.drop_last().push(a.last()) =~= a);
    }
}

/// A boundary is what the encoding calls a boundary.
pub proof fn lemma_boundary(s: Seq<char>, i: int)
    requires
        is_boundary(s, i),
    ensures
        is_char_boundary(encode_utf8(s), i),
{
    broadcast use group_utf8_lib;

    is_char_boundary_start_end_of_seq(encode_utf8(s));
}

/// A position lies within the string, and nothing remains exactly at its end.
pub proof fn lemma_boundary_range(s: Seq<char>, i: int)
    requires
        is_boundary(s, i),
    ensures
        0 <= i <= byte_len(s),
        rest_at(s, i).len() == 0 <==> i == byte_len(s),
        encode_utf8(rest_at(s, i)) == encode_utf8(s).subrange(i, byte_len(s) as int),
{
    broadcast use group_utf8_lib;

    let b = encode_utf8(s);
    assert(valid_utf8(b));
    lemma_boundary(s, i);
    let t = b.subrange(i, b.len() as int);
    assert(valid_utf8(t));
    assert(encode_utf8(decode_utf8(t)) == t);
    if rest_at(s, i).len() == 0 {
        assert(encode_utf8(rest_at(s, i)).len() == 0);
    }
}

/// The start of a string is a position, and the whole string remains there.
pub proof fn lemma_rest_start(s: Seq<char>)
    ensures
        is_boundary(s, 0),
        rest_at(s, 0) == s,
        reaches(s, 0, 0, 0),
{
    broadcast use group_utf8_lib;

    let b = encode_utf8(s);
    assert(valid_utf8(b));
    assert(b.subrange(0, b.len() as int) =~= b);
    assert(s.take(0) =~= Seq::<char>::empty());
    assert(s.skip(0) =~= s);
}

/// Every position reaches itself in zero steps.
pub proof fn lemma_reaches_zero(s: Seq<char>, i: int)
    requires
        is_boundary(s, i),
    ensures
        reaches(s, i, 0, i),
{
    let r = rest_at(s, i);
    assert(r.take(0) =~= Seq::<char>::empty());
    assert(r.skip(0) =~= r);
}

/// Stepping over the scalar at a position leads to the next position.
pub proof fn lemma_rest_step(s: Seq<char>, i: int)
    requires
        is_boundary(s, i),
        rest_at(s, i).len() > 0,
    ensures
        i + scalar_width(rest_at(s, i)[0]) <= byte_len(s),
        is_boundary(s, i + scalar_width(rest_at(s, i)[0])),
        rest_at(s, i + scalar_width(rest_at(s, i)[0])) == rest_at(s, i).drop_first(),
{
    broadcast use group_utf8_lib;

    let b = encode_utf8(s);
    let r = rest_at(s, i);
    let w = scalar_width(r[0]) as int;
    let t = b.subrange(i, b.len() as int);
    lemma_boundary_range(s, i);
    assert(encode_utf8(r) == t);
    let tail = encode_utf8(r.drop_first());
    assert(t =~= encode_scalar(r[0] as u32) + tail);
    assert(t.len() == w + tail.len());
    assert(t.subrange(w, t.len() as int) =~= tail);
    assert(b.subrange(i + w, b.len() as int) =~= t.subrange(w, t.len() as int));
    assert(decode_utf8(tail) == r.drop_first());
    if i + w < b.len() {
        assert(valid_utf8(tail));
        assert(tail.len() > 0);
        assert(valid_first_scalar(tail));
        assert(b[i + w] == tail[0]);
        assert(!is_continuation_byte(tail[0]));
        is_char_boundary_iff_not_is_continuation_byte(b, i + w);
    } else {
        is_char_boundary_start_end_of_seq(b);
    }
}

/// One more step from where `n` steps led.
pub proof fn lemma_reaches_next(s: Seq<char>, i: int, n: int, j: int)
    requires
        reaches(s, i, n, j),
        n < rest_at(s, i).len(),
    ensures
        j + scalar_width(rest_at(s, i)[n]) <= byte_len(s),
        rest_at(s, j).len() > 0,
        rest_at(s, j)[0] == rest_at(s, i)[n],
        reaches(s, i, n + 1, j + scalar_width(rest_at(s, i)[n])),
{
    let r = rest_at(s, i);
    lemma_rest_step(s, j);
    assert(r.skip(n).drop_first() =~= r.skip(n + 1));
    assert(r.take(n + 1) =~= r.take(n).push(r[n]));
    lemma_byte_len_push(r.take(n), r[n]);
}

/// Any number of steps within what remains leads to a position.
pub proof fn lemma_reaches_any(s: Seq<char>, i: int, n: int)
    requires
        is_boundary(s, i),
        0 <= n <= rest_at(s, i).len(),
    ensures
        reaches(s, i, n, i + byte_len(rest_at(s, i).take(n))),
    decreases n,
{
    if n == 0 {
        lemma_reaches_zero(s, i);
    } else {
        lemma_reaches_any(s, i, n - 1);
        lemma_reaches_next(s, i, n - 1, i + byte_len(rest_at(s, i).take(n - 1)));
    }
}

/// Positions compose: `m` steps from where `n` steps led are `n + m` steps.
pub proof fn lemma_reaches_compose(s: Seq<char>, i: int, n: int, j: int, m: int, k: int)
    requires
        reaches(s, i, n, j),
        reaches(s, j, m, k),
    ensures
        reaches(s, i, n + m, k),
{
    let r = rest_at(s, i);
    assert(r.skip(n).skip(m) =~= r.skip(n + m));
    assert(r.take(n + m) =~= r.take(n) + r.skip(n).take(m));
    lemma_encode_concat(r.take(n), r.skip(n).take(m));
}

/// Stepping over scalars moves the offset forward by at least as much.
pub proof fn lemma_reaches_forward(s: Seq<char>, i: int, n: int, j: int)
    requires
        reaches(s, i, n, j),
    ensures
        i + n <= j,
{
    lemma_byte_len_lower(rest_at(s, i).take(n));
}

/// One step from where `n` steps led is the step over scalar number `n`.
pub proof fn lemma_reaches_step(s: Seq<char>, i: int, n: int, j: int, k: int)
    requires
        reaches(s, i, n, j),
        reaches(s, j, 1, k),
    ensures
        n < rest_at(s, i).len(),
        rest_at(s, j)[0] == rest_at(s, i)[n],
        reaches(s, i, n + 1, k),
{
    lemma_reaches_compose(s, i, n, j, 1, k);
}

/// What lies between a position and the position `n` steps on are the first
/// `n` scalars that remain.
pub proof fn lemma_between(s: Seq<char>, i: int, n: int, j: int, part: Seq<char>)
    requires
        reaches(s, i, n, j),
        part + rest_at(s, j) == rest_at(s, i),
    ensures
        part == rest_at(s, i).take(n),
{
    let r = rest_at(s, i);
    assert((part + r.skip(n)).len() == r.len());
    assert(part.len() == n);
    assert forall|x: int| 0 <= x < n implies part[x] == r.take(n)[x] by {
        assert((part + r.skip(n))[x] == part[x]);
    }
    assert(part =~= r.take(n));
}

/// Width in bytes of the UTF-8 encoding of `c`, between one and four.
pub fn utf8_width(c: char) -> (w: usize)
    ensures
        w == scalar_width(c),
        1 <= w <= 4,
{
    let u: u32 = c as u32;
    if u < 0x80 {
        1
    } else if u < 0x800 {
        2
    } else if u < 0x10000 {
        3
    } else {
        4
    }
}

/// Length of `s` in bytes.
pub fn byte_length(s: &str) -> (n: usize)
    ensures
        n == byte_len(s@),
{
    broadcast use vstd::slice::group_slice_axioms;

    s.as_bytes().len()
}

/// The scalar that starts at byte offset `i` of `s`, or `None` at its end.
pub fn char_at(s: &str, i: usize) -> (r: Option<char>)
    requires
        is_boundary(s@, i as int),
    ensures
        r == (if rest_at(s@, i as int).len() > 0 {
            Some(rest_at(s@, i as int)[0])
        } else {
            None
        }),
        r is None <==> i == byte_len(s@),
{
    broadcast use {group_utf8_lib, group_string_axioms};

    proof {
        lemma_boundary(s@, i as int);
        lemma_boundary_range(s@, i as int);
    }
    let pair = s.split_at(i);
    let mut it = pair.1.chars();
    assert(pair.1@ == rest_at(s@, i as int)) by {
        assert(decode_utf8(encode_utf8(pair.1@)) == pair.1@);
    }
    it.next()
}

/// The scalar that starts at byte offset `i` of `s` together with the byte
/// offset just behind it, or `None` at the end of `s`.
pub fn next_char(s: &str, i: usize) -> (r: Option<(char, usize)>)
    requires
        is_boundary(s@, i as int),
    ensures
        match r {
            Some((c, j)) => {
                &&& rest_at(s@, i as int).len() > 0
                &&& c == rest_at(s@, i as int)[0]
                &&& j == i + scalar_width(c)
                &&& reaches(s@, i as int, 1, j as int)
            },
            None => rest_at(s@, i as int).len() == 0 && i == byte_len(s@),
        },
{
    match char_at(s, i) {
        None => None,
        Some(c) => {
            let len = byte_length(s);
            proof {
                lemma_reaches_zero(s@, i as int);
                lemma_reaches_next(s@, i as int, 0, i as int);
            }
            Some((c, i + utf8_width(c)))
        },
    }
}

/// The scalars of `s`, one by one.
pub fn to_chars(s: &str) -> (v: Vec<char>)
    ensures
        v@ == s@,
{
    let mut v: Vec<char> = Vec::new();
    let mut j: usize = 0;
    proof {
        lemma_rest_start(s@);
    }
    loop
        invariant
            reaches(s@, 0, v@.len() as int, j as int),
            rest_at(s@, 0) == s@,
            v@ == s@.take(v@.len() as int),
        ensures
            v@ == s@,
        decreases s@.len() - v@.len(),
    {
        match next_char(s, j) {
            None => {
                assert(s@.skip(v@.len() as int).len() == 0);
                assert(s@.take(v@.len() as int) =~= s@);
                break ;
            },
            Some((c, k)) => {
                proof {
                    lemma_reaches_step(s@, 0, v@.len() as int, j as int, k as int);
                    assert(s@.take(v@.len() as int + 1) =~= s@.take(v@.len() as int).push(c));
                }
                v.push(c);
                j = k;
            },
        }
    }
    v
}

/// The part of `s` between the byte offsets `i` and `j`.
pub fn slice<'a>(s: &'a str, i: usize, j: usize) -> (r: &'a str)
    requires
        is_boundary(s@, i as int),
        is_boundary(s@, j as int),
        i <= j,
    ensures
        r@ + rest_at(s@, j as int) == rest_at(s@, i as int),
        byte_len(r@) == j - i,
        forall|n: int| #[trigger] reaches(s@, i as int, n, j as int) ==> r@ == rest_at(s@, i as int).take(n),
{
    broadcast use {group_utf8_lib, group_string_axioms};

    let ghost b = encode_utf8(s@);
    let ghost t = b.subrange(i as int, b.len() as int);
    proof {
        lemma_boundary(s@, i as int);
        lemma_boundary(s@, j as int);
        lemma_boundary_range(s@, i as int);
        lemma_boundary_range(s@, j as int);
        assert(valid_utf8(t));
        if j - i < t.len() {
            assert(t[j - i] == b[j as int]);
            is_char_boundary_iff_not_is_continuation_byte(b, j as int);
            is_char_boundary_iff_not_is_continuation_byte(t, j - i);
        } else {
            is_char_boundary_start_end_of_seq(t);
        }
        assert(is_char_boundary(t, j - i));
        decode_utf8_split(t, j - i);
        assert(t.subrange(j - i, t.len() as int) =~= b.subrange(j as int, b.len() as int));
    }
    let tail = s.split_at(i).1;
    assert(tail.spec_bytes() == t);
    let head = tail.split_at(j - i).0;
    assert(head@ == decode_utf8(t.subrange(0, j - i))) by {
        assert(decode_utf8(encode_utf8(head@)) == head@);
    }
    assert forall|n: int| #[trigger] reaches(s@, i as int, n, j as int) implies head@ == rest_at(
        s@,
        i as int,
    ).take(n) by {
        lemma_between(s@, i as int, n, j as int, head@);
    }
    head
}

} // verus!
