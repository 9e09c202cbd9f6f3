use vstd::prelude::*;

verus! {

/// Whether `a` comes before `b` in the order of byte strings: the first byte in which
/// they differ decides, read as a number without sign, and a string comes before
/// every longer one that begins with it.
pub open spec fn lex_less(a: Seq<u8>, b: Seq<u8>) -> bool
    decreases a.len(),
{
    if b.len() == 0 {
        false
    } else if a.len() == 0 {
        true
    } else if a[0] != b[0] {
        a[0] < b[0]
    } else {
        lex_less(a.drop_first(), b.drop_first())
    }
}

/// A difference of lengths as an `i32`: the difference itself where it fits, and else
/// the nearest `i32`.
pub open spec fn clamp_i32(d: int) -> int {
    if d > i32::MAX {
        i32::MAX as int
    } else if d < i32::MIN {
        i32::MIN as int
    } else {
        d
    }
}

/// What comparing `a` with `b` gives. Where the two differ in a byte, it is the
/// difference of the first such bytes, that of `a` less that of `b`. Where one begins
/// with the other, it is the difference of their lengths, as far as an `i32` holds it.
pub open spec fn byte_order(a: Seq<u8>, b: Seq<u8>) -> int
    decreases a.len(),
{
    if a.len() == 0 || b.len() == 0 {
        clamp_i32(a.len() - b.len())
    } else if a[0] != b[0] {
        a[0] - b[0]
    } else {
        byte_order(a.drop_first(), b.drop_first())
    }
}

/// Compares two byte strings. The result is negative where `a` comes first, zero where
/// the two are equal, and positive where `b` comes first.
pub fn compare_bytes(a: &[u8], b: &[u8]) -> (order: i32)
    ensures
        order == byte_order(a@, b@),
{
    let n = if a.len() < b.len() {
        a.len()
    } else {
        b.len()
    };
    let mut i: usize = 0;
    assert(a@.skip(0) =~= a@ && b@.skip(0) =~= b@);
    while i < n
        invariant
            i <= n,
            n <= a.len(),
            n <= b.len(),
            n == a.len() || n == b.len(),
            byte_order(a@, b@) == byte_order(a@.skip(i as int), b@.skip(i as int)),
        decreases n - i,
    {
        proof {
            assert(a@.skip(i as int).drop_first() =~= a@.skip(i + 1));
            assert(b@.skip(i as int).drop_first() =~= b@.skip(i + 1));
        }
        if a[i] != b[i] {
            return a[i] as i32 - b[i] as i32;
        }
        i += 1;
    }
    if a.len() >= b.len() {
        let d = a.len() - b.len();
        if d > 0x7fff_ffff {
            0x7fff_ffff
        } else {
            d as i32
        }
    } else {
        let d = b.len() - a.len();
        if d > 0x8000_0000 {
            -0x8000_0000
        } else {
            (-(d as i64)) as i32
        }
    }
}

/// The sign of a comparison tells the order: negative is "before", zero is "equal".
pub proof fn lemma_byte_order_sign(a: Seq<u8>, b: Seq<u8>)
    ensures
        byte_order(a, b) < 0 <==> lex_less(a, b),
        byte_order(a, b) == 0 <==> a == b,
        byte_order(a, b) > 0 <==> lex_less(b, a),
    decreases a.len(),
{
    if a.len() == 0 || b.len() == 0 {
        if a.len() == 0 && b.len() == 0 {
            assert(a =~= b);
        }
    } else if a[0] != b[0] {
    } else {
        lemma_byte_order_sign(a.drop_first(), b.drop_first());
        if a.drop_first() == b.drop_first() {
            assert(a =~= seq![a[0]] + a.drop_first());
            assert(b =~= seq![b[0]] + b.drop_first());
        }
    }
}

/// Of two byte strings at most one comes before the other.
pub proof fn lemma_lex_less_asymmetric(a: Seq<u8>, b: Seq<u8>)
    requires
        lex_less(a, b),
    ensures
        !lex_less(b, a),
    decreases a.len(),
{
    if a.len() > 0 && b.len() > 0 && a[0] == b[0] {
        lemma_lex_less_asymmetric(a.drop_first(), b.drop_first());
    }
}

/// If `a` comes before `b`, and `c` does not come before `b`, then `a` comes before
/// `c`. With `b` before `c` this is transitivity.
pub proof fn lemma_lex_less_chain(a: Seq<u8>, b: Seq<u8>, c: Seq<u8>)
    requires
        lex_less(a, b),
        !lex_less(c, b),
    ensures
        lex_less(a, c),
    decreases a.len(),
{
    if a.len() > 0 && b.len() > 0 && c.len() > 0 && a[0] == b[0] && c[0] == b[0] {
        lemma_lex_less_chain(a.drop_first(), b.drop_first(), c.drop_first());
    }
}

/// No byte string comes before itself.
pub proof fn lemma_lex_less_irreflexive(a: Seq<u8>)
    ensures
        !lex_less(a, a),
    decreases a.len(),
{
    if a.len() > 0 {
        lemma_lex_less_irreflexive(a.drop_first());
    }
}

} // verus!
