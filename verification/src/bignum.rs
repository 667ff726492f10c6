//! Big-endian byte strings read as natural numbers.

use vstd::prelude::*;

verus! {

/// `256` raised to `n`.
pub open spec fn pow256(n: nat) -> nat
    decreases n,
{
    if n == 0 {
        1
    } else {
        256 * pow256((n - 1) as nat)
    }
}

/// The natural number that the bytes `s` spell in big-endian order.
pub open spec fn be_value(s: Seq<u8>) -> nat
    decreases s.len(),
{
    if s.len() == 0 {
        0
    } else {
        be_value(s.drop_last()) * 256 + s.last() as nat
    }
}

pub proof fn lemma_pow256_pos(n: nat)
    ensures
        pow256(n) >= 1,
    decreases n,
{
    if n > 0 {
        lemma_pow256_pos((n - 1) as nat);
    }
}

pub proof fn lemma_pow256_add(a: nat, b: nat)
    ensures
        pow256(a + b) == pow256(a) * pow256(b),
    decreases b,
{
    if b == 0 {
        assert(pow256(0) == 1);
        assert(a + b == a);
    } else {
        lemma_pow256_add(a, (b - 1) as nat);
        assert((a + b - 1) as nat == a + (b - 1) as nat);
        assert(pow256(a + b) == 256 * pow256((a + b - 1) as nat));
        assert(pow256(a) * pow256(b) == pow256(a) * (256 * pow256((b - 1) as nat)));
        assert(pow256(a) * (256 * pow256((b - 1) as nat)) == 256 * (pow256(a) * pow256(
            (b - 1) as nat,
        ))) by (nonlinear_arith);
    }
}

/// A byte string of length `n` spells a number below `256^n`.
pub proof fn lemma_be_value_bound(s: Seq<u8>)
    ensures
        be_value(s) < pow256(s.len()),
    decreases s.len(),
{
    if s.len() > 0 {
        let p = s.drop_last();
        lemma_be_value_bound(p);
        let v = be_value(p);
        let q = pow256(p.len());
        assert(v + 1 <= q);
        assert(v * 256 + 256 <= q * 256) by (nonlinear_arith)
            requires
                v + 1 <= q,
        ;
        assert(pow256(s.len()) == 256 * pow256(p.len()));
    }
}

/// Reading a concatenation: the high part is shifted by the length of the low part.
pub proof fn lemma_be_value_concat(a: Seq<u8>, b: Seq<u8>)
    ensures
        be_value(a + b) == be_value(a) * pow256(b.len()) + be_value(b),
    decreases b.len(),
{
    if b.len() == 0 {
        assert(a + b =~= a);
        assert(pow256(0) == 1);
        assert(be_value(b) == 0);
    } else {
        let b1 = b.drop_last();
        lemma_be_value_concat(a, b1);
        assert((a + b).drop_last() =~= a + b1);
        assert((a + b).last() == b.last());
        let va = be_value(a);
        let p = pow256(b1.len());
        let vb1 = be_value(b1);
        assert(pow256(b.len()) == 256 * p);
        assert((va * p + vb1) * 256 + b.last() as nat == va * (256 * p) + (vb1 * 256
            + b.last() as nat)) by (nonlinear_arith);
    }
}

/// The value of a byte string split at `i` into its prefix and suffix.
pub proof fn lemma_be_value_split(s: Seq<u8>, i: int)
    requires
        0 <= i <= s.len(),
    ensures
        be_value(s) == be_value(s.subrange(0, i)) * pow256((s.len() - i) as nat) + be_value(
            s.subrange(i, s.len() as int),
        ),
{
    assert(s =~= s.subrange(0, i) + s.subrange(i, s.len() as int));
    lemma_be_value_concat(s.subrange(0, i), s.subrange(i, s.len() as int));
}

/// The suffix of `s` from `i` is its byte `i` followed by the suffix from `i + 1`.
pub proof fn lemma_be_value_suffix_step(s: Seq<u8>, i: int)
    requires
        0 <= i < s.len(),
    ensures
        be_value(s.subrange(i, s.len() as int)) == s[i] as nat * pow256((s.len() - i - 1) as nat)
            + be_value(s.subrange(i + 1, s.len() as int)),
{
    let suf = s.subrange(i, s.len() as int);
    lemma_be_value_split(suf, 1);
    assert(suf.subrange(0, 1) =~= seq![s[i]]);
    assert(suf.subrange(1, suf.len() as int) =~= s.subrange(i + 1, s.len() as int));
    assert(seq![s[i]].drop_last() =~= Seq::<u8>::empty());
    assert(be_value(seq![s[i]]) == s[i] as nat) by {
        reveal_with_fuel(be_value, 2);
    }
}

/// Two byte strings of one length that agree before `i` and differ at `i`
/// compare as numbers as their bytes at `i` compare.
pub proof fn lemma_be_value_first_difference(a: Seq<u8>, b: Seq<u8>, i: int)
    requires
        a.len() == b.len(),
        0 <= i < a.len(),
        a.subrange(0, i) == b.subrange(0, i),
        a[i] < b[i],
    ensures
        be_value(a) < be_value(b),
{
    let n = a.len();
    lemma_be_value_split(a, i);
    lemma_be_value_split(b, i);
    lemma_be_value_suffix_step(a, i);
    lemma_be_value_suffix_step(b, i);
    let pre = be_value(a.subrange(0, i));
    let r = pow256((n - i - 1) as nat);
    let ra = be_value(a.subrange(i + 1, n as int));
    let rb = be_value(b.subrange(i + 1, n as int));
    lemma_be_value_bound(a.subrange(i + 1, n as int));
    assert(pow256((n - i) as nat) == 256 * r);
    let ai = a[i] as nat;
    let bi = b[i] as nat;
    assert(ai * r + ra < bi * r + rb) by (nonlinear_arith)
        requires
            ai + 1 <= bi,
            ra < r,
            rb >= 0,
    ;
    assert(pre * (256 * r) + (ai * r + ra) < pre * (256 * r) + (bi * r + rb));
}

/// Byte strings of one length that spell the same number are equal.
pub proof fn lemma_be_value_injective(a: Seq<u8>, b: Seq<u8>)
    requires
        a.len() == b.len(),
        be_value(a) == be_value(b),
    ensures
        a == b,
    decreases a.len(),
{
    if a.len() > 0 {
        let x = be_value(a.drop_last());
        let y = be_value(b.drop_last());
        let r = a.last() as nat;
        let t = b.last() as nat;
        assert(x == y && r == t) by (nonlinear_arith)
            requires
                x * 256 + r == y * 256 + t,
                r < 256,
                t < 256,
        ;
        lemma_be_value_injective(a.drop_last(), b.drop_last());
        assert(a =~= a.drop_last().push(a.last()));
        assert(b =~= b.drop_last().push(b.last()));
    } else {
        assert(a =~= b);
    }
}

} // verus!
