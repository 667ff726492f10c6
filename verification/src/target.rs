//! Difficulty targets: 32-byte big-endian numbers that a hash must stay below.

use vstd::prelude::*;

use crate::bignum::{
    be_value, lemma_be_value_bound, lemma_be_value_first_difference, lemma_be_value_suffix_step,
    lemma_pow256_pos, pow256,
};
use crate::types::{Hash32, SHARE_DIFFICULTY_RATIO, SHARE_PREFILTER_RATIO};

verus! {

/// A difficulty target. A hash meets it when, read as a big-endian number,
/// it is below the target.
#[derive(Clone, Copy, Debug, PartialEq, Eq)]
pub struct Target(pub [u8; 32]);

/// The value of the largest 32-byte target, all bytes 0xFF.
pub open spec fn max_target_value() -> nat {
    (pow256(32) - 1) as nat
}

/// `t * k` when that fits in 32 bytes, else the largest 32-byte value.
pub open spec fn scaled_value(t: nat, k: nat) -> nat {
    if t * k < pow256(32) {
        t * k
    } else {
        max_target_value()
    }
}

/// The value of a target `t` adjusted by the fixed-point factor
/// `f / 1_000_000`: the product, rounded down, or the largest 32-byte value
/// when that does not fit.
pub open spec fn adjusted_value(t: nat, f: nat) -> nat {
    if t * f / 1_000_000 < pow256(32) {
        t * f / 1_000_000
    } else {
        max_target_value()
    }
}

proof fn lemma_all_zero_value(s: Seq<u8>)
    requires
        forall|i: int| 0 <= i < s.len() ==> s[i] == 0,
    ensures
        be_value(s) == 0,
    decreases s.len(),
{
    if s.len() > 0 {
        lemma_all_zero_value(s.drop_last());
    }
}

pub(crate) proof fn lemma_all_ff_value(s: Seq<u8>)
    requires
        forall|i: int| 0 <= i < s.len() ==> s[i] == 0xFF,
    ensures
        be_value(s) == pow256(s.len()) - 1,
    decreases s.len(),
{
    lemma_pow256_pos(s.len());
    if s.len() > 0 {
        let p = s.drop_last();
        lemma_all_ff_value(p);
        lemma_pow256_pos(p.len());
        assert(pow256(s.len()) == 256 * pow256(p.len()));
    }
}

/// Multiplies a 32-byte big-endian number by `k`, returning the low 32 bytes and the carry.
fn scale(t: &[u8; 32], k: u64) -> (res: ([u8; 32], u64))
    requires
        1 <= k,
    ensures
        be_value(res.0@) + res.1 * pow256(32) == k * be_value(t@),
{
    let mut out = [0u8; 32];
    let mut carry: u64 = 0;
    let mut j: usize = 32;
    proof {
        assert(out@.subrange(32, 32) =~= Seq::<u8>::empty());
        assert(t@.subrange(32, 32) =~= Seq::<u8>::empty());
    }
    while j > 0
        invariant
            j <= 32,
            1 <= k,
            carry < k,
            be_value(out@.subrange(j as int, 32)) + carry * pow256((32 - j) as nat) == k
                * be_value(t@.subrange(j as int, 32)),
        decreases j,
    {
        let i = j - 1;
        let ghost old_out = out@;
        let ghost old_carry = carry as nat;
        let tb = t[i];
        assert(tb as u128 * k as u128 + carry as u128 <= 256 * 0xFFFF_FFFF_FFFF_FFFF) by (nonlinear_arith)
            requires
                tb <= 255,
                k <= 0xFFFF_FFFF_FFFF_FFFF,
                carry < k,
        ;
        let val: u128 = (tb as u128) * (k as u128) + (carry as u128);
        let low = (val % 256) as u8;
        let next_carry = (val / 256) as u64;
        out[i] = low;
        proof {
            let p = pow256((32 - j) as nat);
            assert(out@.subrange(j as int, 32) =~= old_out.subrange(j as int, 32));
            lemma_be_value_suffix_step(out@, i as int);
            lemma_be_value_suffix_step(t@, i as int);
            assert(pow256((32 - i) as nat) == 256 * p);
            assert(val == low as nat + 256 * next_carry);
            let bo = be_value(old_out.subrange(j as int, 32));
            let bt = be_value(t@.subrange(j as int, 32));
            assert(low as nat * p + bo + next_carry * (256 * p) == k * (tb as nat * p + bt))
                by (nonlinear_arith)
                requires
                    val == low as nat + 256 * next_carry,
                    val == tb as nat * k + old_carry,
                    bo + old_carry * p == k * bt,
            ;
            assert(next_carry < k) by (nonlinear_arith)
                requires
                    val == tb as nat * k + old_carry,
                    next_carry == val / 256,
                    old_carry < k,
                    tb <= 255,
            ;
        }
        carry = next_carry;
        j = i;
    }
    proof {
        assert(out@.subrange(0, 32) =~= out@);
        assert(t@.subrange(0, 32) =~= t@);
    }
    (out, carry)
}

proof fn lemma_scaled(t: Seq<u8>, out: Seq<u8>, carry: nat, k: nat)
    requires
        t.len() == 32,
        out.len() == 32,
        be_value(out) + carry * pow256(32) == k * be_value(t),
    ensures
        carry > 0 <==> be_value(t) * k >= pow256(32),
        carry == 0 ==> be_value(out) == be_value(t) * k,
{
    lemma_be_value_bound(out);
    let bt = be_value(t);
    assert(bt * k == k * bt) by (nonlinear_arith);
    if carry > 0 {
        assert(carry * pow256(32) >= pow256(32)) by (nonlinear_arith)
            requires
                carry >= 1,
        ;
    }
}

impl Target {
    /// The target of the genesis block: four zero bytes, then 0xFF.
    pub fn genesis() -> (res: Self)
        ensures
            forall|i: int| 0 <= i < 4 ==> res.0@[i] == 0,
            forall|i: int| 4 <= i < 32 ==> res.0@[i] == 0xFF,
    {
        Target(
            [
                0x00, 0x00, 0x00, 0x00, 0xFF, 0xFF, 0xFF, 0xFF,
                0xFF, 0xFF, 0xFF, 0xFF, 0xFF, 0xFF, 0xFF, 0xFF,
                0xFF, 0xFF, 0xFF, 0xFF, 0xFF, 0xFF, 0xFF, 0xFF,
                0xFF, 0xFF, 0xFF, 0xFF, 0xFF, 0xFF, 0xFF, 0xFF,
            ],
        )
    }

    /// Whether `hash` meets the target: read as big-endian numbers, the hash
    /// is below the target.
    pub fn is_met_by(&self, hash: &Hash32) -> (res: bool)
        ensures
            res == (be_value(hash@) < be_value(self.0@)),
    {
        let mut i: usize = 0;
        while i < 32
            invariant
                i <= 32,
                hash@.subrange(0, i as int) == self.0@.subrange(0, i as int),
            decreases 32 - i,
        {
            let h = hash[i];
            let t = self.0[i];
            if h < t {
                proof {
                    lemma_be_value_first_difference(hash@, self.0@, i as int);
                }
                return true;
            }
            if h > t {
                proof {
                    lemma_be_value_first_difference(self.0@, hash@, i as int);
                }
                return false;
            }
            proof {
                assert(hash@.subrange(0, i + 1) =~= hash@.subrange(0, i as int).push(h));
                assert(self.0@.subrange(0, i + 1) =~= self.0@.subrange(0, i as int).push(t));
            }
            i = i + 1;
        }
        proof {
            assert(hash@ =~= hash@.subrange(0, 32));
            assert(self.0@ =~= self.0@.subrange(0, 32));
        }
        false
    }

    /// The share target: the target times 256, or all 0xFF bytes when that
    /// product does not fit in 32 bytes.
    pub fn share_target(&self) -> (res: Self)
        ensures
            be_value(res.0@) == scaled_value(be_value(self.0@), SHARE_DIFFICULTY_RATIO as nat),
    {
        let (out, carry) = scale(&self.0, SHARE_DIFFICULTY_RATIO);
        proof {
            lemma_scaled(self.0@, out@, carry as nat, SHARE_DIFFICULTY_RATIO as nat);
        }
        if carry > 0 {
            let all = [0xFFu8; 32];
            proof {
                lemma_all_ff_value(all@);
            }
            return Target(all);
        }
        Target(out)
    }

    /// The prefilter target: the share target times 65536, or all 0xFF bytes
    /// when that product does not fit in 32 bytes.
    pub fn prefilter_target(&self) -> (res: Self)
        ensures
            be_value(res.0@) == scaled_value(
                scaled_value(be_value(self.0@), SHARE_DIFFICULTY_RATIO as nat),
                SHARE_PREFILTER_RATIO as nat,
            ),
    {
        let share_target = self.share_target();
        let (out, carry) = scale(&share_target.0, SHARE_PREFILTER_RATIO);
        proof {
            lemma_scaled(share_target.0@, out@, carry as nat, SHARE_PREFILTER_RATIO as nat);
        }
        if carry > 0 {
            let all = [0xFFu8; 32];
            proof {
                lemma_all_ff_value(all@);
            }
            return Target(all);
        }
        Target(out)
    }

    /// Adjusts the target by the fixed-point factor `factor_fixed / 1_000_000`:
    /// the exact product rounded down, or all 0xFF bytes when it does not fit
    /// in 32 bytes.
    pub fn adjust_fixed(&self, factor_fixed: u64) -> (res: Self)
        ensures
            be_value(res.0@) == adjusted_value(be_value(self.0@), factor_fixed as nat),
    {
        if factor_fixed == 0 {
            let zero = [0u8; 32];
            proof {
                lemma_all_zero_value(zero@);
                assert(be_value(self.0@) * 0 / 1_000_000 == 0) by (nonlinear_arith);
                lemma_pow256_pos(32);
            }
            return Target(zero);
        }
        let (prod, carry) = scale(&self.0, factor_fixed);
        let ghost x = factor_fixed as nat * be_value(self.0@);
        proof {
            lemma_be_value_bound(prod@);
            assert(be_value(self.0@) * factor_fixed == factor_fixed * be_value(self.0@)) by (nonlinear_arith);
        }
        if carry >= 1_000_000 {
            let all = [0xFFu8; 32];
            proof {
                lemma_all_ff_value(all@);
                let p = pow256(32);
                assert(x >= 1_000_000 * p) by (nonlinear_arith)
                    requires
                        x == be_value(prod@) + carry * p,
                        carry >= 1_000_000,
                ;
                assert(x / 1_000_000 >= p) by (nonlinear_arith)
                    requires
                        x >= 1_000_000 * p,
                ;
            }
            return Target(all);
        }
        let mut q = [0u8; 32];
        let mut r: u64 = carry;
        let mut i: usize = 0;
        proof {
            assert(q@.subrange(0, 0) =~= Seq::<u8>::empty());
            assert(prod@.subrange(0, 0) =~= Seq::<u8>::empty());
            assert(be_value(q@.subrange(0, 0)) == 0);
            assert(be_value(prod@.subrange(0, 0)) == 0);
            assert(pow256(0) == 1);
            assert(carry * pow256(0) == carry);
        }
        while i < 32
            invariant
                i <= 32,
                r < 1_000_000,
                carry < 1_000_000,
                be_value(q@.subrange(0, i as int)) * 1_000_000 + r == carry * pow256(i as nat) + be_value(
                    prod@.subrange(0, i as int),
                ),
            decreases 32 - i,
        {
            let ghost old_q = q@;
            let ghost old_r = r as nat;
            let cur: u64 = r * 256 + prod[i] as u64;
            let digit = (cur / 1_000_000) as u8;
            q[i] = digit;
            r = cur % 1_000_000;
            proof {
                let qi = be_value(old_q.subrange(0, i as int));
                let oi = be_value(prod@.subrange(0, i as int));
                let pi = pow256(i as nat);
                assert(q@.subrange(0, i as int) =~= old_q.subrange(0, i as int));
                assert(q@.subrange(0, i + 1).drop_last() =~= q@.subrange(0, i as int));
                assert(prod@.subrange(0, i + 1).drop_last() =~= prod@.subrange(0, i as int));
                assert(be_value(q@.subrange(0, i + 1)) == qi * 256 + digit as nat);
                assert(be_value(prod@.subrange(0, i + 1)) == oi * 256 + prod@[i as int] as nat);
                assert(pow256((i + 1) as nat) == 256 * pi);
                assert(cur == digit as nat * 1_000_000 + r);
                assert((qi * 256 + digit as nat) * 1_000_000 + r == carry * (256 * pi) + (oi * 256
                    + prod@[i as int] as nat)) by (nonlinear_arith)
                    requires
                        qi * 1_000_000 + old_r == carry * pi + oi,
                        cur == old_r * 256 + prod@[i as int] as nat,
                        cur == digit as nat * 1_000_000 + r,
                ;
            }
            i = i + 1;
        }
        proof {
            assert(q@.subrange(0, 32) =~= q@);
            assert(prod@.subrange(0, 32) =~= prod@);
            lemma_be_value_bound(q@);
            let v = be_value(q@);
            assert(v * 1_000_000 + r == x);
            assert(x / 1_000_000 == v) by (nonlinear_arith)
                requires
                    v * 1_000_000 + r == x,
                    r < 1_000_000,
            ;
        }
        Target(q)
    }
}

/// A hash that meets a block target also meets the share target derived from it.
pub proof fn lemma_block_hash_meets_share_target(t: Target, hash: Hash32)
    requires
        be_value(hash@) < be_value(t.0@),
    ensures
        be_value(hash@) < scaled_value(be_value(t.0@), SHARE_DIFFICULTY_RATIO as nat),
{
    lemma_be_value_bound(hash@);
    lemma_be_value_bound(t.0@);
    let v = be_value(t.0@);
    assert(v * 256 >= v) by (nonlinear_arith);
}

/// A hash that meets a share target also meets the prefilter target derived from it.
pub proof fn lemma_share_hash_meets_prefilter_target(t: Target, hash: Hash32)
    requires
        be_value(hash@) < scaled_value(be_value(t.0@), SHARE_DIFFICULTY_RATIO as nat),
    ensures
        be_value(hash@) < scaled_value(
            scaled_value(be_value(t.0@), SHARE_DIFFICULTY_RATIO as nat),
            SHARE_PREFILTER_RATIO as nat,
        ),
{
    lemma_be_value_bound(hash@);
    let v = scaled_value(be_value(t.0@), SHARE_DIFFICULTY_RATIO as nat);
    assert(v * 65536 >= v) by (nonlinear_arith);
}

/// Adjusting by the factor one (one million in fixed point) leaves a target unchanged.
pub proof fn lemma_adjust_by_one_is_identity(t: Target)
    ensures
        adjusted_value(be_value(t.0@), 1_000_000) == be_value(t.0@),
{
    lemma_be_value_bound(t.0@);
    let v = be_value(t.0@);
    assert(v * 1_000_000 / 1_000_000 == v) by (nonlinear_arith);
}

} // verus!
