//! Merkle roots over 32-byte hashes: each level hashes adjacent pairs with
//! SHA-256, an odd last hash paired with itself, until one hash is left.

use vstd::prelude::*;

use crate::bignum::{be_value, lemma_be_value_first_difference, lemma_be_value_injective};
use crate::crypto::{sha256, sha256_digest};
use crate::encoding::append_bytes;
use crate::types::Hash32;

verus! {

/// The views of a sequence of 32-byte hashes.
pub open spec fn hash_views(s: Seq<[u8; 32]>) -> Seq<Seq<u8>> {
    s.map_values(|h: [u8; 32]| h@)
}

/// Entry `i` of the level above `level`: SHA-256 of hash `2i` followed by hash
/// `2i + 1`, or by hash `2i` again when it is the last one.
pub open spec fn merkle_pair(level: Seq<Seq<u8>>, i: int) -> Seq<u8> {
    sha256_digest(
        level[2 * i] + if 2 * i + 1 < level.len() {
            level[2 * i + 1]
        } else {
            level[2 * i]
        },
    )
}

/// The level above `level`.
pub open spec fn merkle_next(level: Seq<Seq<u8>>) -> Seq<Seq<u8>> {
    Seq::new(((level.len() + 1) / 2) as nat, |i: int| merkle_pair(level, i))
}

/// The merkle root of a non-empty level.
pub open spec fn merkle_root_of(level: Seq<Seq<u8>>) -> Seq<u8>
    decreases level.len(),
{
    if level.len() <= 1 {
        level[0]
    } else {
        merkle_root_of(merkle_next(level))
    }
}

/// The merkle root of one or more hashes.
pub fn merkle_root(hashes: Vec<Hash32>) -> (res: Hash32)
    requires
        hashes.len() >= 1,
    ensures
        res@ == merkle_root_of(hash_views(hashes@)),
{
    let mut current = hashes;
    let ghost goal = merkle_root_of(hash_views(current@));
    while current.len() > 1
        invariant
            current.len() >= 1,
            merkle_root_of(hash_views(current@)) == goal,
        decreases current.len(),
    {
        let n = current.len();
        let mut next: Vec<Hash32> = Vec::new();
        let pairs = n / 2 + n % 2;
        let mut j: usize = 0;
        while j < pairs
            invariant
                n == current.len(),
                n >= 2,
                pairs == n / 2 + n % 2,
                j <= pairs,
                next@.len() == j,
                forall|k: int|
                    0 <= k < next@.len() ==> (#[trigger] next@[k])@ == merkle_pair(
                        hash_views(current@),
                        k,
                    ),
            decreases pairs - j,
        {
            let i = 2 * j;
            let mut data: Vec<u8> = Vec::with_capacity(64);
            append_bytes(&mut data, current[i].as_slice());
            if i + 1 < n {
                append_bytes(&mut data, current[i + 1].as_slice());
            } else {
                append_bytes(&mut data, current[i].as_slice());
            }
            let h = sha256(data.as_slice());
            proof {
                let lv = hash_views(current@);
                assert(lv[i as int] == current@[i as int]@);
                if i + 1 < n {
                    assert(lv[i + 1] == current@[i + 1]@);
                }
                assert(data@ =~= lv[2 * j as int] + if 2 * j as int + 1 < lv.len() {
                    lv[2 * j as int + 1]
                } else {
                    lv[2 * j as int]
                });
            }
            next.push(h);
            j = j + 1;
        }
        proof {
            let lv = hash_views(current@);
            assert(hash_views(next@) =~= merkle_next(lv));
        }
        current = next;
    }
    proof {
        assert(hash_views(current@)[0] == current@[0]@);
    }
    current[0]
}

/// The elements of a sequence, as a set.
pub open spec fn seq_set(s: Seq<Seq<u8>>) -> Set<Seq<u8>> {
    Set::new(|x: Seq<u8>| s.contains(x))
}

/// Each element spells a smaller big-endian number than the next, so the
/// sequence is in strictly ascending byte order.
pub open spec fn strictly_ascending(s: Seq<Seq<u8>>) -> bool {
    forall|a: int, b: int| 0 <= a < b < s.len() ==> be_value(#[trigger] s[a]) < be_value(#[trigger] s[b])
}

/// Every element is 32 bytes long.
pub open spec fn all_32_bytes(s: Seq<Seq<u8>>) -> bool {
    forall|i: int| 0 <= i < s.len() ==> (#[trigger] s[i]).len() == 32
}

/// The 32-byte strings of `set` in ascending byte order.
pub open spec fn ascending_of(set: Set<Seq<u8>>) -> Seq<Seq<u8>> {
    choose|s: Seq<Seq<u8>>| strictly_ascending(s) && all_32_bytes(s) && seq_set(s) == set
}

/// Whether `a` comes before `b` in byte order.
pub fn hash_lt(a: &Hash32, b: &Hash32) -> (res: bool)
    ensures
        res == (be_value(a@) < be_value(b@)),
{
    let mut i: usize = 0;
    while i < 32
        invariant
            i <= 32,
            a@.subrange(0, i as int) == b@.subrange(0, i as int),
        decreases 32 - i,
    {
        let x = a[i];
        let y = b[i];
        if x < y {
            proof {
                lemma_be_value_first_difference(a@, b@, i as int);
            }
            return true;
        }
        if x > y {
            proof {
                lemma_be_value_first_difference(b@, a@, i as int);
            }
            return false;
        }
        proof {
            assert(a@.subrange(0, i + 1) =~= a@.subrange(0, i as int).push(x));
            assert(b@.subrange(0, i + 1) =~= b@.subrange(0, i as int).push(y));
        }
        i = i + 1;
    }
    proof {
        assert(a@ =~= a@.subrange(0, 32));
        assert(b@ =~= b@.subrange(0, 32));
    }
    false
}

/// The hashes of `hs`, which are distinct, in ascending byte order.
pub fn sort_hashes(hs: &Vec<Hash32>) -> (res: Vec<Hash32>)
    requires
        forall|a: int, b: int| 0 <= a < b < hs@.len() ==> (#[trigger] hs@[a])@ != (#[trigger] hs@[b])@,
    ensures
        strictly_ascending(hash_views(res@)),
        seq_set(hash_views(res@)) == seq_set(hash_views(hs@)),
{
    let mut out: Vec<Hash32> = Vec::new();
    let mut i: usize = 0;
    proof {
        assert(seq_set(hash_views(out@)) =~= seq_set(hash_views(hs@.subrange(0, 0))));
    }
    while i < hs.len()
        invariant
            i <= hs@.len(),
            forall|a: int, b: int| 0 <= a < b < hs@.len() ==> (#[trigger] hs@[a])@ != (#[trigger] hs@[b])@,
            strictly_ascending(hash_views(out@)),
            seq_set(hash_views(out@)) == seq_set(hash_views(hs@.subrange(0, i as int))),
        decreases hs@.len() - i,
    {
        let h = hs[i];
        let ghost before = out@;
        let mut j: usize = 0;
        loop
            invariant
                before == out@,
                j <= out@.len(),
                forall|k: int| 0 <= k < j ==> be_value((#[trigger] out@[k])@) < be_value(h@),
            ensures
                j <= out@.len(),
                forall|k: int| 0 <= k < j ==> be_value((#[trigger] out@[k])@) < be_value(h@),
                j < out@.len() ==> be_value(out@[j as int]@) >= be_value(h@),
            decreases out@.len() - j,
        {
            if j >= out.len() {
                break;
            }
            if !hash_lt(&out[j], &h) {
                break;
            }
            j = j + 1;
        }
        proof {
            let bv = hash_views(before);
            // h is not yet among the sorted hashes
            assert(!seq_set(bv).contains(h@)) by {
                if seq_set(bv).contains(h@) {
                    let p = hs@.subrange(0, i as int);
                    assert(seq_set(hash_views(p)).contains(h@));
                    let q = choose|q: int| 0 <= q < hash_views(p).len() && hash_views(p)[q] == h@;
                    assert(hs@[q]@ == hs@[i as int]@);
                }
            }
            if j < before.len() {
                if be_value(before[j as int]@) == be_value(h@) {
                    lemma_be_value_injective(before[j as int]@, h@);
                    assert(bv[j as int] == h@);
                    assert(bv.contains(h@));
                }
            }
        }
        out.insert(j, h);
        proof {
            let bv = hash_views(before);
            let nv = hash_views(out@);
            assert(nv =~= bv.insert(j as int, h@));
            assert forall|a: int, b: int| 0 <= a < b < nv.len() implies be_value(#[trigger] nv[a])
                < be_value(#[trigger] nv[b]) by {
                if b < j {
                    assert(nv[a] == bv[a] && nv[b] == bv[b]);
                } else if b == j {
                    assert(nv[a] == bv[a]);
                    assert(bv[a] == before[a]@);
                } else if a < j {
                    assert(nv[a] == bv[a] && nv[b] == bv[b - 1]);
                    if a < b - 1 {
                    } 
                } else if a == j {
                    assert(nv[b] == bv[b - 1]);
                    assert(bv[j as int] == before[j as int]@);
                    if b - 1 > j {
                        assert(be_value(bv[j as int]) < be_value(bv[b - 1]));
                    }
                } else {
                    assert(nv[a] == bv[a - 1] && nv[b] == bv[b - 1]);
                }
            }
            let p = hs@.subrange(0, i as int);
            let p1 = hs@.subrange(0, i + 1);
            assert(p1 =~= p.push(h));
            assert(hash_views(p1) =~= hash_views(p).push(h@));
            assert forall|x: Seq<u8>| #[trigger] seq_set(nv).contains(x) == seq_set(hash_views(p1)).contains(x) by {
                if nv.contains(x) {
                    let q = choose|q: int| 0 <= q < nv.len() && nv[q] == x;
                    if q < j {
                        assert(bv[q] == x);
                        assert(seq_set(bv).contains(x));
                        assert(seq_set(hash_views(p)).contains(x));
                        assert(hash_views(p).contains(x));
                        let r = choose|r: int| 0 <= r < hash_views(p).len() && hash_views(p)[r] == x;
                        assert(hash_views(p1)[r] == x);
                    } else if q == j {
                        assert(hash_views(p1)[i as int] == x);
                    } else {
                        assert(bv[q - 1] == x);
                        assert(seq_set(bv).contains(x));
                        assert(seq_set(hash_views(p)).contains(x));
                        assert(hash_views(p).contains(x));
                        let r = choose|r: int| 0 <= r < hash_views(p).len() && hash_views(p)[r] == x;
                        assert(hash_views(p1)[r] == x);
                    }
                }
                if hash_views(p1).contains(x) {
                    let q = choose|q: int| 0 <= q < hash_views(p1).len() && hash_views(p1)[q] == x;
                    if q == i {
                        assert(nv[j as int] == x);
                    } else {
                        assert(hash_views(p)[q] == x);
                        assert(seq_set(hash_views(p)).contains(x));
                        assert(seq_set(bv).contains(x));
                        let r = choose|r: int| 0 <= r < bv.len() && bv[r] == x;
                        if r < j {
                            assert(nv[r] == x);
                        } else {
                            assert(nv[r + 1] == x);
                        }
                    }
                }
            }
            assert(seq_set(nv) =~= seq_set(hash_views(p1)));
        }
        i = i + 1;
    }
    proof {
        assert(hs@.subrange(0, i as int) =~= hs@);
    }
    out
}

/// Two ascending sequences of 32-byte strings with the same elements are equal.
pub proof fn lemma_ascending_unique(s1: Seq<Seq<u8>>, s2: Seq<Seq<u8>>)
    requires
        strictly_ascending(s1),
        strictly_ascending(s2),
        all_32_bytes(s1),
        all_32_bytes(s2),
        seq_set(s1) == seq_set(s2),
    ensures
        s1 == s2,
    decreases s1.len(),
{
    if s1.len() == 0 {
        if s2.len() > 0 {
            assert(seq_set(s2).contains(s2[0]));
            assert(s1.contains(s2[0]));
        }
        assert(s1 =~= s2);
    } else {
        assert(seq_set(s1).contains(s1[0]));
        assert(s2.contains(s1[0]));
        assert(s2.len() > 0);
        assert(seq_set(s2).contains(s2[0]));
        assert(s1.contains(s2[0]));
        let k1 = choose|k: int| 0 <= k < s1.len() && s1[k] == s2[0];
        let k2 = choose|k: int| 0 <= k < s2.len() && s2[k] == s1[0];
        assert(be_value(s1[0]) <= be_value(s2[0])) by {
            if k1 > 0 {
                assert(be_value(s1[0]) < be_value(s1[k1]));
            }
        }
        assert(be_value(s2[0]) <= be_value(s1[0])) by {
            if k2 > 0 {
                assert(be_value(s2[0]) < be_value(s2[k2]));
            }
        }
        lemma_be_value_injective(s1[0], s2[0]);
        let t1 = s1.drop_first();
        let t2 = s2.drop_first();
        assert(strictly_ascending(t1)) by {
            assert forall|a: int, b: int| 0 <= a < b < t1.len() implies be_value(#[trigger] t1[a])
                < be_value(#[trigger] t1[b]) by {
                assert(t1[a] == s1[a + 1] && t1[b] == s1[b + 1]);
            }
        }
        assert(strictly_ascending(t2)) by {
            assert forall|a: int, b: int| 0 <= a < b < t2.len() implies be_value(#[trigger] t2[a])
                < be_value(#[trigger] t2[b]) by {
                assert(t2[a] == s2[a + 1] && t2[b] == s2[b + 1]);
            }
        }
        assert(all_32_bytes(t1)) by {
            assert forall|i: int| 0 <= i < t1.len() implies (#[trigger] t1[i]).len() == 32 by {
                assert(t1[i] == s1[i + 1]);
            }
        }
        assert(all_32_bytes(t2)) by {
            assert forall|i: int| 0 <= i < t2.len() implies (#[trigger] t2[i]).len() == 32 by {
                assert(t2[i] == s2[i + 1]);
            }
        }
        assert forall|x: Seq<u8>| #[trigger] seq_set(t1).contains(x) == seq_set(t2).contains(x) by {
            if t1.contains(x) {
                let q = choose|q: int| 0 <= q < t1.len() && t1[q] == x;
                assert(s1[q + 1] == x);
                assert(be_value(s1[0]) < be_value(x));
                assert(seq_set(s1).contains(x));
                assert(s2.contains(x));
                let r = choose|r: int| 0 <= r < s2.len() && s2[r] == x;
                assert(r != 0);
                assert(t2[r - 1] == x);
            }
            if t2.contains(x) {
                let q = choose|q: int| 0 <= q < t2.len() && t2[q] == x;
                assert(s2[q + 1] == x);
                assert(be_value(s2[0]) < be_value(x));
                assert(seq_set(s2).contains(x));
                assert(s1.contains(x));
                let r = choose|r: int| 0 <= r < s1.len() && s1[r] == x;
                assert(r != 0);
                assert(t1[r - 1] == x);
            }
        }
        assert(seq_set(t1) =~= seq_set(t2));
        lemma_ascending_unique(t1, t2);
        assert(s1 =~= s2) by {
            assert forall|i: int| 0 <= i < s1.len() implies s1[i] == s2[i] by {
                if i > 0 {
                    assert(s1[i] == t1[i - 1]);
                    assert(s2[i] == t2[i - 1]);
                }
            }
        }
    }
}

/// The merkle root over a single 32-byte hash is that hash.
pub proof fn lemma_single_hash_root(h: Seq<u8>)
    requires
        h.len() == 32,
    ensures
        ascending_of(Set::empty().insert(h)) == seq![h],
        merkle_root_of(ascending_of(Set::empty().insert(h))) == h,
{
    let one = seq![h];
    assert(seq_set(one) =~= Set::empty().insert(h)) by {
        assert forall|x: Seq<u8>| seq_set(one).contains(x) <==> x == h by {
            if x == h {
                assert(one[0] == h);
            }
        }
    }
    assert(strictly_ascending(one) && all_32_bytes(one));
    let s = ascending_of(Set::empty().insert(h));
    lemma_ascending_unique(s, one);
}

/// The ascending arrangement of the hashes sorted by `sort_hashes`.
pub proof fn lemma_sorted_is_ascending_of(s: Seq<Seq<u8>>)
    requires
        strictly_ascending(s),
        all_32_bytes(s),
    ensures
        ascending_of(seq_set(s)) == s,
{
    let c = ascending_of(seq_set(s));
    assert(strictly_ascending(s) && all_32_bytes(s) && seq_set(s) == seq_set(s));
    lemma_ascending_unique(c, s);
}

} // verus!
