//! Chain-level rules: the genesis block, the window of timestamps that
//! difficulty adjustment reads, the median of recent timestamps, the
//! outputs and contents of a mined block, the nonce search, the unspent
//! output updates a block makes, and the digests a checkpoint commits to.

use vstd::prelude::*;

use vstd::relations::{sorted_by, total_ordering};

use vstd::bytes::spec_u64_to_le_bytes;

use crate::bignum::{be_value, lemma_be_value_first_difference, lemma_be_value_injective};
use crate::crypto::{base58_bytes, sha256, sha256_digest};
use crate::encoding::{append_bytes, append_u64_le};
use crate::header::{header_encoding, pow_hash, prefix_value, Argon2Cache, BlockHeader};
use crate::crypto::{ecdsa_signature, ecdsa_verifies, secp256k1_public_of};
use crate::merkle::hash_lt;
use crate::wallet::Wallet;
use crate::target::{adjusted_value, scaled_value, Target};
use crate::tx::{is_coinbase_input, p2pkh_script, txid_of, Block, Transaction, TxIn, TxOut};
use crate::types::{
    Hash32, Height, MinerId, Timestamp, BLOCK_REWARD_LYT, DIFFICULTY_ADJUSTMENT_INTERVAL, EPOCH_BLOCKS,
    GENESIS_TIMESTAMP, MINING_BATCH_SIZE, SHARE_DIFFICULTY_RATIO, SHARE_PREFILTER_RATIO,
    TARGET_ADJUSTMENT_TIME, TARGET_BLOCK_TIME,
};

verus! {

/// The locking script of the genesis output.
pub open spec fn genesis_script() -> Seq<u8> {
    seq![
        0x76u8, 0xa9, 0x14, 0x62, 0xe9, 0x07, 0xb1, 0x5c, 0xbf, 0x27, 0xd5, 0x42, 0x53, 0x99, 0xeb,
        0xf6, 0xf0, 0xfb, 0x50, 0xeb, 0xb8, 0x8f, 0x18, 0x88, 0xac,
    ]
}

/// The genesis target: four zero bytes, then 0xFF.
pub open spec fn is_genesis_target(t: Target) -> bool {
    &&& forall|i: int| 0 <= i < 4 ==> t.0@[i] == 0
    &&& forall|i: int| 4 <= i < 32 ==> t.0@[i] == 0xFF
}

/// The genesis header and its coinbase: version 1, all-zero previous hash
/// and merkle root, the genesis time and target, nonce 0, epoch 1; one
/// coinbase input, and one output of 500,000,000 lyators locked by the
/// genesis script.
pub fn create_genesis_block() -> (res: (BlockHeader, Transaction))
    ensures
        res.0.version == 1,
        res.0.prev_hash@ == Seq::new(32, |i: int| 0u8),
        res.0.merkle_root@ == Seq::new(32, |i: int| 0u8),
        res.0.timestamp == GENESIS_TIMESTAMP,
        is_genesis_target(res.0.difficulty),
        res.0.nonce == 0,
        res.0.epoch_index == 1,
        res.1.version == 1,
        res.1.inputs@.len() == 1,
        crate::tx::is_coinbase_input(res.1.inputs@[0]),
        res.1.inputs@[0].script_sig@.len() == 0,
        res.1.inputs@[0].sequence == 0xFFFF_FFFF,
        res.1.outputs@.len() == 1,
        res.1.outputs@[0].value == 500_000_000,
        res.1.outputs@[0].script_pubkey@ == genesis_script(),
        res.1.locktime == 0,
{
    let zero = [0u8; 32];
    proof {
        assert(zero@ =~= Seq::new(32, |i: int| 0u8));
    }
    let header = BlockHeader {
        version: 1,
        prev_hash: zero,
        merkle_root: zero,
        timestamp: GENESIS_TIMESTAMP,
        difficulty: Target::genesis(),
        nonce: 0,
        epoch_index: 1,
    };
    let script: Vec<u8> = vec![
        0x76u8, 0xa9, 0x14, 0x62, 0xe9, 0x07, 0xb1, 0x5c, 0xbf, 0x27, 0xd5, 0x42, 0x53, 0x99, 0xeb,
        0xf6, 0xf0, 0xfb, 0x50, 0xeb, 0xb8, 0x8f, 0x18, 0x88, 0xac,
    ];
    proof {
        assert(script@ =~= genesis_script());
    }
    let mut inputs: Vec<TxIn> = Vec::new();
    inputs.push(TxIn::coinbase());
    let mut outputs: Vec<TxOut> = Vec::new();
    outputs.push(TxOut { value: 500_000_000, script_pubkey: script });
    let coinbase = Transaction { version: 1, inputs, outputs, locktime: 0 };
    (header, coinbase)
}

/// The time the last adjustment interval took: the last timestamp less the
/// one the interval's length before it; none with too few timestamps.
pub open spec fn adjustment_span_of(ts: Seq<Timestamp>) -> Option<int> {
    if ts.len() < DIFFICULTY_ADJUSTMENT_INTERVAL + 1 {
        None
    } else {
        Some(ts.last() - ts[ts.len() - DIFFICULTY_ADJUSTMENT_INTERVAL - 1])
    }
}

/// The time the last difficulty adjustment interval took (see
/// `adjustment_span_of`).
pub fn adjustment_span(timestamps: &[Timestamp]) -> (res: Option<u64>)
    requires
        adjustment_span_of(timestamps@) matches Some(d) ==> d >= 0,
    ensures
        match adjustment_span_of(timestamps@) {
            None => res is None,
            Some(d) => res == Some(d as u64),
        },
{
    let n = timestamps.len();
    if n < 121 {
        return None;
    }
    let start = timestamps[n - 121];
    let end = timestamps[n - 1];
    Some(end - start)
}

/// The order of timestamps.
pub open spec fn ts_leq() -> spec_fn(Timestamp, Timestamp) -> bool {
    |a: Timestamp, b: Timestamp| a <= b
}

/// The median of the last eleven timestamps; none with fewer.
pub open spec fn median_of(ts: Seq<Timestamp>) -> Option<Timestamp> {
    if ts.len() < 11 {
        None
    } else {
        Some(ts.subrange(ts.len() - 11, ts.len() as int).sort_by(ts_leq())[5])
    }
}

fn sort_timestamps(v: &Vec<Timestamp>) -> (res: Vec<Timestamp>)
    ensures
        sorted_by(res@, ts_leq()),
        res@.to_multiset() == v@.to_multiset(),
{
    broadcast use vstd::seq_lib::to_multiset_insert;

    let mut out: Vec<Timestamp> = Vec::new();
    let mut i: usize = 0;
    proof {
        assert(v@.subrange(0, 0) =~= Seq::<Timestamp>::empty());
        assert(out@ =~= Seq::<Timestamp>::empty());
    }
    while i < v.len()
        invariant
            i <= v@.len(),
            sorted_by(out@, ts_leq()),
            out@.to_multiset() == v@.subrange(0, i as int).to_multiset(),
        decreases v@.len() - i,
    {
        let x = v[i];
        let mut j: usize = 0;
        while j < out.len() && out[j] <= x
            invariant
                j <= out@.len(),
                forall|k: int| 0 <= k < j ==> out@[k] <= x,
            decreases out@.len() - j,
        {
            j = j + 1;
        }
        let ghost before = out@;
        out.insert(j, x);
        proof {
            assert(out@ == before.insert(j as int, x));
            assert(sorted_by(out@, ts_leq())) by {
                assert forall|a: int, b: int| 0 <= a < b < out@.len() implies #[trigger] (ts_leq())(
                    out@[a],
                    out@[b],
                ) by {
                    if b < j {
                        assert(out@[a] == before[a] && out@[b] == before[b]);
                        assert((ts_leq())(before[a], before[b]));
                    } else if b == j {
                        assert(out@[a] == before[a]);
                    } else if a < j {
                        assert(out@[a] == before[a] && out@[b] == before[b - 1]);
                        if a < b - 1 {
                            assert((ts_leq())(before[a], before[b - 1]));
                        }
                    } else if a == j {
                        assert(out@[b] == before[b - 1]);
                        assert(before[j as int] > x);
                        if b - 1 > j {
                            assert((ts_leq())(before[j as int], before[b - 1]));
                        }
                    } else {
                        assert(out@[a] == before[a - 1] && out@[b] == before[b - 1]);
                        assert((ts_leq())(before[a - 1], before[b - 1]));
                    }
                }
            }
            let p = v@.subrange(0, i as int);
            assert(v@.subrange(0, i + 1) =~= p.push(x));
            vstd::seq_lib::to_multiset_insert(before, j as int, x);
            assert(p.push(x).to_multiset() == p.to_multiset().insert(x)) by {
                broadcast use vstd::seq_lib::to_multiset_build;

            }
        }
        i = i + 1;
    }
    proof {
        assert(v@.subrange(0, i as int) =~= v@);
    }
    out
}

/// The median of the last eleven timestamps (see `median_of`).
pub fn median_timestamp(timestamps: &Vec<Timestamp>) -> (res: Option<Timestamp>)
    ensures
        res == median_of(timestamps@),
{
    let n = timestamps.len();
    if n < 11 {
        return None;
    }
    let mut last: Vec<Timestamp> = Vec::new();
    let mut k: usize = n - 11;
    while k < n
        invariant
            n == timestamps@.len(),
            n >= 11,
            n - 11 <= k <= n,
            last@ == timestamps@.subrange(n - 11, k as int),
        decreases n - k,
    {
        last.push(timestamps[k]);
        proof {
            assert(last@ =~= timestamps@.subrange(n - 11, k + 1));
        }
        k = k + 1;
    }
    let sorted = sort_timestamps(&last);
    proof {
        let w = timestamps@.subrange(n - 11, n as int);
        assert(total_ordering(ts_leq()));
        w.lemma_sort_by_ensures(ts_leq());
        vstd::seq_lib::lemma_sorted_unique(sorted@, w.sort_by(ts_leq()), ts_leq());
        assert(sorted@.len() == 11) by {
            broadcast use vstd::seq_lib::to_multiset_len;

            assert(sorted@.to_multiset().len() == last@.to_multiset().len());
            assert(last@.len() == 11);
        }
    }
    Some(sorted[5])
}

/// The difficulty of the last header, or the genesis target when there is none.
pub fn last_difficulty(headers: &Vec<BlockHeader>) -> (res: Target)
    ensures
        headers@.len() > 0 ==> res == headers@.last().difficulty,
        headers@.len() == 0 ==> is_genesis_target(res),
{
    if headers.len() > 0 {
        headers[headers.len() - 1].difficulty
    } else {
        Target::genesis()
    }
}

/// The bytes of the genesis target: four zero bytes, then 0xFF.
pub open spec fn genesis_bytes() -> Seq<u8> {
    Seq::new(32, |i: int| if i < 4 { 0u8 } else { 0xFFu8 })
}

/// The timestamps of a chain of headers, in order.
pub open spec fn timestamps_of(chain: Seq<BlockHeader>) -> Seq<Timestamp> {
    chain.map_values(|h: BlockHeader| h.timestamp)
}

/// The fixed-point adjustment factor (millionths) for an interval that
/// took `span` seconds: `span / 7200`, a negative span counted as zero,
/// clamped to 0.75 and 1.25.
pub open spec fn adjustment_factor(span: int) -> nat {
    let f = if span < 0 { 0 } else { span * 1_000_000 / (TARGET_ADJUSTMENT_TIME as int) };
    if f < 750_000 {
        750_000
    } else if f > 1_250_000 {
        1_250_000
    } else {
        f as nat
    }
}

/// The value of the network target for the block after the headers
/// `chain` (heights `0..chain.len()`): the genesis target on an empty
/// chain; at a height that is a positive multiple of the adjustment
/// interval with a full interval of timestamps before it, the last target
/// adjusted by the time the last interval took; otherwise the last target.
pub open spec fn network_target_value(chain: Seq<BlockHeader>) -> nat {
    if chain.len() == 0 {
        be_value(genesis_bytes())
    } else {
        let n = chain.len();
        let last = be_value(chain.last().difficulty.0@);
        if n % (DIFFICULTY_ADJUSTMENT_INTERVAL as nat) == 0 && n > DIFFICULTY_ADJUSTMENT_INTERVAL {
            adjusted_value(
                last,
                adjustment_factor(
                    chain.last().timestamp - chain[n - DIFFICULTY_ADJUSTMENT_INTERVAL - 1].timestamp,
                ),
            )
        } else {
            last
        }
    }
}

/// The target the next block after `headers` must name and meet (see
/// `network_target_value`).
pub fn next_target(headers: &Vec<BlockHeader>) -> (res: Target)
    ensures
        be_value(res.0@) == network_target_value(headers@),
{
    let n = headers.len();
    if n == 0 {
        let g = Target::genesis();
        proof {
            assert(g.0@ =~= genesis_bytes());
        }
        return g;
    }
    let last = headers[n - 1].difficulty;
    if n % 120 == 0 && n > 120 {
        let start = headers[n - 121].timestamp;
        let end = headers[n - 1].timestamp;
        let span: u64 = if end > start {
            end - start
        } else {
            0
        };
        let capped: u64 = if span > 9000 {
            9000
        } else {
            span
        };
        let mut f: u64 = capped * 1_000_000 / 7200;
        proof {
            let d = end - start;
            if d > 9000 {
                assert(d * 1_000_000 / 7200 >= 1_250_000) by (nonlinear_arith)
                    requires
                        d > 9000,
                ;
            }
        }
        if f < 750_000 {
            f = 750_000;
        }
        proof {
            assert(f == adjustment_factor(end - start));
        }
        return last.adjust_fixed(f);
    }
    last
}

/// The median of the last eleven timestamps of `headers` (see `median_of`).
pub fn chain_median(headers: &Vec<BlockHeader>) -> (res: Option<Timestamp>)
    ensures
        res == median_of(timestamps_of(headers@)),
{
    let mut ts: Vec<Timestamp> = Vec::new();
    let mut i: usize = 0;
    while i < headers.len()
        invariant
            i <= headers@.len(),
            ts@ == timestamps_of(headers@.subrange(0, i as int)),
        decreases headers@.len() - i,
    {
        ts.push(headers[i].timestamp);
        proof {
            assert(timestamps_of(headers@.subrange(0, i + 1)) =~= timestamps_of(
                headers@.subrange(0, i as int),
            ).push(headers@[i as int].timestamp));
        }
        i = i + 1;
    }
    proof {
        assert(headers@.subrange(0, i as int) =~= headers@);
    }
    median_timestamp(&ts)
}

/// The 32 bytes that spell the prefilter target of difficulty `t`: the
/// share target times 65536, or all 0xFF bytes when that does not fit.
pub open spec fn prefilter_bytes(t: Target) -> Seq<u8> {
    choose|b: Seq<u8>|
        b.len() == 32 && be_value(b) == scaled_value(
            scaled_value(be_value(t.0@), SHARE_DIFFICULTY_RATIO as nat),
            SHARE_PREFILTER_RATIO as nat,
        )
}

/// The prefilter test of a nonce against the target bytes `pre`: the first
/// eight bytes of SHA-256(header ‖ nonce), read big-endian, are at most the
/// first eight bytes of `pre` read the same way.
pub open spec fn passes(header: Seq<u8>, nonce: u64, pre: Seq<u8>) -> bool {
    prefix_value(sha256_digest(header + spec_u64_to_le_bytes(nonce))) <= prefix_value(pre)
}

/// The state of the nonce search over the header `h` after the nonces
/// below `n`: the best nonce, its hash, and whether it meets the
/// difficulty. A nonce counts only when it passes the prefilter; one whose
/// hash meets the difficulty ends the search; otherwise one whose hash
/// meets the share target and is below the best so far becomes the best.
/// The search starts from nonce 0 and 32 0xFF bytes.
pub open spec fn nonce_search(h: BlockHeader, n: nat) -> (u64, Seq<u8>, bool)
    decreases n,
{
    if n == 0 {
        (0u64, Seq::new(32, |i: int| 0xFFu8), false)
    } else {
        let prev = nonce_search(h, (n - 1) as nat);
        let nonce = (n - 1) as u64;
        if prev.2 || !passes(header_encoding(h), nonce, prefilter_bytes(h.difficulty)) {
            prev
        } else {
            let hash = pow_hash(header_encoding(BlockHeader { nonce, ..h }));
            if be_value(hash) < be_value(h.difficulty.0@) {
                (nonce, hash, true)
            } else if be_value(hash) < scaled_value(
                be_value(h.difficulty.0@),
                SHARE_DIFFICULTY_RATIO as nat,
            ) && be_value(hash) < be_value(prev.1) {
                (nonce, hash, false)
            } else {
                prev
            }
        }
    }
}

/// Searches the first batch of nonces for the header at `now` (see
/// `nonce_search`): the best nonce, its hash, and whether it meets the
/// header's difficulty.
pub fn search_nonce(header: &BlockHeader, argon2: &mut Argon2Cache, now: Timestamp) -> (res: (
    u64,
    Hash32,
    bool,
))
    ensures
        ({
            let s = nonce_search(*header, MINING_BATCH_SIZE as nat);
            res.0 == s.0 && res.1@ == s.1 && res.2 == s.2
        }),
        res.2 <==> exists|k: nat| k < MINING_BATCH_SIZE && #[trigger] nonce_meets(*header, k),
        res.2 ==> {
            &&& nonce_meets(*header, res.0 as nat)
            &&& res.1@ == pow_hash(header_encoding(BlockHeader { nonce: res.0, ..*header }))
            &&& forall|k: nat| k < res.0 ==> !#[trigger] nonce_meets(*header, k)
        },
        !res.2 ==> forall|k: nat|
            k < MINING_BATCH_SIZE && #[trigger] nonce_meets_share(*header, k) ==> be_value(res.1@) <= be_value(
                pow_hash(header_encoding(BlockHeader { nonce: k as u64, ..*header })),
            ),
        !res.2 && (exists|k: nat| k < MINING_BATCH_SIZE && #[trigger] nonce_meets_share(*header, k)) ==> {
            &&& nonce_meets_share(*header, res.0 as nat)
            &&& res.1@ == pow_hash(header_encoding(BlockHeader { nonce: res.0, ..*header }))
            &&& forall|k: nat|
                k < res.0 && #[trigger] nonce_meets_share(*header, k) ==> be_value(res.1@) < be_value(
                    pow_hash(header_encoding(BlockHeader { nonce: k as u64, ..*header })),
                )
        },
        !res.2 && !(exists|k: nat| k < MINING_BATCH_SIZE && #[trigger] nonce_meets_share(*header, k)) ==> res.1@
            == Seq::new(32, |i: int| 0xFFu8),
{
    let difficulty = header.difficulty;
    let target_share = difficulty.share_target();
    let target_prefilter = difficulty.prefilter_target();
    let bytes = header.to_bytes();
    proof {
        let pre = prefilter_bytes(difficulty);
        let v = scaled_value(
            scaled_value(be_value(difficulty.0@), SHARE_DIFFICULTY_RATIO as nat),
            SHARE_PREFILTER_RATIO as nat,
        );
        assert(target_prefilter.0@.len() == 32 && be_value(target_prefilter.0@) == v);
        assert(pre.len() == 32 && be_value(pre) == v);
        lemma_be_value_injective(pre, target_prefilter.0@);
    }
    let mut best_nonce: u64 = 0;
    let mut best_hash = [0xFFu8; 32];
    let mut found = false;
    proof {
        assert(best_hash@ =~= Seq::new(32, |i: int| 0xFFu8));
    }
    let mut nonce: u64 = 0;
    while nonce < MINING_BATCH_SIZE
        invariant
            nonce <= MINING_BATCH_SIZE,
            difficulty == header.difficulty,
            be_value(target_share.0@) == scaled_value(
                be_value(difficulty.0@),
                SHARE_DIFFICULTY_RATIO as nat,
            ),
            target_prefilter.0@ == prefilter_bytes(difficulty),
            bytes@ == header_encoding(*header),
            ({
                let s = nonce_search(*header, nonce as nat);
                best_nonce == s.0 && best_hash@ == s.1 && found == s.2
            }),
        decreases MINING_BATCH_SIZE - nonce,
    {
        if found {
            nonce = nonce + 1;
            continue;
        }
        if !Argon2Cache::prefilter(&bytes, nonce, &target_prefilter) {
            nonce = nonce + 1;
            continue;
        }
        let hash = header.hash_with_nonce(nonce, argon2, now);
        if difficulty.is_met_by(&hash) {
            best_hash = hash;
            best_nonce = nonce;
            found = true;
        } else if target_share.is_met_by(&hash) && hash_lt(&hash, &best_hash) {
            best_hash = hash;
            best_nonce = nonce;
        }
        nonce = nonce + 1;
    }
    proof {
        lemma_nonce_search_finds_first(*header, MINING_BATCH_SIZE as nat);
        lemma_nonce_search_sound(*header, MINING_BATCH_SIZE as nat);
        lemma_nonce_search_keeps_best(*header, MINING_BATCH_SIZE as nat);
    }
    (best_nonce, best_hash, found)
}

/// What mining on top of height `height` in epoch `epoch` involves: the
/// new block's height, the epoch its header names (the current one, the
/// epoch the shares of this round name), whether the block ends an epoch (its height a multiple of the
/// epoch length), and whether a checkpoint is due at it (its height a
/// multiple of the checkpoint interval).
pub struct BlockPlan {
    pub height: Height,
    pub header_epoch: u32,
    pub ends_epoch: bool,
    pub checkpoint_due: bool,
}

/// The plan for the next block (see `BlockPlan`).
pub fn plan_next_block(height: Height, epoch: u32, checkpoint_interval: u64) -> (res: BlockPlan)
    requires
        height < u64::MAX,
        checkpoint_interval > 0,
    ensures
        res.height == height + 1,
        res.header_epoch == epoch,
        res.ends_epoch == ((height + 1) % (EPOCH_BLOCKS as int) == 0),
        res.checkpoint_due == ((height + 1) % (checkpoint_interval as int) == 0),
{
    let next = height + 1;
    BlockPlan {
        height: next,
        header_epoch: epoch,
        ends_epoch: next % EPOCH_BLOCKS == 0,
        checkpoint_due: next % checkpoint_interval == 0,
    }
}

/// What a node does with the result of a nonce search.
pub enum MinedOutcome {
    Block,
    Share,
    Nothing,
}

/// What a nonce search yields: a block when its best hash meets the
/// difficulty; else a share when its best hash is other than all 0xFF
/// bytes (the share target is met); else nothing.
pub fn mined_outcome(meets_difficulty: bool, best_hash: &Hash32) -> (res: MinedOutcome)
    ensures
        meets_difficulty ==> res is Block,
        !meets_difficulty ==> (res is Share <==> exists|i: int| 0 <= i < 32 && best_hash@[i] != 0xFF),
        !meets_difficulty ==> (res is Nothing <==> forall|i: int| 0 <= i < 32 ==> best_hash@[i] == 0xFF),
{
    if meets_difficulty {
        return MinedOutcome::Block;
    }
    let mut i: usize = 0;
    while i < 32
        invariant
            i <= 32,
            !meets_difficulty,
            forall|j: int| 0 <= j < i ==> best_hash@[j] == 0xFF,
        decreases 32 - i,
    {
        if best_hash[i] != 0xFF {
            return MinedOutcome::Share;
        }
        i = i + 1;
    }
    MinedOutcome::Nothing
}

/// A change a block makes to the unspent outputs: an output saved under
/// its transaction id and index, or an outpoint deleted.
pub enum UtxoOp {
    Save(Hash32, u32, TxOut),
    Delete(Hash32, u32),
}

/// What a change is, in plain values.
pub enum UtxoChange {
    Save(Seq<u8>, u32, u64, Seq<u8>),
    Delete(Seq<u8>, u32),
}

/// The plain values of a change.
pub open spec fn change_of(op: UtxoOp) -> UtxoChange {
    match op {
        UtxoOp::Save(id, i, out) => UtxoChange::Save(id@, i, out.value, out.script_pubkey@),
        UtxoOp::Delete(id, i) => UtxoChange::Delete(id@, i),
    }
}

/// The saves of the outputs of `tx` from index `k` on.
pub open spec fn output_saves(tx: Transaction, k: int) -> Seq<UtxoChange>
    decreases tx.outputs@.len() - k,
{
    if k < 0 || k >= tx.outputs@.len() {
        Seq::empty()
    } else {
        seq![
            UtxoChange::Save(
                txid_of(tx),
                k as u32,
                tx.outputs@[k].value,
                tx.outputs@[k].script_pubkey@,
            ),
        ] + output_saves(tx, k + 1)
    }
}

/// The deletions of the outpoints the non-coinbase inputs of `tx` spend,
/// from input `k` on.
pub open spec fn input_deletes(tx: Transaction, k: int) -> Seq<UtxoChange>
    decreases tx.inputs@.len() - k,
{
    if k < 0 || k >= tx.inputs@.len() {
        Seq::empty()
    } else if is_coinbase_input(tx.inputs@[k]) {
        input_deletes(tx, k + 1)
    } else {
        seq![UtxoChange::Delete(tx.inputs@[k].prev_txid@, tx.inputs@[k].prev_index)] + input_deletes(
            tx,
            k + 1,
        )
    }
}

/// The changes of the transactions from `k` on: for each, its outputs
/// saved in order, then the outpoints its inputs spend deleted.
pub open spec fn block_changes(txs: Seq<Transaction>, k: int) -> Seq<UtxoChange>
    decreases txs.len() - k,
{
    if k < 0 || k >= txs.len() {
        Seq::empty()
    } else {
        output_saves(txs[k], 0) + input_deletes(txs[k], 0) + block_changes(txs, k + 1)
    }
}

/// The changes of a run of operations.
pub open spec fn changes_of(ops: Seq<UtxoOp>) -> Seq<UtxoChange> {
    ops.map_values(|op: UtxoOp| change_of(op))
}

proof fn lemma_changes_push(ops: Seq<UtxoOp>, op: UtxoOp)
    ensures
        changes_of(ops.push(op)) == changes_of(ops).push(change_of(op)),
{
    assert(changes_of(ops.push(op)) =~= changes_of(ops).push(change_of(op)));
}

proof fn lemma_seq_step<A>(a: Seq<A>, x: A, rest: Seq<A>)
    ensures
        a + (seq![x] + rest) == a.push(x) + rest,
{
    assert(a + (seq![x] + rest) =~= a.push(x) + rest);
}

/// The unspent-output changes a block makes (see `block_changes`).
pub fn utxo_updates(block: &Block, argon2: &mut Argon2Cache) -> (res: Vec<UtxoOp>)
    ensures
        changes_of(res@) == block_changes(block.transactions@, 0),
{
    let txs = &block.transactions;
    let mut ops: Vec<UtxoOp> = Vec::new();
    let mut t: usize = 0;
    proof {
        assert(changes_of(ops@) + block_changes(txs@, 0) =~= block_changes(txs@, 0));
    }
    while t < txs.len()
        invariant
            t <= txs@.len(),
            changes_of(ops@) + block_changes(txs@, t as int) == block_changes(txs@, 0),
        decreases txs@.len() - t,
    {
        let tx = &txs[t];
        let txid = tx.txid(argon2);
        let ghost rest = block_changes(txs@, t + 1);
        proof {
            assert(block_changes(txs@, t as int) == output_saves(*tx, 0) + input_deletes(*tx, 0) + rest);
            assert(changes_of(ops@) + (output_saves(*tx, 0) + input_deletes(*tx, 0) + rest) =~= changes_of(
                ops@,
            ) + output_saves(*tx, 0) + (input_deletes(*tx, 0) + rest));
        }
        let mut i: usize = 0;
        while i < tx.outputs.len()
            invariant
                i <= tx.outputs@.len(),
                txid@ == txid_of(*tx),
                changes_of(ops@) + output_saves(*tx, i as int) + (input_deletes(*tx, 0) + rest)
                    == block_changes(txs@, 0),
            decreases tx.outputs@.len() - i,
        {
            let out = tx.outputs[i].duplicate();
            let ghost before = ops@;
            ops.push(UtxoOp::Save(txid, i as u32, out));
            proof {
                lemma_changes_push(before, UtxoOp::Save(txid, i as u32, out));
                assert(output_saves(*tx, i as int) == seq![
                    UtxoChange::Save(txid_of(*tx), i as u32, tx.outputs@[i as int].value, tx.outputs@[i as int].script_pubkey@),
                ] + output_saves(*tx, i + 1));
                lemma_seq_step(changes_of(before), change_of(UtxoOp::Save(txid, i as u32, out)), output_saves(*tx, i + 1));
                assert(changes_of(before) + output_saves(*tx, i as int) + (input_deletes(*tx, 0) + rest)
                    =~= changes_of(before) + (output_saves(*tx, i as int) + (input_deletes(*tx, 0) + rest)));
                assert(changes_of(ops@) + output_saves(*tx, i + 1) + (input_deletes(*tx, 0) + rest)
                    =~= changes_of(ops@) + (output_saves(*tx, i + 1) + (input_deletes(*tx, 0) + rest)));
                assert(output_saves(*tx, i as int) + (input_deletes(*tx, 0) + rest) =~= seq![
                    change_of(UtxoOp::Save(txid, i as u32, out)),
                ] + (output_saves(*tx, i + 1) + (input_deletes(*tx, 0) + rest)));
                lemma_seq_step(changes_of(before), change_of(UtxoOp::Save(txid, i as u32, out)), output_saves(*tx, i + 1) + (input_deletes(*tx, 0) + rest));
            }
            i = i + 1;
        }
        proof {
            assert(output_saves(*tx, i as int) == Seq::<UtxoChange>::empty());
            assert(changes_of(ops@) + output_saves(*tx, i as int) =~= changes_of(ops@));
        }
        let mut j: usize = 0;
        while j < tx.inputs.len()
            invariant
                j <= tx.inputs@.len(),
                changes_of(ops@) + (input_deletes(*tx, j as int) + rest) == block_changes(txs@, 0),
            decreases tx.inputs@.len() - j,
        {
            let input = &tx.inputs[j];
            let ghost before = ops@;
            if !input.is_coinbase() {
                let point = input.outpoint();
                ops.push(UtxoOp::Delete(point.0, point.1));
                proof {
                    lemma_changes_push(before, UtxoOp::Delete(point.0, point.1));
                    assert(input_deletes(*tx, j as int) + rest =~= seq![
                        change_of(UtxoOp::Delete(point.0, point.1)),
                    ] + (input_deletes(*tx, j + 1) + rest));
                    lemma_seq_step(changes_of(before), change_of(UtxoOp::Delete(point.0, point.1)), input_deletes(*tx, j + 1) + rest);
                }
            }
            j = j + 1;
        }
        proof {
            assert(input_deletes(*tx, j as int) == Seq::<UtxoChange>::empty());
            assert(input_deletes(*tx, j as int) + rest =~= rest);
        }
        t = t + 1;
    }
    proof {
        assert(block_changes(txs@, t as int) == Seq::<UtxoChange>::empty());
        assert(changes_of(ops@) + block_changes(txs@, t as int) =~= changes_of(ops@));
    }
    ops
}

/// The bytes the state root hashes: for each miner its identity and
/// little-endian share count and bond, then for each bond its miner,
/// amount and lock height, in the order given.
pub open spec fn state_bytes(miners: Seq<(MinerId, u64, u64)>, bonds: Seq<(MinerId, u64, u64)>) -> Seq<u8>
    decreases miners.len() + bonds.len(),
{
    if bonds.len() > 0 {
        state_bytes(miners, bonds.drop_last()) + bonds.last().0@ + spec_u64_to_le_bytes(bonds.last().1)
            + spec_u64_to_le_bytes(bonds.last().2)
    } else if miners.len() > 0 {
        state_bytes(miners.drop_last(), bonds) + miners.last().0@ + spec_u64_to_le_bytes(miners.last().1)
            + spec_u64_to_le_bytes(miners.last().2)
    } else {
        Seq::empty()
    }
}

/// SHA-256 of `state_bytes`, the entries in the order given.
fn state_digest(miners: &[(MinerId, u64, u64)], bonds: &[(MinerId, u64, u64)]) -> (res: Hash32)
    ensures
        res@ == sha256_digest(state_bytes(miners@, bonds@)),
{
    let mut data: Vec<u8> = Vec::new();
    let mut i: usize = 0;
    proof {
        assert(miners@.subrange(0, 0) =~= Seq::<(MinerId, u64, u64)>::empty());
        assert(bonds@.subrange(0, 0) =~= Seq::<(MinerId, u64, u64)>::empty());
        assert(data@ =~= state_bytes(miners@.subrange(0, 0), bonds@.subrange(0, 0)));
    }
    while i < miners.len()
        invariant
            i <= miners@.len(),
            data@ == state_bytes(miners@.subrange(0, i as int), bonds@.subrange(0, 0)),
        decreases miners@.len() - i,
    {
        let (id, shares, bond) = miners[i];
        append_bytes(&mut data, id.as_slice());
        append_u64_le(&mut data, shares);
        append_u64_le(&mut data, bond);
        proof {
            let m1 = miners@.subrange(0, i + 1);
            assert(m1.drop_last() =~= miners@.subrange(0, i as int));
            assert(m1.last() == miners@[i as int]);
            assert(bonds@.subrange(0, 0).len() == 0);
        }
        i = i + 1;
    }
    proof {
        assert(miners@.subrange(0, i as int) =~= miners@);
    }
    let mut k: usize = 0;
    while k < bonds.len()
        invariant
            k <= bonds@.len(),
            data@ == state_bytes(miners@, bonds@.subrange(0, k as int)),
        decreases bonds@.len() - k,
    {
        let (id, amount, lock) = bonds[k];
        append_bytes(&mut data, id.as_slice());
        append_u64_le(&mut data, amount);
        append_u64_le(&mut data, lock);
        proof {
            let b1 = bonds@.subrange(0, k + 1);
            assert(b1.drop_last() =~= bonds@.subrange(0, k as int));
            assert(b1.last() == bonds@[k as int]);
        }
        k = k + 1;
    }
    proof {
        assert(miners@.subrange(0, miners@.len() as int) =~= miners@);
        assert(bonds@.subrange(0, k as int) =~= bonds@);
    }
    sha256(data.as_slice())
}

/// An entry of the state: a miner's identity and two counters (shares and
/// bond for a miner, amount and lock height for a bond).
pub type StateEntry = (MinerId, u64, u64);

/// The number by which entries are ordered: the identity read big-endian,
/// then the first counter, then the second.
pub open spec fn entry_key(e: StateEntry) -> nat {
    be_value(e.0@) * 0x1_0000_0000_0000_0000_0000_0000_0000_0000nat + e.1 as nat * 0x1_0000_0000_0000_0000nat
        + e.2 as nat
}

/// The order of entries by `entry_key`.
pub open spec fn entry_leq() -> spec_fn(StateEntry, StateEntry) -> bool {
    |a: StateEntry, b: StateEntry| entry_key(a) <= entry_key(b)
}

/// The entries in ascending order of `entry_key`.
pub open spec fn canonical(s: Seq<StateEntry>) -> Seq<StateEntry> {
    s.sort_by(entry_leq())
}

/// An identity that spells a smaller number gives a smaller key; with
/// equal identities the keys compare as the counters do.
proof fn lemma_entry_key_order(x: StateEntry, y: StateEntry)
    ensures
        be_value(x.0@) < be_value(y.0@) ==> entry_key(x) < entry_key(y),
        be_value(x.0@) == be_value(y.0@) ==> (entry_key(x) <= entry_key(y) <==> (x.1 < y.1 || (x.1
            == y.1 && x.2 <= y.2))),
        entry_key(x) == entry_key(y) ==> x == y,
{
    let p: int = 0x1_0000_0000_0000_0000int;
    let pp: int = 0x1_0000_0000_0000_0000_0000_0000_0000_0000int;
    let bx = be_value(x.0@) as int;
    let by = be_value(y.0@) as int;
    let sx = x.1 as int;
    let sy = y.1 as int;
    let tx = x.2 as int;
    let ty = y.2 as int;
    assert(pp == p * p);
    assert(bx < by ==> bx * pp + sx * p + tx < by * pp + sy * p + ty) by (nonlinear_arith)
        requires
            pp == p * p,
            0 <= sx < p,
            0 <= tx < p,
            0 <= sy,
            0 <= ty,
            0 <= bx,
    ;
    assert(sx < sy ==> sx * p + tx < sy * p + ty) by (nonlinear_arith)
        requires
            0 <= tx < p,
            0 <= ty,
    ;
    assert(sy < sx ==> sy * p + ty < sx * p + tx) by (nonlinear_arith)
        requires
            0 <= ty < p,
            0 <= tx,
    ;
    assert(by < bx ==> by * pp + sy * p + ty < bx * pp + sx * p + tx) by (nonlinear_arith)
        requires
            pp == p * p,
            0 <= sy < p,
            0 <= ty < p,
            0 <= sx,
            0 <= tx,
            0 <= by,
    ;
    if entry_key(x) == entry_key(y) {
        lemma_be_value_injective(x.0@, y.0@);
        assert(x.0 =~= y.0);
    }
}

/// `entry_leq` is a total order.
pub proof fn lemma_entry_order_total()
    ensures
        total_ordering(entry_leq()),
{
    assert forall|x: StateEntry, y: StateEntry|
        #[trigger] (entry_leq())(x, y) && #[trigger] (entry_leq())(y, x) implies x == y by {
        lemma_entry_key_order(x, y);
    }
}

/// Whether `a` comes no later than `b` in the order of `entry_key`.
fn entry_le(a: &StateEntry, b: &StateEntry) -> (res: bool)
    ensures
        res == (entry_key(*a) <= entry_key(*b)),
{
    proof {
        lemma_entry_key_order(*a, *b);
        lemma_entry_key_order(*b, *a);
    }
    let mut i: usize = 0;
    while i < 20
        invariant
            i <= 20,
            a.0@.subrange(0, i as int) == b.0@.subrange(0, i as int),
        decreases 20 - i,
    {
        if a.0[i] != b.0[i] {
            proof {
                if a.0[i as int] < b.0[i as int] {
                    lemma_be_value_first_difference(a.0@, b.0@, i as int);
                } else {
                    lemma_be_value_first_difference(b.0@, a.0@, i as int);
                }
            }
            return a.0[i] < b.0[i];
        }
        proof {
            assert(a.0@.subrange(0, i + 1) =~= a.0@.subrange(0, i as int).push(a.0@[i as int]));
            assert(b.0@.subrange(0, i + 1) =~= b.0@.subrange(0, i as int).push(b.0@[i as int]));
        }
        i = i + 1;
    }
    proof {
        assert(a.0@ =~= a.0@.subrange(0, 20));
        assert(b.0@ =~= b.0@.subrange(0, 20));
    }
    a.1 < b.1 || (a.1 == b.1 && a.2 <= b.2)
}

/// The entries sorted by `entry_key` (see `canonical`).
fn sort_entries(v: &[StateEntry]) -> (res: Vec<StateEntry>)
    ensures
        res@ == canonical(v@),
{
    broadcast use vstd::seq_lib::to_multiset_insert;

    proof {
        lemma_entry_order_total();
    }
    let mut out: Vec<StateEntry> = Vec::new();
    let mut i: usize = 0;
    proof {
        assert(v@.subrange(0, 0) =~= Seq::<StateEntry>::empty());
        assert(out@ =~= Seq::<StateEntry>::empty());
    }
    while i < v.len()
        invariant
            i <= v@.len(),
            total_ordering(entry_leq()),
            sorted_by(out@, entry_leq()),
            out@.to_multiset() == v@.subrange(0, i as int).to_multiset(),
        decreases v@.len() - i,
    {
        let x = v[i];
        let mut j: usize = 0;
        while j < out.len() && entry_le(&out[j], &x)
            invariant
                j <= out@.len(),
                forall|k: int| 0 <= k < j ==> entry_key(out@[k]) <= entry_key(x),
            decreases out@.len() - j,
        {
            j = j + 1;
        }
        let ghost before = out@;
        out.insert(j, x);
        proof {
            assert(out@ == before.insert(j as int, x));
            assert(sorted_by(out@, entry_leq())) by {
                assert forall|a: int, b: int| 0 <= a < b < out@.len() implies #[trigger] (entry_leq())(
                    out@[a],
                    out@[b],
                ) by {
                    if b < j {
                        assert(out@[a] == before[a] && out@[b] == before[b]);
                        assert((entry_leq())(before[a], before[b]));
                    } else if b == j {
                        assert(out@[a] == before[a]);
                    } else if a < j {
                        assert(out@[a] == before[a] && out@[b] == before[b - 1]);
                        if a < b - 1 {
                            assert((entry_leq())(before[a], before[b - 1]));
                        }
                    } else if a == j {
                        assert(out@[b] == before[b - 1]);
                        assert(entry_key(before[j as int]) > entry_key(x));
                        if b - 1 > j {
                            assert((entry_leq())(before[j as int], before[b - 1]));
                        }
                    } else {
                        assert(out@[a] == before[a - 1] && out@[b] == before[b - 1]);
                        assert((entry_leq())(before[a - 1], before[b - 1]));
                    }
                }
            }
            let p = v@.subrange(0, i as int);
            assert(v@.subrange(0, i + 1) =~= p.push(x));
            vstd::seq_lib::to_multiset_insert(before, j as int, x);
            assert(p.push(x).to_multiset() == p.to_multiset().insert(x)) by {
                broadcast use vstd::seq_lib::to_multiset_build;

            }
        }
        i = i + 1;
    }
    proof {
        assert(v@.subrange(0, i as int) =~= v@);
        v@.lemma_sort_by_ensures(entry_leq());
        vstd::seq_lib::lemma_sorted_unique(out@, canonical(v@), entry_leq());
    }
    out
}

/// The state root: SHA-256 of `state_bytes` over the miners and the bonds,
/// each in ascending order of `entry_key`, so that it depends on the state
/// alone and not on the order in which the entries are handed over.
pub fn state_root(miners: &[StateEntry], bonds: &[StateEntry]) -> (res: Hash32)
    ensures
        res@ == sha256_digest(state_bytes(canonical(miners@), canonical(bonds@))),
{
    let m = sort_entries(miners);
    let b = sort_entries(bonds);
    state_digest(m.as_slice(), b.as_slice())
}

/// The state root depends on the state alone: miners and bonds with the
/// same entries, in any order, give the same root.
pub proof fn lemma_state_root_ignores_order(
    miners1: Seq<StateEntry>,
    miners2: Seq<StateEntry>,
    bonds1: Seq<StateEntry>,
    bonds2: Seq<StateEntry>,
)
    requires
        miners1.to_multiset() == miners2.to_multiset(),
        bonds1.to_multiset() == bonds2.to_multiset(),
    ensures
        state_bytes(canonical(miners1), canonical(bonds1)) == state_bytes(
            canonical(miners2),
            canonical(bonds2),
        ),
{
    lemma_entry_order_total();
    miners1.lemma_sort_by_ensures(entry_leq());
    miners2.lemma_sort_by_ensures(entry_leq());
    bonds1.lemma_sort_by_ensures(entry_leq());
    bonds2.lemma_sort_by_ensures(entry_leq());
    vstd::seq_lib::lemma_sorted_unique(canonical(miners1), canonical(miners2), entry_leq());
    vstd::seq_lib::lemma_sorted_unique(canonical(bonds1), canonical(bonds2), entry_leq());
}

/// The digest a checkpoint's signature covers: SHA-256 of the
/// little-endian height, the block hash and the state root.
pub fn checkpoint_message(height: Height, block_hash: &Hash32, state_root: &Hash32) -> (res: [u8; 32])
    ensures
        res@ == sha256_digest(spec_u64_to_le_bytes(height) + block_hash@ + state_root@),
{
    let mut data: Vec<u8> = Vec::new();
    append_u64_le(&mut data, height);
    append_bytes(&mut data, block_hash.as_slice());
    append_bytes(&mut data, state_root.as_slice());
    sha256(data.as_slice())
}

/// The script an address pays to: the pay-to-key-hash script of bytes 1
/// to 20 of its 25 decoded bytes; none when it does not decode to 25 bytes.
pub open spec fn address_script(address: Seq<char>) -> Option<Seq<u8>> {
    match base58_bytes(address) {
        Some(d) => if d.len() == 25 {
            Some(p2pkh_script(d.subrange(1, 21)))
        } else {
            None
        },
        None => None,
    }
}

/// Outputs paid to a well-formed wallet's address are locked to the
/// wallet's miner identity: the address's script is the pay-to-key-hash
/// script of that identity.
pub proof fn lemma_wallet_address_pays_miner(w: Wallet)
    requires
        w.wf(),
    ensures
        address_script(w.address@) == Some(p2pkh_script(w.miner_id@)),
{
    let payload = crate::wallet::address_payload(w.miner_id@);
    assert(payload.subrange(1, 21) =~= w.miner_id@);
}

/// The outcome of the nonce search is sound: a nonce it reports as meeting
/// the difficulty has a hash that does, and any best hash other than the
/// initial 0xFF bytes is the proof-of-work hash of the header with the best
/// nonce and meets the share target.
pub proof fn lemma_nonce_search_sound(h: BlockHeader, n: nat)
    ensures
        ({
            let (nonce, hash, found) = nonce_search(h, n);
            &&& found ==> be_value(hash) < be_value(h.difficulty.0@)
            &&& (found || hash != Seq::new(32, |i: int| 0xFFu8)) ==> {
                &&& hash == pow_hash(header_encoding(BlockHeader { nonce, ..h }))
                &&& be_value(hash) < scaled_value(
                    be_value(h.difficulty.0@),
                    SHARE_DIFFICULTY_RATIO as nat,
                )
            }
        }),
    decreases n,
{
    if n > 0 {
        lemma_nonce_search_sound(h, (n - 1) as nat);
        let prev = nonce_search(h, (n - 1) as nat);
        let nonce = (n - 1) as u64;
        let hash = pow_hash(header_encoding(BlockHeader { nonce, ..h }));
        let t = be_value(h.difficulty.0@);
        if !prev.2 && passes(header_encoding(h), nonce, prefilter_bytes(h.difficulty)) && be_value(hash)
            <= t {
            assert(t <= scaled_value(t, SHARE_DIFFICULTY_RATIO as nat)) by {
                crate::bignum::lemma_be_value_bound(h.difficulty.0@);
                assert(t * 256 >= t) by (nonlinear_arith);
            }
        }
    }
}

/// Nonce `k` passes the prefilter of the header `h` and its proof-of-work
/// hash meets the header's difficulty.
pub open spec fn nonce_meets(h: BlockHeader, k: nat) -> bool {
    &&& passes(header_encoding(h), k as u64, prefilter_bytes(h.difficulty))
    &&& be_value(pow_hash(header_encoding(BlockHeader { nonce: k as u64, ..h }))) < be_value(
        h.difficulty.0@,
    )
}

/// The search over the nonces below `n` reports a block exactly when one of
/// them meets the difficulty (see `nonce_meets`), and then reports the
/// first such nonce.
pub proof fn lemma_nonce_search_finds_first(h: BlockHeader, n: nat)
    requires
        n <= u64::MAX,
    ensures
        nonce_search(h, n).2 <==> exists|k: nat| k < n && #[trigger] nonce_meets(h, k),
        nonce_search(h, n).2 ==> {
            &&& nonce_search(h, n).0 < n
            &&& nonce_meets(h, nonce_search(h, n).0 as nat)
            &&& forall|k: nat| k < nonce_search(h, n).0 ==> !#[trigger] nonce_meets(h, k)
        },
    decreases n,
{
    if n > 0 {
        let m = (n - 1) as nat;
        lemma_nonce_search_finds_first(h, m);
        let prev = nonce_search(h, m);
        if !prev.2 {
            assert(((n - 1) as u64) as nat == m);
            if !nonce_meets(h, m) {
                assert forall|k: nat| k < n implies !#[trigger] nonce_meets(h, k) by {
                    if k < m {
                        assert(!(k < m && nonce_meets(h, k)));
                    }
                }
            }
        }
    }
}

/// Nonce `k` passes the prefilter of the header `h` and its proof-of-work
/// hash meets the share target derived from the header's difficulty.
pub open spec fn nonce_meets_share(h: BlockHeader, k: nat) -> bool {
    &&& passes(header_encoding(h), k as u64, prefilter_bytes(h.difficulty))
    &&& be_value(pow_hash(header_encoding(BlockHeader { nonce: k as u64, ..h }))) < scaled_value(
        be_value(h.difficulty.0@),
        SHARE_DIFFICULTY_RATIO as nat,
    )
}

/// When no nonce below `n` meets the difficulty, the search keeps the best
/// hash: it is no greater than the hash of any nonce below `n` that passes
/// the prefilter and meets the share target, and when one does, it is the
/// hash of such a nonce, the first that reaches that least value.
pub proof fn lemma_nonce_search_keeps_best(h: BlockHeader, n: nat)
    requires
        n <= u64::MAX,
    ensures
        !nonce_search(h, n).2 ==> forall|k: nat|
            k < n && #[trigger] nonce_meets_share(h, k) ==> be_value(nonce_search(h, n).1) <= be_value(
                pow_hash(header_encoding(BlockHeader { nonce: k as u64, ..h })),
            ),
        !nonce_search(h, n).2 && (exists|k: nat| k < n && #[trigger] nonce_meets_share(h, k)) ==> {
            let (nonce, hash, _) = nonce_search(h, n);
            &&& nonce < n
            &&& nonce_meets_share(h, nonce as nat)
            &&& hash == pow_hash(header_encoding(BlockHeader { nonce, ..h }))
            &&& forall|k: nat|
                k < nonce && #[trigger] nonce_meets_share(h, k) ==> be_value(hash) < be_value(
                    pow_hash(header_encoding(BlockHeader { nonce: k as u64, ..h })),
                )
        },
        !nonce_search(h, n).2 && !(exists|k: nat| k < n && #[trigger] nonce_meets_share(h, k)) ==> nonce_search(
            h,
            n,
        ).1 == Seq::new(32, |i: int| 0xFFu8),
    decreases n,
{
    if n == 0 {
        return;
    }
    let m = (n - 1) as nat;
    lemma_nonce_search_keeps_best(h, m);
    let prev = nonce_search(h, m);
    assert(((n - 1) as u64) as nat == m);
    if prev.2 {
        return;
    }
    let cur = nonce_search(h, n);
    if cur.2 {
        return;
    }
    let hm = pow_hash(header_encoding(BlockHeader { nonce: m as u64, ..h }));
    if !(exists|k: nat| k < m && #[trigger] nonce_meets_share(h, k)) {
        let ff = Seq::new(32, |i: int| 0xFFu8);
        crate::target::lemma_all_ff_value(ff);
    }
    if !(exists|k: nat| k < n && #[trigger] nonce_meets_share(h, k)) {
        assert(!nonce_meets_share(h, m));
        assert(!(exists|k: nat| k < m && #[trigger] nonce_meets_share(h, k))) by {
            if exists|k: nat| k < m && #[trigger] nonce_meets_share(h, k) {
                let k = choose|k: nat| k < m && #[trigger] nonce_meets_share(h, k);
                assert(k < n && nonce_meets_share(h, k));
            }
        }
    }
    assert forall|k: nat| k < n && #[trigger] nonce_meets_share(h, k) implies be_value(cur.1) <= be_value(
        pow_hash(header_encoding(BlockHeader { nonce: k as u64, ..h })),
    ) by {
        if k < m {
        } else {
            assert(k == m);
        }
    }
}

/// The payments of the positive rewards, in order: each to the
/// pay-to-key-hash script of its miner, with its amount.
pub open spec fn miner_payments(rewards: Seq<(MinerId, u64)>) -> Seq<(Seq<u8>, u64)>
    decreases rewards.len(),
{
    if rewards.len() == 0 {
        Seq::empty()
    } else if rewards.last().1 > 0 {
        miner_payments(rewards.drop_last()).push((p2pkh_script(rewards.last().0@), rewards.last().1))
    } else {
        miner_payments(rewards.drop_last())
    }
}

/// The coinbase payments of a mined block: each miner's positive reward to
/// that miner's pay-to-key-hash script, then the block reward to the
/// address's script when there is an address with a script.
pub open spec fn reward_payments(rewards: Seq<(MinerId, u64)>, address: Option<Seq<char>>) -> Seq<(Seq<u8>, u64)> {
    let block = match address {
        Some(a) => match address_script(a) {
            Some(s) => seq![(s, BLOCK_REWARD_LYT)],
            None => Seq::empty(),
        },
        None => Seq::empty(),
    };
    miner_payments(rewards) + block
}

/// An output of `value` to the pay-to-key-hash script of `miner_id`.
fn miner_output(miner_id: &MinerId, value: u64) -> (res: TxOut)
    ensures
        res.value == value,
        res.script_pubkey@ == p2pkh_script(miner_id@),
{
    let mut script: Vec<u8> = vec![0x76u8, 0xA9u8, 0x14u8];
    append_bytes(&mut script, miner_id.as_slice());
    let tail: Vec<u8> = vec![0x88u8, 0xACu8];
    append_bytes(&mut script, tail.as_slice());
    proof {
        assert(script@ =~= p2pkh_script(miner_id@));
    }
    TxOut { value, script_pubkey: script }
}

/// The coinbase outputs of a mined block (see `reward_payments`).
pub fn reward_outputs(rewards: &[(MinerId, u64)], address: Option<&str>) -> (res: Vec<TxOut>)
    ensures
        ({
            let pay = reward_payments(rewards@, match address {
                Some(a) => Some(a@),
                None => None,
            });
            &&& res@.len() == pay.len()
            &&& forall|i: int| 0 <= i < res@.len() ==> {
                &&& (#[trigger] res@[i]).value == pay[i].1
                &&& res@[i].script_pubkey@ == pay[i].0
            }
        }),
{
    let mut outs: Vec<TxOut> = Vec::new();
    let mut i: usize = 0;
    proof {
        assert(rewards@.subrange(0, 0) =~= Seq::<(MinerId, u64)>::empty());
    }
    while i < rewards.len()
        invariant
            i <= rewards@.len(),
            outs@.len() == miner_payments(rewards@.subrange(0, i as int)).len(),
            forall|k: int| 0 <= k < outs@.len() ==> {
                &&& (#[trigger] outs@[k]).value == miner_payments(rewards@.subrange(0, i as int))[k].1
                &&& outs@[k].script_pubkey@ == miner_payments(rewards@.subrange(0, i as int))[k].0
            },
        decreases rewards@.len() - i,
    {
        let (m, r) = rewards[i];
        proof {
            let p1 = rewards@.subrange(0, i + 1);
            assert(p1.drop_last() =~= rewards@.subrange(0, i as int));
            assert(p1.last() == (m, r));
        }
        if r > 0 {
            let out = miner_output(&m, r);
            outs.push(out);
        }
        i = i + 1;
    }
    proof {
        assert(rewards@.subrange(0, i as int) =~= rewards@);
    }
    let ghost mp = miner_payments(rewards@);
    match address {
        Some(a) => match TxOut::create_p2pkh(a) {
            Ok(out) => {
                let mut out = out;
                out.value = BLOCK_REWARD_LYT;
                outs.push(out);
            },
            Err(_) => {},
        },
        None => {},
    }
    outs
}

/// How many of the transactions with serialized sizes `sizes` fit in a
/// block after a coinbase of `base` bytes, taken in order up to the first
/// that would push the total over 1,000,000 bytes.
pub open spec fn fill_count(base: int, sizes: Seq<usize>) -> nat
    decreases sizes.len(),
{
    if sizes.len() == 0 || base + sizes[0] > 1_000_000 {
        0
    } else {
        1 + fill_count(base + sizes[0], sizes.drop_first())
    }
}

/// How many transactions fit in a block (see `fill_count`).
pub fn block_fill(base: usize, sizes: &[usize]) -> (res: usize)
    ensures
        res == fill_count(base as int, sizes@),
{
    let mut total: u128 = base as u128;
    let mut i: usize = 0;
    proof {
        assert(sizes@.subrange(0, sizes@.len() as int) =~= sizes@);
    }
    while i < sizes.len()
        invariant
            i <= sizes@.len(),
            total <= base + 1_000_000,
            fill_count(base as int, sizes@) == i + fill_count(total as int, sizes@.subrange(i as int, sizes@.len() as int)),
        decreases sizes@.len() - i,
    {
        let sz = sizes[i] as u128;
        proof {
            let rest = sizes@.subrange(i as int, sizes@.len() as int);
            assert(rest[0] == sizes@[i as int]);
            assert(rest.drop_first() =~= sizes@.subrange(i + 1, sizes@.len() as int));
        }
        if total + sz > 1_000_000 {
            return i;
        }
        total = total + sz;
        i = i + 1;
    }
    proof {
        assert(sizes@.subrange(i as int, sizes@.len() as int).len() == 0);
    }
    i
}

/// Whether to try mining at `now`: a minute has passed since the last
/// block, when there is one, and at least ten shares are pooled.
pub fn mining_due(last_timestamp: Option<Timestamp>, now: Timestamp, pooled_shares: u64) -> (res: bool)
    requires
        last_timestamp matches Some(t) ==> now >= t,
    ensures
        res == ((match last_timestamp {
            Some(t) => now - t >= TARGET_BLOCK_TIME,
            None => true,
        }) && pooled_shares >= 10),
{
    if let Some(t) = last_timestamp {
        if now - t < TARGET_BLOCK_TIME {
            return false;
        }
    }
    pooled_shares >= 10
}

/// What a wallet's signature of `message` is: present exactly when its
/// secret key is a valid 32-byte key.
pub open spec fn wallet_signature(w: Wallet, message: Seq<u8>) -> Option<Seq<u8>> {
    if w.secret_key@.len() == 32 && secp256k1_public_of(w.secret_key@) is Some {
        Some(ecdsa_signature(w.secret_key@, message))
    } else {
        None
    }
}

/// The optional bytes of an optional byte string.
pub open spec fn opt_bytes(v: Option<Vec<u8>>) -> Option<Seq<u8>> {
    match v {
        Some(x) => Some(x@),
        None => None,
    }
}

fn copy_bytes(v: &Vec<u8>) -> (res: Vec<u8>)
    ensures
        res@ == v@,
{
    let mut out: Vec<u8> = Vec::new();
    append_bytes(&mut out, v.as_slice());
    out
}

/// The genesis block as a node first writes it, at `now`: the genesis
/// header with its coinbase's id as merkle root, the coinbase alone, and,
/// with a wallet, its signature of the header's hash (when it can sign)
/// and its public key. Also the header's hash and the coinbase's id.
pub fn build_genesis(wallet: Option<&Wallet>, argon2: &mut Argon2Cache, now: Timestamp) -> (res: (
    Block,
    Hash32,
    Hash32,
))
    ensures
        ({
            let (block, hash, txid) = res;
            &&& block.transactions@.len() == 1
            &&& txid@ == txid_of(block.transactions@[0])
            &&& block.header.merkle_root == txid
            &&& block.header.version == 1
            &&& block.header.prev_hash@ == Seq::new(32, |i: int| 0u8)
            &&& block.header.timestamp == GENESIS_TIMESTAMP
            &&& is_genesis_target(block.header.difficulty)
            &&& block.header.nonce == 0
            &&& block.header.epoch_index == 1
            &&& block.transactions@[0].outputs@.len() == 1
            &&& block.transactions@[0].outputs@[0].value == 500_000_000
            &&& block.transactions@[0].outputs@[0].script_pubkey@ == genesis_script()
            &&& hash@ == pow_hash(header_encoding(block.header))
            &&& match wallet {
                Some(w) => opt_bytes(block.signature) == wallet_signature(*w, sha256_digest(hash@)) && opt_bytes(
                    block.pubkey,
                ) == Some(w.public_key@),
                None => block.signature is None && block.pubkey is None,
            }
        }),
{
    let (header, coinbase) = create_genesis_block();
    let txid = coinbase.txid(argon2);
    let mut header = header;
    header.merkle_root = txid;
    let hash = header.hash(argon2, now);
    let (signature, pubkey) = match wallet {
        Some(w) => {
            let sig = match w.sign_block(&hash) {
                Ok(sig) => Some(sig),
                Err(_) => None,
            };
            (sig, Some(copy_bytes(&w.public_key)))
        },
        None => (None, None),
    };
    let mut transactions: Vec<Transaction> = Vec::new();
    transactions.push(coinbase);
    (Block { header, transactions, signature, pubkey }, hash, txid)
}

/// What checking the stored genesis block finds.
pub enum GenesisCheck {
    Missing,
    NoSignature,
    NoPublicKey,
    Invalid,
    Valid,
}

/// What checking the looked-up genesis block at `now` finds: missing when
/// the lookup failed or found nothing; then whether it carries a signature
/// and a public key; then whether the signature verifies (see
/// `Wallet::verify_signature`) for its header's hash.
pub open spec fn genesis_check_of(lookup: Result<Option<Block>, String>) -> GenesisCheck {
    match lookup {
        Ok(Some(b)) => match b.signature {
            None => GenesisCheck::NoSignature,
            Some(sig) => match b.pubkey {
                None => GenesisCheck::NoPublicKey,
                Some(pk) => if (pk@.len() == 33 || pk@.len() == 65) && ecdsa_verifies(
                    pk@,
                    sig@,
                    sha256_digest(pow_hash(header_encoding(b.header))),
                ) {
                    GenesisCheck::Valid
                } else {
                    GenesisCheck::Invalid
                },
            },
        },
        _ => GenesisCheck::Missing,
    }
}

/// Checks the looked-up genesis block (see `genesis_check_of`).
pub fn check_genesis(lookup: &Result<Option<Block>, String>, now: Timestamp) -> (res: GenesisCheck)
    ensures
        res == genesis_check_of(*lookup),
{
    let block = match lookup {
        Ok(Some(b)) => b,
        _ => {
            return GenesisCheck::Missing;
        },
    };
    let sig = match &block.signature {
        Some(s) => s,
        None => {
            return GenesisCheck::NoSignature;
        },
    };
    let pk = match &block.pubkey {
        Some(p) => p,
        None => {
            return GenesisCheck::NoPublicKey;
        },
    };
    let mut argon2 = Argon2Cache::new(100);
    let hash = block.header.hash(&mut argon2, now);
    if Wallet::verify_signature(pk.as_slice(), sig.as_slice(), hash.as_slice()) {
        GenesisCheck::Valid
    } else {
        GenesisCheck::Invalid
    }
}

/// A checkpoint: a height, its block's hash, the state root, when it was
/// made, and a signature over them.
pub struct Checkpoint {
    pub height: Height,
    pub block_hash: Hash32,
    pub state_root: Hash32,
    pub timestamp: Timestamp,
    pub signature: Vec<u8>,
    pub verified: bool,
}

impl Checkpoint {
    /// A checkpoint at `now` of the block at `height`, signed by the wallet
    /// over `checkpoint_message` when there is one that can sign, else with
    /// an empty signature; not verified.
    pub fn create(
        height: Height,
        block_hash: Hash32,
        state_root: Hash32,
        wallet: Option<&Wallet>,
        now: Timestamp,
    ) -> (res: Self)
        ensures
            res.height == height,
            res.block_hash == block_hash,
            res.state_root == state_root,
            res.timestamp == now,
            !res.verified,
            ({
                let msg = sha256_digest(spec_u64_to_le_bytes(height) + block_hash@ + state_root@);
                res.signature@ == match wallet {
                    Some(w) => match wallet_signature(*w, msg) {
                        Some(sig) => sig,
                        None => Seq::empty(),
                    },
                    None => Seq::empty(),
                }
            }),
    {
        let signature = match wallet {
            Some(w) => {
                let message = checkpoint_message(height, &block_hash, &state_root);
                match w.sign(&message) {
                    Ok(sig) => sig,
                    Err(_) => Vec::new(),
                }
            },
            None => Vec::new(),
        };
        Checkpoint { height, block_hash, state_root, timestamp: now, signature, verified: false }
    }
}

/// Keeps a new checkpoint: it is appended, and the oldest is dropped when
/// more than `max` are kept.
pub fn keep_checkpoint(list: &mut Vec<Checkpoint>, checkpoint: Checkpoint, max: usize)
    ensures
        ({
            let added = old(list)@.push(checkpoint);
            final(list)@ == if added.len() > max {
                added.drop_first()
            } else {
                added
            }
        }),
{
    list.push(checkpoint);
    if list.len() > max {
        list.remove(0);
    }
}

/// Position `a` comes before position `b` in fee order: a higher fee, or
/// the same fee and an earlier index.
pub open spec fn fee_before(fees: Seq<u64>, a: usize, b: usize) -> bool {
    fees[a as int] > fees[b as int] || (fees[a as int] == fees[b as int] && a < b)
}

/// `order` lists each index of `fees` once, highest fee first, equal fees
/// in the order they came.
pub open spec fn is_fee_order(fees: Seq<u64>, order: Seq<usize>) -> bool {
    &&& order.len() == fees.len()
    &&& forall|k: int| 0 <= k < order.len() ==> (#[trigger] order[k]) < fees.len()
    &&& forall|a: int, b: int| 0 <= a < b < order.len() ==> fee_before(fees, #[trigger] order[a], #[trigger] order[b])
}

/// The order in which to keep transactions with fees `fees`: by fee,
/// highest first, a stable order (see `is_fee_order`).
pub fn fee_order(fees: &[u64]) -> (res: Vec<usize>)
    ensures
        is_fee_order(fees@, res@),
{
    let mut out: Vec<usize> = Vec::new();
    let mut i: usize = 0;
    while i < fees.len()
        invariant
            i <= fees@.len(),
            out@.len() == i,
            forall|k: int| 0 <= k < out@.len() ==> (#[trigger] out@[k]) < i,
            forall|a: int, b: int| 0 <= a < b < out@.len() ==> fee_before(fees@, #[trigger] out@[a], #[trigger] out@[b]),
        decreases fees@.len() - i,
    {
        let f = fees[i];
        let mut j: usize = 0;
        while j < out.len() && fees[out[j]] >= f
            invariant
                i < fees@.len(),
                j <= out@.len(),
                forall|k: int| 0 <= k < out@.len() ==> (#[trigger] out@[k]) < i,
                forall|k: int| 0 <= k < j ==> fees@[#[trigger] out@[k] as int] >= f,
            decreases out@.len() - j,
        {
            j = j + 1;
        }
        let ghost before = out@;
        out.insert(j, i);
        proof {
            assert(out@ == before.insert(j as int, i));
            assert forall|a: int, b: int| 0 <= a < b < out@.len() implies fee_before(
                fees@,
                #[trigger] out@[a],
                #[trigger] out@[b],
            ) by {
                if b < j {
                    assert(out@[a] == before[a] && out@[b] == before[b]);
                } else if b == j {
                    assert(out@[a] == before[a]);
                    assert(fees@[before[a] as int] >= f);
                    assert(before[a] < i);
                } else if a < j {
                    assert(out@[a] == before[a] && out@[b] == before[b - 1]);
                    if a < b - 1 {
                        assert(fee_before(fees@, before[a], before[b - 1]));
                    }
                } else if a == j {
                    assert(out@[b] == before[b - 1]);
                    assert(fees@[before[j as int] as int] < f);
                    if b - 1 > j {
                        assert(fee_before(fees@, before[j as int], before[b - 1]));
                    }
                } else {
                    assert(out@[a] == before[a - 1] && out@[b] == before[b - 1]);
                    assert(fee_before(fees@, before[a - 1], before[b - 1]));
                }
            }
            assert forall|k: int| 0 <= k < out@.len() implies (#[trigger] out@[k]) < i + 1 by {
                if k < j {
                    assert(out@[k] == before[k]);
                } else if k > j {
                    assert(out@[k] == before[k - 1]);
                }
            }
        }
        i = i + 1;
    }
    out
}

/// Whether a backup is due at `height`: a positive multiple of the backup
/// interval.
pub fn backup_due(height: Height, interval_blocks: u64) -> (res: bool)
    requires
        interval_blocks > 0,
    ensures
        res == (height % interval_blocks == 0 && height > 0),
{
    height % interval_blocks == 0 && height > 0
}

/// How many of the oldest of `count` backups to remove so that `keep` remain.
pub fn backups_to_remove(count: usize, keep: usize) -> (res: usize)
    ensures
        res == if count > keep {
            count - keep
        } else {
            0
        },
{
    if count > keep {
        count - keep
    } else {
        0
    }
}

} // verus!
