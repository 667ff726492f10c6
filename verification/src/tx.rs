//! Transactions: outputs and their locking scripts, inputs and their
//! signature scripts, the transaction encodings that are hashed into ids and
//! signature digests, and the rules a transaction must meet.

use vstd::prelude::*;

use vstd::bytes::{spec_u32_to_le_bytes, spec_u64_to_le_bytes};

use crate::crypto::{
    base58_decode, base58_bytes, base58_encode, ecdsa_verifies, ripemd160, ripemd160_digest,
    secp256k1_compress, secp256k1_compressed, secp256k1_public_of, secp256k1_verify, sha256,
    sha256_digest,
};
use crate::encoding::{append_bytes, append_u32_le, append_u64_le, arrays_equal, bytes_equal};
use crate::types::{
    Height, MinerId, OutPoint, Txid, DUST_LIMIT_LYT, MAX_SUPPLY_LYT, OP_BOND,
};
use crate::wallet::{address_of, address_payload, miner_id_of, Wallet};

verus! {

/// An output: an amount and the script that locks it.
#[derive(Clone, Debug)]
pub struct TxOut {
    pub value: u64,
    pub script_pubkey: Vec<u8>,
}

/// An input: the output it spends and the script that unlocks it.
#[derive(Clone, Debug)]
pub struct TxIn {
    pub prev_txid: Txid,
    pub prev_index: u32,
    pub script_sig: Vec<u8>,
    pub sequence: u32,
}

/// A transaction.
#[derive(Clone, Debug)]
pub struct Transaction {
    pub version: u32,
    pub inputs: Vec<TxIn>,
    pub outputs: Vec<TxOut>,
    pub locktime: u32,
}

/// A bond script: 21 bytes, the bond opcode and a miner identity.
pub open spec fn is_bond_script(s: Seq<u8>) -> bool {
    s.len() == 21 && s[0] == OP_BOND
}

/// A pay-to-public-key-hash script: 25 bytes, `76 A9 14`, a 20-byte key
/// hash, `88 AC`.
pub open spec fn is_p2pkh_script(s: Seq<u8>) -> bool {
    &&& s.len() == 25
    &&& s[0] == 0x76
    &&& s[1] == 0xA9
    &&& s[2] == 0x14
    &&& s[23] == 0x88
    &&& s[24] == 0xAC
}

/// The pay-to-public-key-hash script for a 20-byte key hash.
pub open spec fn p2pkh_script(hash: Seq<u8>) -> Seq<u8> {
    seq![0x76u8, 0xA9u8, 0x14u8] + hash + seq![0x88u8, 0xACu8]
}

/// A signature script: an optional leading zero byte, then the signature and
/// the public key, each after a one-byte length.
pub open spec fn script_sig_layout(lead: bool, sig: Seq<u8>, key: Seq<u8>) -> Seq<u8> {
    (if lead {
        seq![0u8]
    } else {
        Seq::<u8>::empty()
    }) + seq![sig.len() as u8] + sig + seq![key.len() as u8] + key
}

/// The bytes of one input in a transaction encoding; with `blank`, its
/// script is written as empty (length zero, no bytes).
pub open spec fn input_encoding(input: TxIn, blank: bool) -> Seq<u8> {
    input.prev_txid@ + spec_u32_to_le_bytes(input.prev_index) + (if blank {
        spec_u32_to_le_bytes(0)
    } else {
        spec_u32_to_le_bytes(input.script_sig@.len() as u32) + input.script_sig@
    }) + spec_u32_to_le_bytes(input.sequence)
}

/// The bytes of the inputs, every script blanked when `blank`.
pub open spec fn inputs_encoding(inputs: Seq<TxIn>, blank: bool) -> Seq<u8>
    decreases inputs.len(),
{
    if inputs.len() == 0 {
        Seq::<u8>::empty()
    } else {
        inputs_encoding(inputs.drop_last(), blank) + input_encoding(inputs.last(), blank)
    }
}

/// The bytes of one output in a transaction encoding.
pub open spec fn output_encoding(output: TxOut) -> Seq<u8> {
    spec_u64_to_le_bytes(output.value) + spec_u32_to_le_bytes(output.script_pubkey@.len() as u32)
        + output.script_pubkey@
}

/// The bytes of the outputs.
pub open spec fn outputs_encoding(outputs: Seq<TxOut>) -> Seq<u8>
    decreases outputs.len(),
{
    if outputs.len() == 0 {
        Seq::<u8>::empty()
    } else {
        outputs_encoding(outputs.drop_last()) + output_encoding(outputs.last())
    }
}

/// The encoding of a transaction: version, input count, inputs, output
/// count, outputs, locktime; every input script blanked when `blank`.
pub open spec fn tx_encoding(tx: Transaction, blank: bool) -> Seq<u8> {
    spec_u32_to_le_bytes(tx.version) + spec_u32_to_le_bytes(tx.inputs@.len() as u32)
        + inputs_encoding(tx.inputs@, blank) + spec_u32_to_le_bytes(tx.outputs@.len() as u32)
        + outputs_encoding(tx.outputs@) + spec_u32_to_le_bytes(tx.locktime)
}

/// The id of a transaction: the double SHA-256 of its encoding.
pub open spec fn txid_of(tx: Transaction) -> Seq<u8> {
    sha256_digest(sha256_digest(tx_encoding(tx, false)))
}

/// The digest every input of a transaction signs: the double SHA-256 of its
/// encoding with every input script blanked, followed by the little-endian
/// word 1. It does not depend on the scripts, so signing one input leaves
/// the digest of the others as it was.
pub open spec fn sighash_of(tx: Transaction) -> Seq<u8> {
    sha256_digest(sha256_digest(tx_encoding(tx, true) + spec_u32_to_le_bytes(1)))
}

/// A coinbase input spends the all-zero id at index 0xFFFFFFFF.
pub open spec fn is_coinbase_input(input: TxIn) -> bool {
    input.prev_txid@ == Seq::new(32, |i: int| 0u8) && input.prev_index == 0xFFFF_FFFF
}

/// A transaction is a coinbase when its only input is a coinbase input.
pub open spec fn is_coinbase_tx(tx: Transaction) -> bool {
    tx.inputs@.len() == 1 && is_coinbase_input(tx.inputs@[0])
}

proof fn lemma_inputs_encoding_step(inputs: Seq<TxIn>, k: int, blank: bool)
    requires
        0 <= k < inputs.len(),
    ensures
        inputs_encoding(inputs.subrange(0, k + 1), blank) == inputs_encoding(
            inputs.subrange(0, k),
            blank,
        ) + input_encoding(inputs[k], blank),
{
    assert(inputs.subrange(0, k + 1).drop_last() =~= inputs.subrange(0, k));
}

proof fn lemma_outputs_encoding_step(outputs: Seq<TxOut>, k: int)
    requires
        0 <= k < outputs.len(),
    ensures
        outputs_encoding(outputs.subrange(0, k + 1)) == outputs_encoding(outputs.subrange(0, k))
            + output_encoding(outputs[k]),
{
    assert(outputs.subrange(0, k + 1).drop_last() =~= outputs.subrange(0, k));
}

impl TxOut {
    /// Whether the output is a bond.
    pub fn is_bond(&self) -> (res: bool)
        ensures
            res == is_bond_script(self.script_pubkey@),
    {
        self.script_pubkey.len() == 21 && self.script_pubkey[0] == OP_BOND
    }

    /// The miner identity a bond output names: its script's bytes 1 to 20.
    pub fn extract_miner_id(&self) -> (res: Option<MinerId>)
        ensures
            match res {
                Some(id) => is_bond_script(self.script_pubkey@) && id@ == self.script_pubkey@.subrange(1, 21),
                None => !is_bond_script(self.script_pubkey@),
            },
    {
        if self.is_bond() && self.script_pubkey.len() >= 21 {
            let mut id = [0u8; 20];
            let mut i: usize = 0;
            while i < 20
                invariant
                    i <= 20,
                    self.script_pubkey@.len() == 21,
                    forall|j: int| 0 <= j < i ==> id@[j] == self.script_pubkey@[j + 1],
                decreases 20 - i,
            {
                id[i] = self.script_pubkey[i + 1];
                i = i + 1;
            }
            proof {
                assert(id@ =~= self.script_pubkey@.subrange(1, 21));
            }
            Some(id)
        } else {
            None
        }
    }

    /// Whether the output is worth less than the dust limit.
    pub fn is_dust(&self) -> (res: bool)
        ensures
            res == (self.value < DUST_LIMIT_LYT),
    {
        self.value < DUST_LIMIT_LYT
    }

    /// Whether the output pays to a public key hash.
    pub fn is_p2pkh(&self) -> (res: bool)
        ensures
            res == is_p2pkh_script(self.script_pubkey@),
    {
        self.script_pubkey.len() == 25 && self.script_pubkey[0] == 0x76 && self.script_pubkey[1]
            == 0xA9 && self.script_pubkey[2] == 0x14 && self.script_pubkey[23] == 0x88
            && self.script_pubkey[24] == 0xAC
    }

    /// The address a pay-to-public-key-hash output pays to.
    pub fn extract_address(&self) -> (res: Option<String>)
        ensures
            match res {
                Some(a) => is_p2pkh_script(self.script_pubkey@) && a@ == address_of(
                    self.script_pubkey@.subrange(3, 23),
                ),
                None => !is_p2pkh_script(self.script_pubkey@),
            },
    {
        if self.is_p2pkh() && self.script_pubkey.len() >= 23 {
            let mut hash = [0u8; 20];
            let mut i: usize = 0;
            while i < 20
                invariant
                    i <= 20,
                    self.script_pubkey@.len() == 25,
                    forall|j: int| 0 <= j < i ==> hash@[j] == self.script_pubkey@[j + 3],
                decreases 20 - i,
            {
                hash[i] = self.script_pubkey[i + 3];
                i = i + 1;
            }
            proof {
                assert(hash@ =~= self.script_pubkey@.subrange(3, 23));
            }
            Some(Wallet::address_from_miner_id(&hash))
        } else {
            None
        }
    }

    /// A zero-valued output paying to the key hash in a Base58 address: the
    /// decoded address must be 25 bytes, and its bytes 1 to 20 are the hash.
    /// The version byte and checksum are not checked.
    pub fn create_p2pkh(address: &str) -> (res: Result<Self, String>)
        ensures
            res is Ok <==> (base58_bytes(address@) matches Some(d) && d.len() == 25),
            res matches Ok(out) ==> out.value == 0 && out.script_pubkey@ == p2pkh_script(
                base58_bytes(address@).unwrap().subrange(1, 21),
            ),
            (base58_bytes(address@) matches Some(d) && d.len() != 25) ==> (res matches Err(e) && e@
                == "Invalid address length"@),
    {
        let decoded = match base58_decode(address) {
            Ok(d) => d,
            Err(e) => return Err(e),
        };
        if decoded.len() != 25 {
            proof {
                reveal_strlit("Invalid address length");
            }
            return Err("Invalid address length".to_string());
        }
        let mut script: Vec<u8> = Vec::new();
        script.push(0x76);
        script.push(0xA9);
        script.push(0x14);
        let pubkey_hash = &decoded.as_slice()[1..21];
        append_bytes(&mut script, pubkey_hash);
        script.push(0x88);
        script.push(0xAC);
        proof {
            assert(script@ =~= p2pkh_script(decoded@.subrange(1, 21)));
        }
        Ok(TxOut { value: 0, script_pubkey: script })
    }

    /// A copy of the output.
    pub fn duplicate(&self) -> (res: Self)
        ensures
            res.value == self.value,
            res.script_pubkey@ == self.script_pubkey@,
    {
        let mut script: Vec<u8> = Vec::new();
        append_bytes(&mut script, self.script_pubkey.as_slice());
        TxOut { value: self.value, script_pubkey: script }
    }
}

} // verus!

verus! {

/// The parts of a signature script: the signature and the public key, when
/// the script has the signature-script layout (its leading zero byte, if
/// any, read as the optional lead).
pub open spec fn script_sig_parts(s: Seq<u8>) -> Option<(Seq<u8>, Seq<u8>)> {
    if exists|p: (Seq<u8>, Seq<u8>)|
        p.0.len() < 256 && p.1.len() < 256 && s == script_sig_layout(
            s.len() > 0 && s[0] == 0,
            p.0,
            p.1,
        ) {
        Some(
            choose|p: (Seq<u8>, Seq<u8>)|
                p.0.len() < 256 && p.1.len() < 256 && s == script_sig_layout(
                    s.len() > 0 && s[0] == 0,
                    p.0,
                    p.1,
                ),
        )
    } else {
        None
    }
}

proof fn lemma_layout_shape(lead: bool, sig: Seq<u8>, key: Seq<u8>)
    requires
        sig.len() < 256,
        key.len() < 256,
    ensures
        ({
            let s = script_sig_layout(lead, sig, key);
            let pos: int = if lead {
                1
            } else {
                0
            };
            let p2 = pos + 1 + sig.len();
            &&& s.len() == p2 + 1 + key.len()
            &&& lead ==> s[0] == 0
            &&& s[pos] == sig.len()
            &&& s.subrange(pos + 1, p2) == sig
            &&& s[p2] == key.len()
            &&& s.subrange(p2 + 1, s.len() as int) == key
        }),
{
    let s = script_sig_layout(lead, sig, key);
    let pos: int = if lead {
        1
    } else {
        0
    };
    let p2 = pos + 1 + sig.len();
    assert(s.subrange(pos + 1, p2) =~= sig);
    assert(s.subrange(p2 + 1, s.len() as int) =~= key);
}

/// A signature script has at most one decomposition into a signature and a key.
proof fn lemma_layout_unique(s: Seq<u8>, a: (Seq<u8>, Seq<u8>), b: (Seq<u8>, Seq<u8>))
    requires
        a.0.len() < 256,
        a.1.len() < 256,
        b.0.len() < 256,
        b.1.len() < 256,
        s == script_sig_layout(s.len() > 0 && s[0] == 0, a.0, a.1),
        s == script_sig_layout(s.len() > 0 && s[0] == 0, b.0, b.1),
    ensures
        a == b,
{
    let lead = s.len() > 0 && s[0] == 0;
    lemma_layout_shape(lead, a.0, a.1);
    lemma_layout_shape(lead, b.0, b.1);
}

/// An input signed by a well-formed wallet verifies against any output
/// paying to the wallet's pay-to-key-hash script: its script is the
/// wallet's compact signature of the transaction's digest (see
/// `sighash_of`) followed by the wallet's public key, and that signature
/// verifies for the digest (as signing guarantees).
pub proof fn lemma_signed_input_verifies(tx: Transaction, i: int, w: Wallet, utxo: TxOut)
    requires
        w.wf(),
        0 <= i < tx.inputs@.len(),
        crate::crypto::ecdsa_signature(w.secret_key@, sighash_of(tx)).len() == 64,
        ecdsa_verifies(
            w.public_key@,
            crate::crypto::ecdsa_signature(w.secret_key@, sighash_of(tx)),
            sighash_of(tx),
        ),
        tx.inputs@[i].script_sig@ == script_sig_layout(
            false,
            crate::crypto::ecdsa_signature(w.secret_key@, sighash_of(tx)),
            w.public_key@,
        ),
        utxo.script_pubkey@ == p2pkh_script(w.miner_id@),
    ensures
        input_verifies(tx.inputs@[i], tx, i, utxo),
{
    if !is_coinbase_input(tx.inputs@[i]) {
        let sig = crate::crypto::ecdsa_signature(w.secret_key@, sighash_of(tx));
        let key = w.public_key@;
        let s = tx.inputs@[i].script_sig@;
        lemma_layout_shape(false, sig, key);
        assert(s[0] == 64);
        assert(s == script_sig_layout(s.len() > 0 && s[0] == 0, sig, key));
        let p = choose|p: (Seq<u8>, Seq<u8>)|
            p.0.len() < 256 && p.1.len() < 256 && s == script_sig_layout(s.len() > 0 && s[0] == 0, p.0, p.1);
        assert((sig, key).0.len() < 256 && (sig, key).1.len() < 256 && s == script_sig_layout(
            s.len() > 0 && s[0] == 0,
            (sig, key).0,
            (sig, key).1,
        ));
        lemma_layout_unique(s, p, (sig, key));
        assert(script_sig_parts(s) == Some((sig, key)));
        let script = utxo.script_pubkey@;
        assert(script.subrange(3, 23) =~= w.miner_id@);
    }
}

impl TxIn {
    /// The coinbase input: all-zero id, index and sequence 0xFFFFFFFF, empty script.
    pub fn coinbase() -> (res: Self)
        ensures
            is_coinbase_input(res),
            res.script_sig@.len() == 0,
            res.sequence == 0xFFFF_FFFF,
    {
        let r = TxIn {
            prev_txid: [0u8; 32],
            prev_index: 0xFFFF_FFFF,
            script_sig: Vec::new(),
            sequence: 0xFFFF_FFFF,
        };
        proof {
            assert(r.prev_txid@ =~= Seq::new(32, |i: int| 0u8));
        }
        r
    }

    /// Whether this is a coinbase input.
    pub fn is_coinbase(&self) -> (res: bool)
        ensures
            res == is_coinbase_input(*self),
    {
        let zero = [0u8; 32];
        proof {
            assert(zero@ =~= Seq::new(32, |i: int| 0u8));
        }
        arrays_equal(&self.prev_txid, &zero) && self.prev_index == 0xFFFF_FFFF
    }

    /// The output this input spends.
    pub fn outpoint(&self) -> (res: OutPoint)
        ensures
            res == (self.prev_txid, self.prev_index),
    {
        (self.prev_txid, self.prev_index)
    }

    /// Splits the signature script into the signature and the public key.
    pub fn parse_script_sig(&self) -> (res: Option<(&[u8], &[u8])>)
        ensures
            match res {
                Some((sig, key)) => script_sig_parts(self.script_sig@) == Some((sig@, key@)),
                None => script_sig_parts(self.script_sig@) is None,
            },
    {
        let s = self.script_sig.as_slice();
        let ghost lead = s@.len() > 0 && s@[0] == 0;
        if s.len() < 2 {
            proof {
                self.lemma_no_parts();
            }
            return None;
        }
        let mut pos: usize = 0;
        if s[pos] == 0x00 {
            pos = pos + 1;
        }
        if pos >= s.len() {
            proof {
                self.lemma_no_parts();
            }
            return None;
        }
        let sig_len = s[pos] as usize;
        if pos + 1 + sig_len > s.len() {
            proof {
                self.lemma_no_parts();
            }
            return None;
        }
        let sig_bytes = &s[pos + 1..pos + 1 + sig_len];
        let p2 = pos + 1 + sig_len;
        if p2 >= s.len() {
            proof {
                self.lemma_no_parts();
            }
            return None;
        }
        let key_len = s[p2] as usize;
        if p2 + 1 + key_len != s.len() {
            proof {
                self.lemma_no_parts();
            }
            return None;
        }
        let pubkey_bytes = &s[p2 + 1..s.len()];
        proof {
            assert(s@ =~= script_sig_layout(lead, sig_bytes@, pubkey_bytes@));
            let p = (sig_bytes@, pubkey_bytes@);
            assert(p.0.len() < 256 && p.1.len() < 256 && s@ == script_sig_layout(lead, p.0, p.1));
            let c = choose|q: (Seq<u8>, Seq<u8>)|
                q.0.len() < 256 && q.1.len() < 256 && s@ == script_sig_layout(lead, q.0, q.1);
            lemma_layout_unique(s@, c, p);
        }
        Some((sig_bytes, pubkey_bytes))
    }

    /// When the script's own bytes rule out every decomposition, there are no parts.
    proof fn lemma_no_parts(&self)
        requires
            ({
                let s = self.script_sig@;
                let pos: int = if s.len() > 0 && s[0] == 0 {
                    1
                } else {
                    0
                };
                ||| s.len() < 2
                ||| pos >= s.len()
                ||| pos + 1 + s[pos] > s.len()
                ||| pos + 1 + s[pos] >= s.len()
                ||| pos + 1 + s[pos] + 1 + s[pos + 1 + s[pos]] != s.len()
            }),
        ensures
            script_sig_parts(self.script_sig@) is None,
    {
        let s = self.script_sig@;
        let lead = s.len() > 0 && s[0] == 0;
        assert forall|p: (Seq<u8>, Seq<u8>)|
            p.0.len() < 256 && p.1.len() < 256 implies s != script_sig_layout(lead, p.0, p.1) by {
            if s == script_sig_layout(lead, p.0, p.1) {
                lemma_layout_shape(lead, p.0, p.1);
            }
        }
    }

    /// Signs input `input_index` of `tx` with the wallet: the signature script
    /// becomes the signature of the input's digest and the wallet's public key.
    pub fn sign(&mut self, wallet: &Wallet, tx: &Transaction, input_index: usize) -> (res: Result<
        (),
        String,
    >)
        ensures
            res is Ok <==> (wallet.secret_key.len() == 32 && secp256k1_public_of(
                wallet.secret_key@,
            ) is Some),
            res is Ok ==> final(self).script_sig@ == script_sig_layout(
                false,
                crate::crypto::ecdsa_signature(wallet.secret_key@, sighash_of(*tx)),
                wallet.public_key@,
            ),
            res is Ok ==> ecdsa_verifies(
                secp256k1_public_of(wallet.secret_key@).unwrap(),
                crate::crypto::ecdsa_signature(wallet.secret_key@, sighash_of(*tx)),
                sighash_of(*tx),
            ),
            res is Ok ==> crate::crypto::ecdsa_signature(
                wallet.secret_key@,
                sighash_of(*tx),
            ).len() == 64,
            res is Err ==> final(self).script_sig@ == old(self).script_sig@,
            final(self).prev_txid == old(self).prev_txid,
            final(self).prev_index == old(self).prev_index,
            final(self).sequence == old(self).sequence,
    {
        let sighash = tx.sighash(input_index);
        let signature = match wallet.sign(&sighash) {
            Ok(sig) => sig,
            Err(e) => return Err(e),
        };
        let mut script_sig: Vec<u8> = Vec::new();
        script_sig.push(signature.len() as u8);
        append_bytes(&mut script_sig, signature.as_slice());
        let pubkey = wallet.public_key_bytes();
        script_sig.push(pubkey.len() as u8);
        append_bytes(&mut script_sig, pubkey);
        proof {
            assert(script_sig@ =~= script_sig_layout(false, signature@, wallet.public_key@));
        }
        self.script_sig = script_sig;
        Ok(())
    }

    /// Whether the input may spend `utxo` in `tx` at `input_index`: a coinbase
    /// input always may; otherwise its script must parse, and the public key
    /// must hash to the key hash of a pay-to-public-key-hash output, or (read
    /// as a point and compressed) to the identity of a bond output, and the
    /// signature must verify against the input's digest.
    pub fn verify(&self, tx: &Transaction, input_index: usize, utxo: &TxOut) -> (res: bool)
        ensures
            res == input_verifies(*self, *tx, input_index as int, *utxo),
            res <==> (is_coinbase_input(*self) || (script_sig_parts(self.script_sig@) matches Some(
                parts,
            ) && ecdsa_verifies(parts.1, parts.0, sighash_of(*tx)) && ((is_p2pkh_script(
                utxo.script_pubkey@,
            ) && miner_id_of(parts.1) == utxo.script_pubkey@.subrange(3, 23)) || (!is_p2pkh_script(
                utxo.script_pubkey@,
            ) && is_bond_script(utxo.script_pubkey@) && bond_key_matches(parts.1, utxo.script_pubkey@))))),
    {
        if self.is_coinbase() {
            return true;
        }
        let (sig_bytes, pubkey_bytes) = match self.parse_script_sig() {
            Some((sig, key)) => (sig, key),
            None => return false,
        };
        if utxo.is_p2pkh() {
            self.verify_p2pkh(tx, input_index, utxo, pubkey_bytes, sig_bytes)
        } else if utxo.is_bond() {
            self.verify_bond(tx, input_index, utxo, pubkey_bytes, sig_bytes)
        } else {
            false
        }
    }

    fn verify_p2pkh(
        &self,
        tx: &Transaction,
        input_index: usize,
        utxo: &TxOut,
        pubkey_bytes: &[u8],
        sig_bytes: &[u8],
    ) -> (res: bool)
        requires
            is_p2pkh_script(utxo.script_pubkey@),
        ensures
            res == (miner_id_of(pubkey_bytes@) == utxo.script_pubkey@.subrange(3, 23)
                && ecdsa_verifies(pubkey_bytes@, sig_bytes@, sighash_of(*tx))),
    {
        let sha = sha256(pubkey_bytes);
        let pubkey_hash = ripemd160(sha.as_slice());
        let expected_hash = &utxo.script_pubkey.as_slice()[3..23];
        if !bytes_equal(pubkey_hash.as_slice(), expected_hash) {
            return false;
        }
        let sighash = tx.sighash(input_index);
        Self::verify_ecdsa(pubkey_bytes, sig_bytes, &sighash)
    }

    fn verify_bond(
        &self,
        tx: &Transaction,
        input_index: usize,
        utxo: &TxOut,
        pubkey_bytes: &[u8],
        sig_bytes: &[u8],
    ) -> (res: bool)
        ensures
            res == (is_bond_script(utxo.script_pubkey@) && bond_key_matches(
                pubkey_bytes@,
                utxo.script_pubkey@,
            ) && ecdsa_verifies(
                pubkey_bytes@,
                sig_bytes@,
                sighash_of(*tx),
            )),
    {
        let expected_miner_id = match utxo.extract_miner_id() {
            Some(id) => id,
            None => return false,
        };
        let pubkey = match secp256k1_compress(pubkey_bytes) {
            Some(p) => p,
            None => return false,
        };
        let actual_miner_id = Wallet::miner_id_from_pubkey(&pubkey);
        if !arrays_equal(&actual_miner_id, &expected_miner_id) {
            return false;
        }
        let sighash = tx.sighash(input_index);
        Self::verify_ecdsa(pubkey_bytes, sig_bytes, &sighash)
    }

    /// Whether the compact signature verifies under the public key for the digest.
    pub fn verify_ecdsa(pubkey_bytes: &[u8], sig_bytes: &[u8], msg: &[u8; 32]) -> (res: bool)
        ensures
            res == ecdsa_verifies(pubkey_bytes@, sig_bytes@, msg@),
    {
        secp256k1_verify(pubkey_bytes, sig_bytes, msg)
    }

    /// A copy of the input.
    pub fn duplicate(&self) -> (res: Self)
        ensures
            res.prev_txid == self.prev_txid,
            res.prev_index == self.prev_index,
            res.script_sig@ == self.script_sig@,
            res.sequence == self.sequence,
    {
        let mut script: Vec<u8> = Vec::new();
        append_bytes(&mut script, self.script_sig.as_slice());
        TxIn {
            prev_txid: self.prev_txid,
            prev_index: self.prev_index,
            script_sig: script,
            sequence: self.sequence,
        }
    }
}

/// Whether the public key, read as a point and compressed, has the miner
/// identity that the bond script names.
pub open spec fn bond_key_matches(key: Seq<u8>, script: Seq<u8>) -> bool {
    match secp256k1_compressed(key) {
        Some(c) => miner_id_of(c) == script.subrange(1, 21),
        None => false,
    }
}

/// Whether `input` may spend `utxo` as input `i` of `tx` (see `TxIn::verify`).
pub open spec fn input_verifies(input: TxIn, tx: Transaction, i: int, utxo: TxOut) -> bool {
    if is_coinbase_input(input) {
        true
    } else {
        match script_sig_parts(input.script_sig@) {
            None => false,
            Some((sig, key)) => if is_p2pkh_script(utxo.script_pubkey@) {
                miner_id_of(key) == utxo.script_pubkey@.subrange(3, 23) && ecdsa_verifies(
                    key,
                    sig,
                    sighash_of(tx),
                )
            } else if is_bond_script(utxo.script_pubkey@) {
                bond_key_matches(key, utxo.script_pubkey@) && ecdsa_verifies(
                    key,
                    sig,
                    sighash_of(tx),
                )
            } else {
                false
            },
        }
    }
}

impl Transaction {
    /// The encoding of the transaction, every input script blanked when `blank`.
    fn encoding(&self, blank: bool) -> (res: Vec<u8>)
        ensures
            res@ == tx_encoding(*self, blank),
    {
        let mut data: Vec<u8> = Vec::new();
        append_u32_le(&mut data, self.version);
        append_u32_le(&mut data, self.inputs.len() as u32);
        let ghost head = data@;
        let mut k: usize = 0;
        proof {
            assert(self.inputs@.subrange(0, 0) =~= Seq::<TxIn>::empty());
        }
        while k < self.inputs.len()
            invariant
                k <= self.inputs@.len(),
                data@ == head + inputs_encoding(self.inputs@.subrange(0, k as int), blank),
            decreases self.inputs@.len() - k,
        {
            let input = &self.inputs[k];
            append_bytes(&mut data, input.prev_txid.as_slice());
            append_u32_le(&mut data, input.prev_index);
            if blank {
                append_u32_le(&mut data, 0u32);
            } else {
                append_u32_le(&mut data, input.script_sig.len() as u32);
                append_bytes(&mut data, input.script_sig.as_slice());
            }
            append_u32_le(&mut data, input.sequence);
            proof {
                lemma_inputs_encoding_step(self.inputs@, k as int, blank);
                assert(data@ =~= head + inputs_encoding(self.inputs@.subrange(0, k + 1), blank));
            }
            k = k + 1;
        }
        proof {
            assert(self.inputs@.subrange(0, self.inputs@.len() as int) =~= self.inputs@);
        }
        append_u32_le(&mut data, self.outputs.len() as u32);
        let ghost mid = data@;
        let mut m: usize = 0;
        proof {
            assert(self.outputs@.subrange(0, 0) =~= Seq::<TxOut>::empty());
        }
        while m < self.outputs.len()
            invariant
                m <= self.outputs@.len(),
                data@ == mid + outputs_encoding(self.outputs@.subrange(0, m as int)),
            decreases self.outputs@.len() - m,
        {
            let output = &self.outputs[m];
            append_u64_le(&mut data, output.value);
            append_u32_le(&mut data, output.script_pubkey.len() as u32);
            append_bytes(&mut data, output.script_pubkey.as_slice());
            proof {
                lemma_outputs_encoding_step(self.outputs@, m as int);
                assert(data@ =~= mid + outputs_encoding(self.outputs@.subrange(0, m + 1)));
            }
            m = m + 1;
        }
        proof {
            assert(self.outputs@.subrange(0, self.outputs@.len() as int) =~= self.outputs@);
        }
        append_u32_le(&mut data, self.locktime);
        proof {
            assert(data@ =~= tx_encoding(*self, blank));
        }
        data
    }

    /// The coinbase transaction paying `outputs` at `height`: one coinbase
    /// input whose script is the height's eight little-endian bytes.
    pub fn coinbase(outputs: Vec<TxOut>, height: Height) -> (res: Self)
        ensures
            res.version == 1,
            res.inputs@.len() == 1,
            is_coinbase_tx(res),
            res.inputs@[0].script_sig@ == spec_u64_to_le_bytes(height),
            res.inputs@[0].sequence == 0xFFFF_FFFF,
            res.outputs@ == outputs@,
            res.locktime == 0,
    {
        let mut input = TxIn::coinbase();
        let mut script: Vec<u8> = Vec::new();
        append_u64_le(&mut script, height);
        input.script_sig = script;
        let mut inputs: Vec<TxIn> = Vec::new();
        inputs.push(input);
        Transaction { version: 1, inputs, outputs, locktime: 0 }
    }

    /// The transaction id. The cache argument is not used.
    pub fn txid(&self, _argon2: &mut crate::header::Argon2Cache) -> (res: Txid)
        ensures
            res@ == txid_of(*self),
    {
        let data = self.encoding(false);
        let hash1 = sha256(data.as_slice());
        sha256(hash1.as_slice())
    }

    /// Whether the transaction is a coinbase.
    pub fn is_coinbase(&self) -> (res: bool)
        ensures
            res == is_coinbase_tx(*self),
    {
        self.inputs.len() == 1 && self.inputs[0].is_coinbase()
    }

    /// The digest that input `input_index` signs (see `sighash_of`: the same
    /// for every input).
    pub fn sighash(&self, input_index: usize) -> (res: [u8; 32])
        ensures
            res@ == sighash_of(*self),
    {
        let mut data = self.encoding(true);
        append_u32_le(&mut data, 0x01u32);
        let first = sha256(data.as_slice());
        sha256(first.as_slice())
    }
}

} // verus!

verus! {

/// A block: header, transactions, and the finder's optional signature and public key.
#[derive(Clone, Debug)]
pub struct Block {
    pub header: crate::header::BlockHeader,
    pub transactions: Vec<Transaction>,
    pub signature: Option<Vec<u8>>,
    pub pubkey: Option<Vec<u8>>,
}

/// Two non-coinbase inputs spend the same output.
pub open spec fn spends_twice(inputs: Seq<TxIn>) -> bool {
    exists|i: int, j: int|
        0 <= i < j < inputs.len() && !is_coinbase_input(#[trigger] inputs[i]) && !is_coinbase_input(
            #[trigger] inputs[j],
        ) && inputs[i].prev_txid == inputs[j].prev_txid && inputs[i].prev_index
            == inputs[j].prev_index
}

/// The output an input spends.
pub open spec fn outpoint_of(input: TxIn) -> OutPoint {
    (input.prev_txid, input.prev_index)
}

/// The position of `op` in `seen`, if any.
fn find_outpoint(seen: &Vec<OutPoint>, op: &OutPoint) -> (res: Option<usize>)
    ensures
        match res {
            Some(a) => a < seen@.len() && seen@[a as int] == *op,
            None => forall|a: int| 0 <= a < seen@.len() ==> seen@[a] != *op,
        },
{
    let mut a: usize = 0;
    while a < seen.len()
        invariant
            a <= seen@.len(),
            forall|b: int| 0 <= b < a ==> seen@[b] != *op,
        decreases seen@.len() - a,
    {
        if arrays_equal(&seen[a].0, &op.0) && seen[a].1 == op.1 {
            return Some(a);
        }
        a = a + 1;
    }
    None
}

/// Some output is dust.
pub open spec fn has_dust(outputs: Seq<TxOut>) -> bool {
    exists|i: int| 0 <= i < outputs.len() && (#[trigger] outputs[i]).value < DUST_LIMIT_LYT
}

/// The exact sum of the output values.
pub open spec fn outputs_total(outputs: Seq<TxOut>) -> int
    decreases outputs.len(),
{
    if outputs.len() == 0 {
        0
    } else {
        outputs_total(outputs.drop_last()) + outputs.last().value
    }
}

/// What the context-free checks of a transaction find: the first failing rule, if any.
pub open spec fn basic_check(tx: Transaction) -> Option<Seq<char>> {
    if tx.inputs@.len() == 0 || tx.outputs@.len() == 0 {
        Some("Empty transaction"@)
    } else if spends_twice(tx.inputs@) {
        Some("Double spend within transaction"@)
    } else if has_dust(tx.outputs@) {
        Some("Dust output"@)
    } else if outputs_total(tx.outputs@) > MAX_SUPPLY_LYT {
        Some("Output sum exceeds max supply"@)
    } else {
        None
    }
}

/// Whether a bond output may be spent at `height`: its lock-up, looked up
/// as `lock`, must be known and over.
pub open spec fn bond_unlocked(lock: Option<Height>, height: Height) -> bool {
    match lock {
        Some(l) => height >= l,
        None => false,
    }
}

/// Scanning the first `k` inputs with their looked-up outputs at chain
/// height `height`: the running sum of their values, or the first error (a
/// failed lookup, a missing output, a sum beyond 64 bits, an input that may
/// not spend its output, or a bond output whose lock-up, looked up in
/// `locks`, is not over).
pub open spec fn inputs_scan(
    tx: Transaction,
    lookups: Seq<Result<Option<TxOut>, String>>,
    locks: Seq<Option<Height>>,
    height: Height,
    k: int,
) -> Result<int, Seq<char>>
    decreases k,
{
    if k <= 0 {
        Ok(0)
    } else {
        match inputs_scan(tx, lookups, locks, height, k - 1) {
            Err(e) => Err(e),
            Ok(sum) => match lookups[k - 1] {
                Err(_) => Err("DB error"@),
                Ok(None) => Err("UTXO not found"@),
                Ok(Some(u)) => if sum + u.value > u64::MAX {
                    Err("Overflow"@)
                } else if !input_verifies(tx.inputs@[k - 1], tx, k - 1, u) {
                    Err("Invalid signature"@)
                } else if is_bond_script(u.script_pubkey@) && !bond_unlocked(locks[k - 1], height) {
                    Err("Bond is still locked"@)
                } else {
                    Ok(sum + u.value)
                },
            },
        }
    }
}

/// The outcome of validating a transaction against the outputs its inputs
/// spend: the fee, or the first rule it breaks.
pub open spec fn validation_outcome(
    tx: Transaction,
    lookups: Seq<Result<Option<TxOut>, String>>,
    locks: Seq<Option<Height>>,
    height: Height,
) -> Result<int, Seq<char>> {
    match basic_check(tx) {
        Some(e) => Err(e),
        None => if is_coinbase_tx(tx) {
            Ok(0)
        } else {
            match inputs_scan(tx, lookups, locks, height, tx.inputs@.len() as int) {
                Err(e) => Err(e),
                Ok(input_sum) => {
                    let output_sum = outputs_total(tx.outputs@);
                    if output_sum > input_sum {
                        Err("Outputs exceed inputs"@)
                    } else if input_sum - output_sum < DUST_LIMIT_LYT {
                        Err("Fee below minimum"@)
                    } else {
                        Ok(input_sum - output_sum)
                    }
                },
            }
        },
    }
}

/// The total value of the outputs found by the first `k` lookups.
pub open spec fn spent_total(lookups: Seq<Result<Option<TxOut>, String>>, k: int) -> int
    decreases k,
{
    if k <= 0 {
        0
    } else {
        spent_total(lookups, k - 1) + match lookups[k - 1] {
            Ok(Some(u)) => u.value as int,
            _ => 0,
        }
    }
}

/// Input `j` of `tx` may spend what its lookup found at `height`: the
/// output was found, the input's signature verifies against it, and a bond
/// output's lock-up is over.
pub open spec fn input_spendable(
    tx: Transaction,
    lookups: Seq<Result<Option<TxOut>, String>>,
    locks: Seq<Option<Height>>,
    height: Height,
    j: int,
) -> bool {
    &&& lookups[j] matches Ok(Some(u))
    &&& input_verifies(tx.inputs@[j], tx, j, u)
    &&& (is_bond_script(u.script_pubkey@) ==> bond_unlocked(locks[j], height))
}

proof fn lemma_spent_total_mono(lookups: Seq<Result<Option<TxOut>, String>>, a: int, b: int)
    requires
        0 <= a <= b,
    ensures
        spent_total(lookups, a) <= spent_total(lookups, b),
    decreases b - a,
{
    if a < b {
        lemma_spent_total_mono(lookups, a, b - 1);
    }
}

/// The scan over the first `k` inputs succeeds exactly when each of them
/// may spend what it found and the found values add up within 64 bits; it
/// then gives their total.
pub proof fn lemma_inputs_scan_exactly(
    tx: Transaction,
    lookups: Seq<Result<Option<TxOut>, String>>,
    locks: Seq<Option<Height>>,
    height: Height,
    k: int,
)
    requires
        0 <= k,
    ensures
        inputs_scan(tx, lookups, locks, height, k) is Ok <==> (forall|j: int|
            0 <= j < k ==> #[trigger] input_spendable(tx, lookups, locks, height, j)) && spent_total(
            lookups,
            k,
        ) <= u64::MAX,
        inputs_scan(tx, lookups, locks, height, k) is Ok ==> inputs_scan(tx, lookups, locks, height, k)
            == Ok::<int, Seq<char>>(spent_total(lookups, k)),
    decreases k,
{
    if k > 0 {
        lemma_inputs_scan_exactly(tx, lookups, locks, height, k - 1);
        lemma_spent_total_mono(lookups, k - 1, k);
        if (forall|j: int| 0 <= j < k ==> #[trigger] input_spendable(tx, lookups, locks, height, j)) {
            assert(input_spendable(tx, lookups, locks, height, k - 1));
        }
        if inputs_scan(tx, lookups, locks, height, k) is Ok {
            assert forall|j: int| 0 <= j < k implies #[trigger] input_spendable(tx, lookups, locks, height, j) by {
                if j < k - 1 {
                    assert(input_spendable(tx, lookups, locks, height, j));
                }
            }
        }
    }
}

/// The validation of a transaction at `height`: a transaction failing a
/// context-free check is refused with that check's message; one passing
/// them that is a coinbase is valid with fee 0 whatever the lookups hold;
/// any other is valid exactly when each input may spend what it found, the
/// found values add up within 64 bits, they cover the outputs, and what is
/// left over reaches the minimum fee, which is then its fee.
pub proof fn lemma_validation_exactly(
    tx: Transaction,
    lookups: Seq<Result<Option<TxOut>, String>>,
    locks: Seq<Option<Height>>,
    height: Height,
)
    ensures
        basic_check(tx) matches Some(e) ==> validation_outcome(tx, lookups, locks, height) == Err::<int, Seq<char>>(e),
        basic_check(tx) is None && is_coinbase_tx(tx) ==> validation_outcome(tx, lookups, locks, height)
            == Ok::<int, Seq<char>>(0),
        basic_check(tx) is None && !is_coinbase_tx(tx) ==> ((validation_outcome(tx, lookups, locks, height)
            is Ok <==> {
            &&& forall|j: int|
                0 <= j < tx.inputs@.len() ==> #[trigger] input_spendable(tx, lookups, locks, height, j)
            &&& spent_total(lookups, tx.inputs@.len() as int) <= u64::MAX
            &&& spent_total(lookups, tx.inputs@.len() as int) >= outputs_total(tx.outputs@) + DUST_LIMIT_LYT
        }) && (validation_outcome(tx, lookups, locks, height) matches Ok(fee) ==> fee == spent_total(
            lookups,
            tx.inputs@.len() as int,
        ) - outputs_total(tx.outputs@))),
{
    lemma_inputs_scan_exactly(tx, lookups, locks, height, tx.inputs@.len() as int);
}

/// Scanning the first `k` inputs for the fee: the running sum, or the first
/// lookup error or missing output.
pub open spec fn fee_scan(lookups: Seq<Result<Option<TxOut>, String>>, k: int) -> Result<
    int,
    Seq<char>,
>
    decreases k,
{
    if k <= 0 {
        Ok(0)
    } else {
        match fee_scan(lookups, k - 1) {
            Err(e) => Err(e),
            Ok(sum) => match lookups[k - 1] {
                Err(e) => Err(e@),
                Ok(None) => Err("UTXO not found"@),
                Ok(Some(u)) => Ok(sum + u.value),
            },
        }
    }
}

proof fn lemma_outputs_total_step(outputs: Seq<TxOut>, k: int)
    requires
        0 <= k < outputs.len(),
    ensures
        outputs_total(outputs.subrange(0, k + 1)) == outputs_total(outputs.subrange(0, k))
            + outputs[k].value,
{
    assert(outputs.subrange(0, k + 1).drop_last() =~= outputs.subrange(0, k));
}

proof fn lemma_outputs_total_nonneg(outputs: Seq<TxOut>)
    ensures
        outputs_total(outputs) >= 0,
    decreases outputs.len(),
{
    if outputs.len() > 0 {
        lemma_outputs_total_nonneg(outputs.drop_last());
    }
}

proof fn lemma_outputs_total_prefix_mono(outputs: Seq<TxOut>, k: int)
    requires
        0 <= k <= outputs.len(),
    ensures
        outputs_total(outputs.subrange(0, k)) <= outputs_total(outputs),
    decreases outputs.len() - k,
{
    if k < outputs.len() {
        lemma_outputs_total_step(outputs, k);
        lemma_outputs_total_prefix_mono(outputs, k + 1);
    } else {
        assert(outputs.subrange(0, k) =~= outputs);
    }
}

impl Transaction {
    /// The context-free checks: inputs and outputs present, no output spent
    /// twice by non-coinbase inputs, no dust output, and the exact sum of the
    /// outputs within the maximum supply.
    pub fn validate_basic(&self) -> (res: Result<(), &'static str>)
        ensures
            match basic_check(*self) {
                Some(msg) => res matches Err(e) && e@ == msg,
                None => res is Ok,
            },
            res is Ok <==> {
                &&& self.inputs@.len() > 0
                &&& self.outputs@.len() > 0
                &&& forall|i: int, j: int|
                    0 <= i < j < self.inputs@.len() && !is_coinbase_input(#[trigger] self.inputs@[i])
                        && !is_coinbase_input(#[trigger] self.inputs@[j]) ==> (self.inputs@[i].prev_txid,
                        self.inputs@[i].prev_index) != (self.inputs@[j].prev_txid, self.inputs@[j].prev_index)
                &&& forall|i: int| 0 <= i < self.outputs@.len() ==> (#[trigger] self.outputs@[i]).value >= DUST_LIMIT_LYT
                &&& outputs_total(self.outputs@) <= MAX_SUPPLY_LYT
            },
    {
        if self.inputs.len() == 0 || self.outputs.len() == 0 {
            proof {
                reveal_strlit("Empty transaction");
            }
            return Err("Empty transaction");
        }
        let mut seen: Vec<OutPoint> = Vec::new();
        let ghost mut origin: Seq<int> = Seq::empty();
        let mut k: usize = 0;
        while k < self.inputs.len()
            invariant
                k <= self.inputs@.len(),
                self.inputs@.len() > 0 && self.outputs@.len() > 0,
                seen@.len() == origin.len(),
                forall|a: int|
                    0 <= a < seen@.len() ==> 0 <= #[trigger] origin[a] < k && !is_coinbase_input(
                        self.inputs@[origin[a]],
                    ) && seen@[a] == outpoint_of(self.inputs@[origin[a]]),
                forall|i: int|
                    0 <= i < k && !is_coinbase_input(#[trigger] self.inputs@[i]) ==> exists|a: int|
                        0 <= a < seen@.len() && #[trigger] origin[a] == i,
                forall|i: int, j: int|
                    0 <= i < j < k && !is_coinbase_input(#[trigger] self.inputs@[i])
                        && !is_coinbase_input(#[trigger] self.inputs@[j]) ==> outpoint_of(
                        self.inputs@[i],
                    ) != outpoint_of(self.inputs@[j]),
            decreases self.inputs@.len() - k,
        {
            let input = &self.inputs[k];
            if !input.is_coinbase() {
                let outpoint = input.outpoint();
                match find_outpoint(&seen, &outpoint) {
                    Some(a) => {
                        proof {
                            let i = origin[a as int];
                            assert(outpoint_of(self.inputs@[i]) == outpoint_of(
                                self.inputs@[k as int],
                            ));
                            assert(spends_twice(self.inputs@)) by {
                                assert(0 <= i < k as int);
                                assert(!is_coinbase_input(self.inputs@[i]));
                                assert(!is_coinbase_input(self.inputs@[k as int]));
                            }
                            reveal_strlit("Double spend within transaction");
                        }
                        return Err("Double spend within transaction");
                    },
                    None => {},
                }
                proof {
                    assert forall|i: int|
                        0 <= i < k && !is_coinbase_input(#[trigger] self.inputs@[i]) implies outpoint_of(
                        self.inputs@[i],
                    ) != outpoint_of(self.inputs@[k as int]) by {
                        let a2 = choose|a2: int| 0 <= a2 < seen@.len() && #[trigger] origin[a2] == i;
                        assert(seen@[a2] != outpoint);
                    }
                }
                let ghost old_origin = origin;
                let ghost old_len = seen@.len();
                seen.push(outpoint);
                proof {
                    origin = origin.push(k as int);
                    assert forall|i: int|
                        0 <= i < k + 1 && !is_coinbase_input(#[trigger] self.inputs@[i]) implies exists|a: int|
                        0 <= a < seen@.len() && #[trigger] origin[a] == i by {
                        if i == k {
                            assert(origin[origin.len() - 1] == i);
                        } else {
                            let a2 = choose|a2: int| 0 <= a2 < old_len && #[trigger] old_origin[a2] == i;
                            assert(origin[a2] == i);
                        }
                    }
                }
            }
            k = k + 1;
        }
        proof {
            assert forall|i: int, j: int|
                0 <= i < j < self.inputs@.len() && !is_coinbase_input(#[trigger] self.inputs@[i])
                    && !is_coinbase_input(#[trigger] self.inputs@[j]) implies !(
            self.inputs@[i].prev_txid == self.inputs@[j].prev_txid && self.inputs@[i].prev_index
                == self.inputs@[j].prev_index) by {
                assert(outpoint_of(self.inputs@[i]) != outpoint_of(self.inputs@[j]));
            }
            assert(!spends_twice(self.inputs@));
        }
        let mut d: usize = 0;
        while d < self.outputs.len()
            invariant
                d <= self.outputs@.len(),
                self.inputs@.len() > 0 && self.outputs@.len() > 0,
                !spends_twice(self.inputs@),
                forall|i: int| 0 <= i < d ==> (#[trigger] self.outputs@[i]).value >= DUST_LIMIT_LYT,
            decreases self.outputs@.len() - d,
        {
            if self.outputs[d].is_dust() {
                proof {
                    assert(has_dust(self.outputs@));
                    reveal_strlit("Dust output");
                }
                return Err("Dust output");
            }
            d = d + 1;
        }
        let mut total: u128 = 0;
        let mut m: usize = 0;
        proof {
            assert(self.outputs@.subrange(0, 0) =~= Seq::<TxOut>::empty());
        }
        while m < self.outputs.len()
            invariant
                m <= self.outputs@.len(),
                total == outputs_total(self.outputs@.subrange(0, m as int)),
                total <= m * 0xFFFF_FFFF_FFFF_FFFFu128,
                m <= usize::MAX,
            decreases self.outputs@.len() - m,
        {
            proof {
                lemma_outputs_total_step(self.outputs@, m as int);
                assert((m as int) * 0xFFFF_FFFF_FFFF_FFFF + 0xFFFF_FFFF_FFFF_FFFF <= (usize::MAX as int
                    + 1) * 0xFFFF_FFFF_FFFF_FFFF) by (nonlinear_arith)
                    requires
                        m < usize::MAX as int + 1,
                ;
                assert((usize::MAX as int + 1) * 0xFFFF_FFFF_FFFF_FFFF <= u128::MAX);
            }
            total = total + self.outputs[m].value as u128;
            m = m + 1;
        }
        proof {
            assert(self.outputs@.subrange(0, self.outputs@.len() as int) =~= self.outputs@);
            assert(!spends_twice(self.inputs@));
            assert(!has_dust(self.outputs@));
        }
        if total > MAX_SUPPLY_LYT as u128 {
            proof {
                reveal_strlit("Output sum exceeds max supply");
            }
            return Err("Output sum exceeds max supply");
        }
        Ok(())
    }

    /// Validates the transaction against the outputs its inputs spend, looked
    /// up in input order (`Err` for a failed lookup, `None` for a missing
    /// output): the context-free checks first; a coinbase then has fee 0;
    /// otherwise every input must find its output and may spend it, a bond
    /// output only once the lock-up looked up for it in `locks` is over at
    /// chain height `height`, the outputs may not exceed the inputs, and the
    /// fee must reach the dust limit.
    pub fn validate(
        &self,
        lookups: &Vec<Result<Option<TxOut>, String>>,
        locks: &Vec<Option<Height>>,
        height: Height,
    ) -> (res: Result<u64, &'static str>)
        requires
            lookups@.len() == self.inputs@.len(),
            locks@.len() == self.inputs@.len(),
        ensures
            match validation_outcome(*self, lookups@, locks@, height) {
                Ok(fee) => res == Ok::<u64, &'static str>(fee as u64),
                Err(msg) => res matches Err(e) && e@ == msg,
            },
            basic_check(*self) is None && is_coinbase_tx(*self) ==> res == Ok::<u64, &'static str>(0),
            basic_check(*self) matches Some(m) ==> res matches Err(e) && e@ == m,
            basic_check(*self) is None && !is_coinbase_tx(*self) ==> (res is Ok <==> {
                &&& forall|j: int|
                    0 <= j < self.inputs@.len() ==> #[trigger] input_spendable(*self, lookups@, locks@, height, j)
                &&& spent_total(lookups@, self.inputs@.len() as int) <= u64::MAX
                &&& spent_total(lookups@, self.inputs@.len() as int) >= outputs_total(self.outputs@)
                    + DUST_LIMIT_LYT
            }),
            basic_check(*self) is None && !is_coinbase_tx(*self) ==> (res matches Ok(fee) ==> fee == spent_total(
                lookups@,
                self.inputs@.len() as int,
            ) - outputs_total(self.outputs@)),
    {
        let res = self.validation_scan(lookups, locks, height);
        proof {
            lemma_validation_exactly(*self, lookups@, locks@, height);
            lemma_outputs_total_nonneg(self.outputs@);
        }
        res
    }

    /// The checks of `validate` in order, with the message of the first that fails.
    fn validation_scan(
        &self,
        lookups: &Vec<Result<Option<TxOut>, String>>,
        locks: &Vec<Option<Height>>,
        height: Height,
    ) -> (res: Result<u64, &'static str>)
        requires
            lookups@.len() == self.inputs@.len(),
            locks@.len() == self.inputs@.len(),
        ensures
            match validation_outcome(*self, lookups@, locks@, height) {
                Ok(fee) => res == Ok::<u64, &'static str>(fee as u64),
                Err(msg) => res matches Err(e) && e@ == msg,
            },
    {
        match self.validate_basic() {
            Ok(()) => {},
            Err(e) => return Err(e),
        }
        if self.is_coinbase() {
            return Ok(0);
        }
        let mut input_sum: u64 = 0;
        let mut k: usize = 0;
        while k < self.inputs.len()
            invariant
                k <= self.inputs@.len(),
                lookups@.len() == self.inputs@.len(),
                locks@.len() == self.inputs@.len(),
                inputs_scan(*self, lookups@, locks@, height, k as int) == Ok::<int, Seq<char>>(input_sum as int),
                basic_check(*self) is None,
                !is_coinbase_tx(*self),
            decreases self.inputs@.len() - k,
        {
            let utxo = match &lookups[k] {
                Err(_) => {
                    proof {
                        reveal_strlit("DB error");
                        assert(inputs_scan(*self, lookups@, locks@, height, k as int + 1) == Err::<int, Seq<char>>(
                            "DB error"@,
                        ));
                        lemma_inputs_scan_err_stays(*self, lookups@, locks@, height, k as int + 1, self.inputs@.len() as int);
                    }
                    return Err("DB error");
                },
                Ok(None) => {
                    proof {
                        reveal_strlit("UTXO not found");
                        assert(inputs_scan(*self, lookups@, locks@, height, k as int + 1) == Err::<int, Seq<char>>(
                            "UTXO not found"@,
                        ));
                        lemma_inputs_scan_err_stays(*self, lookups@, locks@, height, k as int + 1, self.inputs@.len() as int);
                    }
                    return Err("UTXO not found");
                },
                Ok(Some(u)) => u,
            };
            input_sum = match input_sum.checked_add(utxo.value) {
                Some(s) => s,
                None => {
                    proof {
                        reveal_strlit("Overflow");
                        assert(inputs_scan(*self, lookups@, locks@, height, k as int + 1) == Err::<int, Seq<char>>(
                            "Overflow"@,
                        ));
                        lemma_inputs_scan_err_stays(*self, lookups@, locks@, height, k as int + 1, self.inputs@.len() as int);
                    }
                    return Err("Overflow");
                },
            };
            if !self.inputs[k].verify(self, k, utxo) {
                proof {
                    reveal_strlit("Invalid signature");
                    assert(inputs_scan(*self, lookups@, locks@, height, k as int + 1) == Err::<int, Seq<char>>(
                        "Invalid signature"@,
                    ));
                    lemma_inputs_scan_err_stays(*self, lookups@, locks@, height, k as int + 1, self.inputs@.len() as int);
                }
                return Err("Invalid signature");
            }
            if utxo.is_bond() {
                let unlocked = match locks[k] {
                    Some(l) => height >= l,
                    None => false,
                };
                if !unlocked {
                    proof {
                        reveal_strlit("Bond is still locked");
                        assert(inputs_scan(*self, lookups@, locks@, height, k as int + 1) == Err::<int, Seq<char>>(
                            "Bond is still locked"@,
                        ));
                        lemma_inputs_scan_err_stays(*self, lookups@, locks@, height, k as int + 1, self.inputs@.len() as int);
                    }
                    return Err("Bond is still locked");
                }
            }
            k = k + 1;
        }
        let mut output_sum: u64 = 0;
        let mut m: usize = 0;
        proof {
            assert(self.outputs@.subrange(0, 0) =~= Seq::<TxOut>::empty());
        }
        while m < self.outputs.len()
            invariant
                m <= self.outputs@.len(),
                output_sum == outputs_total(self.outputs@.subrange(0, m as int)),
                outputs_total(self.outputs@) <= MAX_SUPPLY_LYT,
            decreases self.outputs@.len() - m,
        {
            proof {
                lemma_outputs_total_step(self.outputs@, m as int);
                lemma_outputs_total_prefix_mono(self.outputs@, m as int + 1);
            }
            output_sum = output_sum + self.outputs[m].value;
            m = m + 1;
        }
        proof {
            assert(self.outputs@.subrange(0, self.outputs@.len() as int) =~= self.outputs@);
        }
        if output_sum > input_sum {
            proof {
                reveal_strlit("Outputs exceed inputs");
            }
            return Err("Outputs exceed inputs");
        }
        let fee = input_sum - output_sum;
        if fee < DUST_LIMIT_LYT {
            proof {
                reveal_strlit("Fee below minimum");
            }
            return Err("Fee below minimum");
        }
        Ok(fee)
    }

    /// The fee: the looked-up values of the spent outputs minus the outputs'
    /// values; 0 for a coinbase; `Err` with the lookup's message when a
    /// lookup fails, or when an output is missing or the inputs fall short.
    pub fn fee(&self, lookups: &Vec<Result<Option<TxOut>, String>>) -> (res: Result<u64, String>)
        requires
            lookups@.len() == self.inputs@.len(),
            forall|k: int|
                0 <= k <= self.inputs@.len() ==> (#[trigger] fee_scan(lookups@, k) matches Ok(s)
                    ==> s <= u64::MAX),
            outputs_total(self.outputs@) <= u64::MAX,
        ensures
            is_coinbase_tx(*self) ==> res == Ok::<u64, String>(0),
            !is_coinbase_tx(*self) ==> match fee_scan(lookups@, self.inputs@.len() as int) {
                Err(msg) => res matches Err(e) && e@ == msg,
                Ok(input_sum) => if input_sum < outputs_total(self.outputs@) {
                    res matches Err(e) && e@ == "Insufficient input sum"@
                } else {
                    res == Ok::<u64, String>((input_sum - outputs_total(self.outputs@)) as u64)
                },
            },
    {
        if self.is_coinbase() {
            return Ok(0);
        }
        let mut input_sum: u64 = 0;
        let mut k: usize = 0;
        while k < self.inputs.len()
            invariant
                k <= self.inputs@.len(),
                lookups@.len() == self.inputs@.len(),
                fee_scan(lookups@, k as int) == Ok::<int, Seq<char>>(input_sum as int),
                !is_coinbase_tx(*self),
                forall|j: int|
                    0 <= j <= self.inputs@.len() ==> (#[trigger] fee_scan(lookups@, j) matches Ok(s)
                        ==> s <= u64::MAX),
            decreases self.inputs@.len() - k,
        {
            match &lookups[k] {
                Err(e) => {
                    proof {
                        assert(fee_scan(lookups@, k as int + 1) == Err::<int, Seq<char>>(e@));
                        lemma_fee_scan_err_stays(lookups@, k as int + 1, self.inputs@.len() as int);
                    }
                    return Err(e.clone());
                },
                Ok(None) => {
                    proof {
                        reveal_strlit("UTXO not found");
                        assert(fee_scan(lookups@, k as int + 1) == Err::<int, Seq<char>>(
                            "UTXO not found"@,
                        ));
                        lemma_fee_scan_err_stays(lookups@, k as int + 1, self.inputs@.len() as int);
                    }
                    return Err("UTXO not found".to_string());
                },
                Ok(Some(u)) => {
                    proof {
                        assert(fee_scan(lookups@, k as int + 1) matches Ok(s) && s <= u64::MAX);
                    }
                    input_sum = input_sum + u.value;
                },
            }
            k = k + 1;
        }
        let mut output_sum: u64 = 0;
        let mut m: usize = 0;
        proof {
            assert(self.outputs@.subrange(0, 0) =~= Seq::<TxOut>::empty());
        }
        while m < self.outputs.len()
            invariant
                m <= self.outputs@.len(),
                output_sum == outputs_total(self.outputs@.subrange(0, m as int)),
                outputs_total(self.outputs@) <= u64::MAX,
            decreases self.outputs@.len() - m,
        {
            proof {
                lemma_outputs_total_step(self.outputs@, m as int);
                lemma_outputs_total_prefix_mono(self.outputs@, m as int + 1);
            }
            output_sum = output_sum + self.outputs[m].value;
            m = m + 1;
        }
        proof {
            assert(self.outputs@.subrange(0, self.outputs@.len() as int) =~= self.outputs@);
        }
        if input_sum < output_sum {
            proof {
                reveal_strlit("Insufficient input sum");
            }
            return Err("Insufficient input sum".to_string());
        }
        Ok(input_sum - output_sum)
    }
}

proof fn lemma_inputs_scan_err_stays(
    tx: Transaction,
    lookups: Seq<Result<Option<TxOut>, String>>,
    locks: Seq<Option<Height>>,
    height: Height,
    k: int,
    n: int,
)
    requires
        1 <= k <= n,
        inputs_scan(tx, lookups, locks, height, k) is Err,
    ensures
        inputs_scan(tx, lookups, locks, height, n) == inputs_scan(tx, lookups, locks, height, k),
    decreases n - k,
{
    if k < n {
        lemma_inputs_scan_err_stays(tx, lookups, locks, height, k, n - 1);
    }
}

proof fn lemma_fee_scan_err_stays(lookups: Seq<Result<Option<TxOut>, String>>, k: int, n: int)
    requires
        1 <= k <= n,
        fee_scan(lookups, k) is Err,
    ensures
        fee_scan(lookups, n) == fee_scan(lookups, k),
    decreases n - k,
{
    if k < n {
        lemma_fee_scan_err_stays(lookups, k, n - 1);
    }
}

} // verus!

verus! {

/// The value of the first `k` candidate outputs.
pub open spec fn utxos_value(utxos: Seq<(OutPoint, TxOut)>, k: int) -> int
    decreases k,
{
    if k <= 0 {
        0
    } else {
        utxos_value(utxos, k - 1) + utxos[k - 1].1.value
    }
}

/// How many candidates are spent when scanning from `k`: up to and including
/// the first whose running value reaches `target`, or all of them.
pub open spec fn coins_taken_from(utxos: Seq<(OutPoint, TxOut)>, target: int, k: int) -> int
    decreases utxos.len() - k,
{
    if k < 0 || k >= utxos.len() {
        utxos.len() as int
    } else if utxos_value(utxos, k + 1) >= target {
        k + 1
    } else {
        coins_taken_from(utxos, target, k + 1)
    }
}

/// How many candidate outputs a payment of `target` spends, taken in order.
pub open spec fn coins_taken(utxos: Seq<(OutPoint, TxOut)>, target: int) -> int {
    coins_taken_from(utxos, target, 0)
}

proof fn lemma_utxos_value_mono(utxos: Seq<(OutPoint, TxOut)>, a: int, b: int)
    requires
        0 <= a <= b,
    ensures
        utxos_value(utxos, a) <= utxos_value(utxos, b),
    decreases b - a,
{
    if a < b {
        lemma_utxos_value_mono(utxos, a, b - 1);
    }
}

proof fn lemma_coins_taken_from_bounds(utxos: Seq<(OutPoint, TxOut)>, target: int, k: int)
    requires
        0 <= k < utxos.len(),
    ensures
        k + 1 <= coins_taken_from(utxos, target, k) <= utxos.len(),
    decreases utxos.len() - k,
{
    if utxos_value(utxos, k + 1) < target {
        if k + 1 < utxos.len() {
            lemma_coins_taken_from_bounds(utxos, target, k + 1);
        } else {
            assert(coins_taken_from(utxos, target, k + 1) == utxos.len());
        }
    }
}

/// The all-blank encoding of inputs does not depend on their scripts.
proof fn lemma_blank_encoding_ignores_scripts(a: Seq<TxIn>, b: Seq<TxIn>)
    requires
        a.len() == b.len(),
        forall|j: int|
            0 <= j < a.len() ==> (#[trigger] a[j]).prev_txid == b[j].prev_txid && a[j].prev_index
                == b[j].prev_index && a[j].sequence == b[j].sequence,
    ensures
        inputs_encoding(a, true) == inputs_encoding(b, true),
    decreases a.len(),
{
    if a.len() > 0 {
        lemma_blank_encoding_ignores_scripts(a.drop_last(), b.drop_last());
        assert(a.last() == a[a.len() - 1]);
        assert(input_encoding(a.last(), true) =~= input_encoding(b.last(), true));
    }
}

proof fn lemma_outputs_encoding_views(a: Seq<TxOut>, b: Seq<TxOut>)
    requires
        a.len() == b.len(),
        forall|j: int|
            0 <= j < a.len() ==> (#[trigger] a[j]).value == b[j].value && a[j].script_pubkey@
                == b[j].script_pubkey@,
    ensures
        outputs_encoding(a) == outputs_encoding(b),
    decreases a.len(),
{
    if a.len() > 0 {
        lemma_outputs_encoding_views(a.drop_last(), b.drop_last());
        assert(a.last() == a[a.len() - 1]);
        assert(output_encoding(a.last()) =~= output_encoding(b.last()));
    }
}

impl Transaction {
    /// Pays `amount` to the address `to`, with `fee`, from the wallet's
    /// candidate outputs: spends them in order until their value reaches
    /// `amount + fee`, pays `amount` to `to`, returns the change to the
    /// wallet's address when it exceeds the dust limit, and signs every
    /// input with the wallet.
    pub fn create_p2pkh(
        from: &Wallet,
        to: &str,
        amount: u64,
        fee: u64,
        utxos: Vec<(OutPoint, TxOut)>,
    ) -> (res: Result<Self, String>)
        requires
            amount + fee <= u64::MAX,
            utxos_value(utxos@, coins_taken(utxos@, amount + fee)) <= u64::MAX,
        ensures
            ({
                let k = coins_taken(utxos@, amount + fee);
                let total = utxos_value(utxos@, k);
                let change = total - amount - fee;
                &&& total < amount + fee ==> (res matches Err(e) && e@ == "Insufficient funds"@)
                &&& res is Ok <==> (total >= amount + fee && (base58_bytes(to@) matches Some(d)
                    && d.len() == 25) && (change > DUST_LIMIT_LYT ==> (base58_bytes(from.address@) matches Some(
                    d,
                ) && d.len() == 25)) && (k > 0 ==> (from.secret_key.len() == 32
                    && secp256k1_public_of(from.secret_key@) is Some)))
                &&& res matches Ok(tx) ==> {
                    &&& tx.version == 1
                    &&& tx.locktime == 0
                    &&& tx.inputs@.len() == k
                    &&& forall|j: int|
                        0 <= j < k ==> {
                            &&& (#[trigger] tx.inputs@[j]).prev_txid == utxos@[j].0.0
                            &&& tx.inputs@[j].prev_index == utxos@[j].0.1
                            &&& tx.inputs@[j].sequence == 0xFFFF_FFFF
                            &&& tx.inputs@[j].script_sig@ == script_sig_layout(
                                false,
                                crate::crypto::ecdsa_signature(
                                    from.secret_key@,
                                    sighash_of(tx),
                                ),
                                from.public_key@,
                            )
                        }
                    &&& tx.outputs@.len() == if change > DUST_LIMIT_LYT {
                        2int
                    } else {
                        1int
                    }
                    &&& tx.outputs@[0].value == amount
                    &&& tx.outputs@[0].script_pubkey@ == p2pkh_script(
                        base58_bytes(to@).unwrap().subrange(1, 21),
                    )
                    &&& change > DUST_LIMIT_LYT ==> tx.outputs@[1].value == change
                        && tx.outputs@[1].script_pubkey@ == p2pkh_script(
                        base58_bytes(from.address@).unwrap().subrange(1, 21),
                    )
                    &&& from.wf() ==> forall|j: int|
                        0 <= j < k && utxos@[j].1.script_pubkey@ == p2pkh_script(from.miner_id@)
                            ==> input_verifies(#[trigger] tx.inputs@[j], tx, j, utxos@[j].1)
                }
            }),
    {
        let target = amount + fee;
        let ghost k_goal = coins_taken(utxos@, target as int);
        let n = utxos.len();
        let mut inputs: Vec<TxIn> = Vec::new();
        let mut input_sum: u64 = 0;
        let mut i: usize = 0;
        let mut done = false;
        proof {
            if n > 0 {
                lemma_coins_taken_from_bounds(utxos@, target as int, 0);
            }
        }
        while i < n && !done
            invariant
                n == utxos@.len(),
                i <= n,
                k_goal == coins_taken(utxos@, target as int),
                utxos_value(utxos@, k_goal) <= u64::MAX,
                input_sum == utxos_value(utxos@, i as int),
                done ==> i == k_goal,
                !done ==> k_goal == coins_taken_from(utxos@, target as int, i as int),
                inputs@.len() == i,
                forall|j: int|
                    0 <= j < i ==> {
                        &&& (#[trigger] inputs@[j]).prev_txid == utxos@[j].0.0
                        &&& inputs@[j].prev_index == utxos@[j].0.1
                        &&& inputs@[j].sequence == 0xFFFF_FFFF
                        &&& inputs@[j].script_sig@.len() == 0
                    },
            decreases n - i,
        {
            let outpoint = utxos[i].0;
            inputs.push(
                TxIn {
                    prev_txid: outpoint.0,
                    prev_index: outpoint.1,
                    script_sig: Vec::new(),
                    sequence: 0xFFFF_FFFF,
                },
            );
            proof {
                lemma_coins_taken_from_bounds(utxos@, target as int, i as int);
                lemma_utxos_value_mono(utxos@, i as int + 1, k_goal);
            }
            input_sum = input_sum + utxos[i].1.value;
            i = i + 1;
            if input_sum >= target {
                done = true;
            }
        }
        proof {
            if !done {
                assert(i == n);
            }
        }
        if input_sum < target {
            proof {
                reveal_strlit("Insufficient funds");
            }
            return Err("Insufficient funds".to_string());
        }
        let mut outputs: Vec<TxOut> = Vec::new();
        let mut to_output = match TxOut::create_p2pkh(to) {
            Ok(o) => o,
            Err(e) => return Err(e),
        };
        to_output.value = amount;
        outputs.push(to_output);
        let change = input_sum - amount - fee;
        if change > DUST_LIMIT_LYT {
            let mut change_output = match TxOut::create_p2pkh(from.address.as_str()) {
                Ok(o) => o,
                Err(e) => return Err(e),
            };
            change_output.value = change;
            outputs.push(change_output);
        }
        let unsigned = Transaction { version: 1, inputs, outputs, locktime: 0 };
        let mut signed: Vec<TxIn> = Vec::new();
        let mut j: usize = 0;
        while j < unsigned.inputs.len()
            invariant
                j <= unsigned.inputs@.len(),
                signed@.len() == j,
                unsigned.inputs@.len() == k_goal,
                k_goal == coins_taken(utxos@, amount + fee),
                utxos_value(utxos@, k_goal) >= amount + fee,
                forall|m: int|
                    0 <= m < unsigned.inputs@.len() ==> (#[trigger] unsigned.inputs@[m]).script_sig@.len()
                        == 0,
                j > 0 ==> (from.secret_key.len() == 32 && secp256k1_public_of(from.secret_key@) is Some),
                j > 0 ==> ecdsa_verifies(
                    secp256k1_public_of(from.secret_key@).unwrap(),
                    crate::crypto::ecdsa_signature(from.secret_key@, sighash_of(unsigned)),
                    sighash_of(unsigned),
                ),
                j > 0 ==> crate::crypto::ecdsa_signature(from.secret_key@, sighash_of(unsigned)).len() == 64,
                forall|m: int|
                    0 <= m < j ==> {
                        &&& (#[trigger] signed@[m]).prev_txid == unsigned.inputs@[m].prev_txid
                        &&& signed@[m].prev_index == unsigned.inputs@[m].prev_index
                        &&& signed@[m].sequence == unsigned.inputs@[m].sequence
                        &&& signed@[m].script_sig@ == script_sig_layout(
                            false,
                            crate::crypto::ecdsa_signature(
                                from.secret_key@,
                                sighash_of(unsigned),
                            ),
                            from.public_key@,
                        )
                    },
            decreases unsigned.inputs@.len() - j,
        {
            let mut input = unsigned.inputs[j].duplicate();
            match input.sign(from, &unsigned, j) {
                Ok(()) => {},
                Err(e) => return Err(e),
            }
            signed.push(input);
            j = j + 1;
        }
        let Transaction { version: _, inputs: _, outputs, locktime: _ } = unsigned;
        let tx = Transaction { version: 1, inputs: signed, outputs, locktime: 0 };
        proof {
            lemma_blank_encoding_ignores_scripts(unsigned.inputs@, tx.inputs@);
            assert(tx.outputs@ == unsigned.outputs@);
            assert(tx_encoding(unsigned, true) =~= tx_encoding(tx, true));
            assert(sighash_of(unsigned) == sighash_of(tx));
            if from.wf() {
                assert forall|m: int|
                    0 <= m < k_goal && utxos@[m].1.script_pubkey@ == p2pkh_script(from.miner_id@)
                        implies input_verifies(#[trigger] tx.inputs@[m], tx, m, utxos@[m].1) by {
                    lemma_signed_input_verifies(tx, m, *from, utxos@[m].1);
                }
            }
        }
        Ok(tx)
    }
}

} // verus!
