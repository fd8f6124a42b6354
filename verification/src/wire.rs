//! The consensus wire format as mathematics: what a decoder reads from a byte string
//! (the value and how many bytes it took, or the error), and what an encoder writes.
use crate::hexcode::{hex_chars, hex_text_bytes};
use crate::transaction::{
    Decodable, Encodable, Error, IoError, TransactionModel, TxIn, TxInModel, TxOut, TxOutModel,
    Witness,
};
use vstd::bytes::{
    spec_u16_from_le_bytes, spec_u16_to_le_bytes, spec_u32_from_le_bytes, spec_u32_to_le_bytes,
    spec_u64_from_le_bytes, spec_u64_to_le_bytes,
};
use vstd::prelude::*;

verus! {

/// What a decoder reads from the front of a byte string: the value and how many bytes it
/// took, or the error and how many bytes had been taken when it arose.
pub type Decoded<V> = Result<(V, nat), (Error, nat)>;

/// The input `s` ended too early; a read that runs out takes all that is left.
pub open spec fn eof<T>(s: Seq<u8>) -> Decoded<T> {
    Err((Error::Io(IoError::UnexpectedEof), s.len()))
}

/// The message of the error for a segwit transaction that carries no witness.
pub open spec fn no_witness_message() -> &'static str {
    "witness flag set but no witnesses present"
}

pub open spec fn dec_u8(s: Seq<u8>) -> Decoded<u8> {
    if s.len() < 1 {
        eof(s)
    } else {
        Ok((s[0], 1))
    }
}

pub open spec fn dec_u16(s: Seq<u8>) -> Decoded<u16> {
    if s.len() < 2 {
        eof(s)
    } else {
        Ok((spec_u16_from_le_bytes(s.take(2)), 2))
    }
}

pub open spec fn dec_u32(s: Seq<u8>) -> Decoded<u32> {
    if s.len() < 4 {
        eof(s)
    } else {
        Ok((spec_u32_from_le_bytes(s.take(4)), 4))
    }
}

pub open spec fn dec_u64(s: Seq<u8>) -> Decoded<u64> {
    if s.len() < 8 {
        eof(s)
    } else {
        Ok((spec_u64_from_le_bytes(s.take(8)), 8))
    }
}

pub open spec fn dec_array32(s: Seq<u8>) -> Decoded<Seq<u8>> {
    if s.len() < 32 {
        eof(s)
    } else {
        Ok((s.take(32), 32))
    }
}

/// A compact size: a byte below `0xFD` is the value; `0xFD`, `0xFE` and `0xFF` announce a
/// little-endian `u16`, `u32` or `u64`. Values are not required to use the shortest form.
#[verifier::opaque]
pub open spec fn dec_compact_size(s: Seq<u8>) -> Decoded<u64> {
    match dec_u8(s) {
        Err(e) => Err(e),
        Ok((tag, _)) => {
            if tag == 0xFF {
                match dec_u64(s.skip(1)) {
                    Ok((x, k)) => Ok((x, k + 1)),
                    Err((e, k)) => Err((e, k + 1)),
                }
            } else if tag == 0xFE {
                match dec_u32(s.skip(1)) {
                    Ok((x, k)) => Ok((x as u64, k + 1)),
                    Err((e, k)) => Err((e, k + 1)),
                }
            } else if tag == 0xFD {
                match dec_u16(s.skip(1)) {
                    Ok((x, k)) => Ok((x as u64, k + 1)),
                    Err((e, k)) => Err((e, k + 1)),
                }
            } else {
                Ok((tag as u64, 1))
            }
        },
    }
}

/// A compact-size length followed by that many bytes.
#[verifier::opaque]
pub open spec fn dec_raw(s: Seq<u8>) -> Decoded<Seq<u8>> {
    match dec_compact_size(s) {
        Err(e) => Err(e),
        Ok((len, k)) => {
            if s.len() - k < len {
                eof(s)
            } else {
                Ok((s.subrange(k as int, (k + len) as int), (k + len) as nat))
            }
        },
    }
}

/// A script: a length-prefixed byte string, held as lower-case hexadecimal text.
#[verifier::opaque]
pub open spec fn dec_script(s: Seq<u8>) -> Decoded<Seq<char>> {
    match dec_raw(s) {
        Err(e) => Err(e),
        Ok((b, k)) => Ok((hex_chars(b), k)),
    }
}

/// `n` values of `T`, one after the other.
#[verifier::opaque]
pub open spec fn dec_many<T: Decodable>(s: Seq<u8>, n: nat) -> Decoded<Seq<<T as DeepView>::V>>
    decreases n,
{
    if n == 0 {
        Ok((Seq::empty(), 0))
    } else {
        match dec_many::<T>(s, (n - 1) as nat) {
            Err(e) => Err(e),
            Ok((vs, m)) => match T::spec_decode(s.skip(m as int)) {
                Err((e, k)) => Err((e, m + k)),
                Ok((v, k)) => Ok((vs.push(v), m + k)),
            },
        }
    }
}

/// A compact-size count followed by that many values of `T`.
#[verifier::opaque]
pub open spec fn dec_list<T: Decodable>(s: Seq<u8>) -> Decoded<Seq<<T as DeepView>::V>> {
    match dec_compact_size(s) {
        Err(e) => Err(e),
        Ok((count, k)) => match dec_many::<T>(s.skip(k as int), count as nat) {
            Err((e, m)) => Err((e, k + m)),
            Ok((vs, m)) => Ok((vs, k + m)),
        },
    }
}

/// `n` length-prefixed byte strings.
#[verifier::opaque]
pub open spec fn dec_raw_many(s: Seq<u8>, n: nat) -> Decoded<Seq<Seq<u8>>>
    decreases n,
{
    if n == 0 {
        Ok((Seq::empty(), 0))
    } else {
        match dec_raw_many(s, (n - 1) as nat) {
            Err(e) => Err(e),
            Ok((vs, m)) => match dec_raw(s.skip(m as int)) {
                Err((e, k)) => Err((e, m + k)),
                Ok((v, k)) => Ok((vs.push(v), m + k)),
            },
        }
    }
}

/// A witness: a one-byte count of items, each a length-prefixed byte string.
#[verifier::opaque]
pub open spec fn dec_witness(s: Seq<u8>) -> Decoded<Seq<Seq<u8>>> {
    match dec_u8(s) {
        Err(e) => Err(e),
        Ok((count, k)) => match dec_raw_many(s.skip(k as int), count as nat) {
            Err((e, m)) => Err((e, k + m)),
            Ok((items, m)) => Ok((items, k + m)),
        },
    }
}

/// An input: the previous transaction's id, the output index, the signature script and the
/// sequence number. It carries no witness.
#[verifier::opaque]
pub open spec fn dec_txin(s: Seq<u8>) -> Decoded<TxInModel> {
    match dec_array32(s) {
        Err(e) => Err(e),
        Ok((txid, a)) => match dec_u32(s.skip(a as int)) {
            Err((e, k)) => Err((e, a + k)),
            Ok((output_index, b)) => match dec_script(s.skip((a + b) as int)) {
                Err((e, k)) => Err((e, a + b + k)),
                Ok((script_sig, c)) => match dec_u32(s.skip((a + b + c) as int)) {
                    Err((e, k)) => Err((e, a + b + c + k)),
                    Ok((sequence, d)) => Ok(
                        (
                            TxInModel {
                                txid,
                                output_index,
                                script_sig,
                                witness: Seq::empty(),
                                sequence,
                            },
                            a + b + c + d,
                        ),
                    ),
                },
            },
        },
    }
}

/// An output: the amount in satoshis and the public key script.
#[verifier::opaque]
pub open spec fn dec_txout(s: Seq<u8>) -> Decoded<TxOutModel> {
    match dec_u64(s) {
        Err(e) => Err(e),
        Ok((amount, a)) => match dec_script(s.skip(a as int)) {
            Err((e, k)) => Err((e, a + k)),
            Ok((script_pubkey, b)) => Ok((TxOutModel { amount, script_pubkey }, a + b)),
        },
    }
}

/// The inputs with their witnesses set, one for each in order.
pub open spec fn with_witnesses(inputs: Seq<TxInModel>, witnesses: Seq<Seq<Seq<u8>>>) -> Seq<
    TxInModel,
> {
    Seq::new(inputs.len(), |i: int| TxInModel { witness: witnesses[i], ..inputs[i] })
}

/// Every input has an empty witness.
pub open spec fn no_witnesses(inputs: Seq<TxInModel>) -> bool {
    forall|i: int| 0 <= i < inputs.len() ==> (#[trigger] inputs[i]).witness.len() == 0
}

/// A transaction: the version, then the inputs. An empty input list is the segwit marker:
/// it must be followed by the flag `1`, the inputs, the outputs and one witness for each
/// input, and at least one of these witnesses must hold an item when there are inputs.
/// Last comes the lock time.
pub open spec fn dec_transaction(s: Seq<u8>) -> Decoded<TransactionModel> {
    match dec_u32(s) {
        Err(e) => Err(e),
        Ok((version, a)) => match dec_list::<TxIn>(s.skip(a as int)) {
            Err((e, k)) => Err((e, a + k)),
            Ok((inputs, b)) => {
                if inputs.len() == 0 {
                    match dec_segwit_body(s.skip((a + b) as int), version) {
                        Err((e, k)) => Err((e, a + b + k)),
                        Ok((tx, c)) => Ok((tx, a + b + c)),
                    }
                } else {
                    match dec_list::<TxOut>(s.skip((a + b) as int)) {
                        Err((e, k)) => Err((e, a + b + k)),
                        Ok((outputs, c)) => match dec_u32(s.skip((a + b + c) as int)) {
                            Err((e, k)) => Err((e, a + b + c + k)),
                            Ok((lock_time, d)) => Ok(
                                (
                                    TransactionModel { version, inputs, outputs, lock_time },
                                    a + b + c + d,
                                ),
                            ),
                        },
                    }
                }
            },
        },
    }
}

/// What follows the segwit marker. An unsupported flag is found after the flag byte; a
/// missing witness after all the witnesses.
pub open spec fn dec_segwit_body(s: Seq<u8>, version: u32) -> Decoded<TransactionModel> {
    match dec_u8(s) {
        Err(e) => Err(e),
        Ok((flag, a)) => {
            if flag != 1 {
                Err((Error::UnsupportedSegwitFlag(flag), a))
            } else {
                match dec_list::<TxIn>(s.skip(a as int)) {
                    Err((e, k)) => Err((e, a + k)),
                    Ok((inputs, b)) => match dec_list::<TxOut>(s.skip((a + b) as int)) {
                        Err((e, k)) => Err((e, a + b + k)),
                        Ok((outputs, c)) => match dec_many::<Witness>(
                            s.skip((a + b + c) as int),
                            inputs.len(),
                        ) {
                            Err((e, k)) => Err((e, a + b + c + k)),
                            Ok((witnesses, d)) => {
                                let inputs = with_witnesses(inputs, witnesses);
                                if inputs.len() > 0 && no_witnesses(inputs) {
                                    Err((Error::ParseFailed(no_witness_message()), a + b + c + d))
                                } else {
                                    match dec_u32(s.skip((a + b + c + d) as int)) {
                                        Err((e, k)) => Err((e, a + b + c + d + k)),
                                        Ok((lock_time, f)) => Ok(
                                            (
                                                TransactionModel {
                                                    version,
                                                    inputs,
                                                    outputs,
                                                    lock_time,
                                                },
                                                a + b + c + d + f,
                                            ),
                                        ),
                                    }
                                }
                            },
                        },
                    },
                }
            }
        },
    }
}

pub open spec fn enc_u8(x: u8) -> Seq<u8> {
    seq![x]
}

pub open spec fn enc_u16(x: u16) -> Seq<u8> {
    spec_u16_to_le_bytes(x)
}

pub open spec fn enc_u32(x: u32) -> Seq<u8> {
    spec_u32_to_le_bytes(x)
}

pub open spec fn enc_u64(x: u64) -> Seq<u8> {
    spec_u64_to_le_bytes(x)
}

/// Little-endian integers take 2, 4 and 8 bytes and read back as written.
pub proof fn lemma_le_bytes()
    ensures
        forall|x: u16|
            #![trigger enc_u16(x)]
            enc_u16(x).len() == 2 && spec_u16_from_le_bytes(enc_u16(x)) == x,
        forall|x: u32|
            #![trigger enc_u32(x)]
            enc_u32(x).len() == 4 && spec_u32_from_le_bytes(enc_u32(x)) == x,
        forall|x: u64|
            #![trigger enc_u64(x)]
            enc_u64(x).len() == 8 && spec_u64_from_le_bytes(enc_u64(x)) == x,
{
    vstd::bytes::lemma_auto_spec_u16_to_from_le_bytes();
    vstd::bytes::lemma_auto_spec_u32_to_from_le_bytes();
    vstd::bytes::lemma_auto_spec_u64_to_from_le_bytes();
}

/// The shortest compact size of `n`.
pub open spec fn enc_compact_size(n: u64) -> Seq<u8> {
    if n <= 0xFC {
        enc_u8(n as u8)
    } else if n <= 0xFFFF {
        seq![0xFDu8] + enc_u16(n as u16)
    } else if n <= 0xFFFF_FFFF {
        seq![0xFEu8] + enc_u32(n as u32)
    } else {
        seq![0xFFu8] + enc_u64(n)
    }
}

/// A byte string with its compact-size length in front.
pub open spec fn enc_raw(b: Seq<u8>) -> Seq<u8> {
    enc_compact_size(b.len() as u64) + b
}

/// A script held as hexadecimal text: the bytes that the text stands for, length first.
pub open spec fn enc_script(s: Seq<char>) -> Seq<u8> {
    enc_raw(hex_text_bytes(s))
}

/// The encodings of all of `vs`, one after the other.
pub open spec fn enc_many<T: Encodable>(vs: Seq<<T as DeepView>::V>) -> Seq<u8>
    decreases vs.len(),
{
    if vs.len() == 0 {
        Seq::empty()
    } else {
        enc_many::<T>(vs.drop_last()) + T::spec_encode(vs.last())
    }
}

/// Every one of `vs` can be encoded.
pub open spec fn all_encodable<T: Encodable>(vs: Seq<<T as DeepView>::V>) -> bool {
    forall|i: int| 0 <= i < vs.len() ==> #[trigger] T::spec_encodable(vs[i])
}

/// A compact-size count followed by the encodings of `vs`.
pub open spec fn enc_list<T: Encodable>(vs: Seq<<T as DeepView>::V>) -> Seq<u8> {
    enc_compact_size(vs.len() as u64) + enc_many::<T>(vs)
}

/// An input without its witness.
pub open spec fn enc_txin(t: TxInModel) -> Seq<u8> {
    t.txid + enc_u32(t.output_index) + enc_script(t.script_sig) + enc_u32(t.sequence)
}

pub open spec fn enc_txout(o: TxOutModel) -> Seq<u8> {
    enc_u64(o.amount) + enc_script(o.script_pubkey)
}

/// The bytes whose double SHA-256 is the transaction id: version, inputs, outputs and lock
/// time, without witnesses.
pub open spec fn txid_preimage(tx: TransactionModel) -> Seq<u8> {
    enc_u32(tx.version) + enc_list::<TxIn>(tx.inputs) + enc_list::<TxOut>(tx.outputs) + enc_u32(
        tx.lock_time,
    )
}

} // verus!
