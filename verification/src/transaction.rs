//! Bitcoin transactions, their consensus decoding and encoding, and their id.
use crate::hexcode::{decode_hex, encode_hex, hex_chars, is_hex_text};
use crate::reader::Reader;
use crate::sha::{sha256, sha256_digest};
use crate::wire::{
    Decoded,
    all_encodable, dec_array32, dec_compact_size, dec_list, dec_many, dec_raw_many, dec_script,
    dec_segwit_body, dec_transaction, dec_txin, dec_txout, dec_u16, dec_u32, dec_u64, dec_u8,
    dec_witness, enc_compact_size, enc_list, enc_many, enc_script, enc_txin, enc_txout, enc_u16,
    enc_u32, enc_u64, enc_u8, lemma_le_bytes, no_witnesses, txid_preimage, with_witnesses,
};
use vstd::prelude::*;

verus! {

/// How a read from memory fails.
#[derive(Debug, Clone, Copy, PartialEq, Eq, Structural)]
pub enum IoError {
    /// The input ended before all the bytes asked for were there.
    UnexpectedEof,
}

/// Why a transaction does not decode.
#[derive(Debug, Clone, Copy, PartialEq, Eq)]
pub enum Error {
    /// Reading the input failed.
    Io(IoError),
    /// The segwit marker was followed by a flag other than `1`.
    UnsupportedSegwitFlag(u8),
    /// The input is not a transaction, for the reason given.
    ParseFailed(&'static str),
}

/// A transaction as mathematics.
pub struct TransactionModel {
    pub version: u32,
    pub inputs: Seq<TxInModel>,
    pub outputs: Seq<TxOutModel>,
    pub lock_time: u32,
}

/// An input as mathematics: scripts are hexadecimal text, the witness a list of byte strings.
pub struct TxInModel {
    pub txid: Seq<u8>,
    pub output_index: u32,
    pub script_sig: Seq<char>,
    pub witness: Seq<Seq<u8>>,
    pub sequence: u32,
}

/// An output as mathematics.
pub struct TxOutModel {
    pub amount: u64,
    pub script_pubkey: Seq<char>,
}

#[derive(Debug)]
pub struct Transaction {
    pub version: u32,
    pub inputs: Vec<TxIn>,
    pub outputs: Vec<TxOut>,
    pub lock_time: u32,
}

/// A transaction id: 32 bytes in the order in which they are hashed and encoded.
#[derive(Debug)]
pub struct Txid([u8; 32]);

#[derive(Debug)]
pub struct TxIn {
    pub txid: Txid,
    pub output_index: u32,
    pub script_sig: String,
    pub witness: Witness,
    pub sequence: u32,
}

#[derive(Debug)]
pub struct Witness {
    content: Vec<Vec<u8>>,
}

/// An amount of satoshis.
#[derive(Debug)]
pub struct Amount(u64);

#[derive(Debug)]
pub struct TxOut {
    pub amount: Amount,
    pub script_pubkey: String,
}

/// A count or length in the variable-length form of the consensus encoding.
#[derive(Debug)]
pub struct CompactSize(pub u64);

impl Txid {
    /// The id's bytes.
    pub closed spec fn bytes(&self) -> Seq<u8> {
        self.0@
    }

    /// An id has 32 bytes.
    pub broadcast proof fn lemma_len(id: &Txid)
        ensures
            #[trigger] id.bytes().len() == 32,
    {
    }
}

impl DeepView for Txid {
    type V = Seq<u8>;

    open spec fn deep_view(&self) -> Seq<u8> {
        self.bytes()
    }
}

impl View for Txid {
    type V = Seq<u8>;

    open spec fn view(&self) -> Seq<u8> {
        self.deep_view()
    }
}

impl Witness {
    /// The witness's items.
    pub closed spec fn items(&self) -> Seq<Seq<u8>> {
        Seq::new(self.content@.len(), |i: int| self.content@[i]@)
    }
}

impl DeepView for Witness {
    type V = Seq<Seq<u8>>;

    open spec fn deep_view(&self) -> Seq<Seq<u8>> {
        self.items()
    }
}

impl View for Witness {
    type V = Seq<Seq<u8>>;

    open spec fn view(&self) -> Seq<Seq<u8>> {
        self.deep_view()
    }
}

impl DeepView for TxIn {
    type V = TxInModel;

    open spec fn deep_view(&self) -> TxInModel {
        TxInModel {
            txid: self.txid@,
            output_index: self.output_index,
            script_sig: self.script_sig@,
            witness: self.witness@,
            sequence: self.sequence,
        }
    }
}

impl View for TxIn {
    type V = TxInModel;

    open spec fn view(&self) -> TxInModel {
        self.deep_view()
    }
}

impl Amount {
    /// The number of satoshis.
    pub closed spec fn sat(&self) -> u64 {
        self.0
    }
}

impl DeepView for Amount {
    type V = u64;

    open spec fn deep_view(&self) -> u64 {
        self.sat()
    }
}

impl View for Amount {
    type V = u64;

    open spec fn view(&self) -> u64 {
        self.deep_view()
    }
}

impl DeepView for TxOut {
    type V = TxOutModel;

    open spec fn deep_view(&self) -> TxOutModel {
        TxOutModel { amount: self.amount@, script_pubkey: self.script_pubkey@ }
    }
}

impl View for TxOut {
    type V = TxOutModel;

    open spec fn view(&self) -> TxOutModel {
        self.deep_view()
    }
}

impl DeepView for CompactSize {
    type V = u64;

    open spec fn deep_view(&self) -> u64 {
        self.0
    }
}

impl DeepView for Transaction {
    type V = TransactionModel;

    open spec fn deep_view(&self) -> TransactionModel {
        TransactionModel {
            version: self.version,
            inputs: self.inputs.deep_view(),
            outputs: self.outputs.deep_view(),
            lock_time: self.lock_time,
        }
    }
}

impl View for Transaction {
    type V = TransactionModel;

    open spec fn view(&self) -> TransactionModel {
        self.deep_view()
    }
}

/// A value that can be read from the consensus encoding.
pub trait Decodable: Sized + DeepView {
    /// What decoding reads from the front of `input`: the value and how many bytes it took,
    /// or the error.
    spec fn spec_decode(input: Seq<u8>) -> Decoded<<Self as DeepView>::V>;

    /// Reads one value; on success the reader has moved past exactly its bytes.
    fn consensus_decode(r: &mut Reader) -> (res: Result<Self, Error>)
        requires
            old(r).wf(),
        ensures
            final(r).wf(),
            final(r).input() == old(r).input(),
            match Self::spec_decode(old(r).remaining()) {
                Ok((v, n)) => res matches Ok(x) && x.deep_view() == v && final(r).position()
                    == old(r).position() + n,
                Err((e, n)) => res == Err::<Self, Error>(e) && final(r).position()
                    == old(r).position() + n,
            },
    ;
}

/// A value that can be written in the consensus encoding.
pub trait Encodable: DeepView {
    /// The value can be written (its scripts are hexadecimal text).
    spec fn spec_encodable(v: <Self as DeepView>::V) -> bool;

    /// The bytes written for the value.
    spec fn spec_encode(v: <Self as DeepView>::V) -> Seq<u8>;

    /// Appends the value's bytes to `w` and returns how many were written.
    fn consensus_encode(&self, w: &mut Vec<u8>) -> (res: Result<usize, Error>)
        requires
            Self::spec_encodable(self.deep_view()),
        ensures
            final(w)@ == old(w)@ + Self::spec_encode(self.deep_view()),
            res == Ok::<usize, Error>(Self::spec_encode(self.deep_view()).len() as usize),
    ;
}

impl Decodable for u8 {
    open spec fn spec_decode(input: Seq<u8>) -> Decoded<u8> {
        dec_u8(input)
    }

    fn consensus_decode(r: &mut Reader) -> (res: Result<u8, Error>) {
        let ghost s = r.remaining();
        let res = r.read_u8();
        assert(Self::spec_decode(s) == dec_u8(s));
        res
    }
}

impl Decodable for u16 {
    open spec fn spec_decode(input: Seq<u8>) -> Decoded<u16> {
        dec_u16(input)
    }

    fn consensus_decode(r: &mut Reader) -> (res: Result<u16, Error>) {
        let ghost s = r.remaining();
        let res = r.read_u16();
        assert(Self::spec_decode(s) == dec_u16(s));
        res
    }
}

impl Decodable for u32 {
    open spec fn spec_decode(input: Seq<u8>) -> Decoded<u32> {
        dec_u32(input)
    }

    fn consensus_decode(r: &mut Reader) -> (res: Result<u32, Error>) {
        let ghost s = r.remaining();
        let res = r.read_u32();
        assert(Self::spec_decode(s) == dec_u32(s));
        res
    }
}

impl Decodable for u64 {
    open spec fn spec_decode(input: Seq<u8>) -> Decoded<u64> {
        dec_u64(input)
    }

    fn consensus_decode(r: &mut Reader) -> (res: Result<u64, Error>) {
        let ghost s = r.remaining();
        let res = r.read_u64();
        assert(Self::spec_decode(s) == dec_u64(s));
        res
    }
}

impl Decodable for CompactSize {
    open spec fn spec_decode(input: Seq<u8>) -> Decoded<u64> {
        dec_compact_size(input)
    }

    fn consensus_decode(r: &mut Reader) -> (res: Result<CompactSize, Error>) {
        match r.read_compact_size() {
            Ok(n) => Ok(CompactSize(n)),
            Err(e) => Err(e),
        }
    }
}

/// A script is read as its bytes and held as lower-case hexadecimal text.
impl Decodable for String {
    open spec fn spec_decode(input: Seq<u8>) -> Decoded<Seq<char>> {
        dec_script(input)
    }

    fn consensus_decode(r: &mut Reader) -> (res: Result<String, Error>) {
        proof {
            reveal(dec_script);
        }
        let ghost s = r.remaining();
        let res = r.read_raw();
        assert(Self::spec_decode(s) == dec_script(s));
        match res {
            Ok(buffer) => Ok(encode_hex(buffer.as_slice())),
            Err(e) => Err(e),
        }
    }
}

/// Reads `count` values of `T` in order, stopping at the first error.
fn decode_many<T: Decodable>(r: &mut Reader, count: u64) -> (res: Result<Vec<T>, Error>)
    requires
        old(r).wf(),
    ensures
        final(r).wf(),
        final(r).input() == old(r).input(),
        match dec_many::<T>(old(r).remaining(), count as nat) {
            Ok((vs, n)) => res matches Ok(v) && v.deep_view() == vs && final(r).position()
                == old(r).position() + n,
            Err((e, n)) => res == Err::<Vec<T>, Error>(e) && final(r).position()
                    == old(r).position() + n,
        },
{
    proof {
        reveal(dec_many);
        r.lemma_bounds();
    }
    let ghost s = r.remaining();
    let ghost p0 = r.position();
    let mut items: Vec<T> = Vec::new();
    let mut i: u64 = 0;
    assert(items.deep_view() =~= Seq::<<T as DeepView>::V>::empty());
    while i < count
        invariant
            r.wf(),
            r.input() == old(r).input(),
            s == old(r).remaining(),
            p0 == old(r).position(),
            i <= count,
            0 <= p0 <= r.position(),
            r.remaining() == s.skip(r.position() - p0),
            dec_many::<T>(s, i as nat) == Ok::<(Seq<<T as DeepView>::V>, nat), (Error, nat)>(
                (items.deep_view(), (r.position() - p0) as nat),
            ),
        decreases count - i,
    {
        proof {
            reveal(dec_many);
        }
        let ghost before = items.deep_view();
        match T::consensus_decode(r) {
            Ok(x) => {
                items.push(x);
                assert(items.deep_view() =~= before.push(x.deep_view()));
                i = i + 1;
                proof {
                    r.lemma_bounds();
                }
                assert(r.remaining() =~= s.skip(r.position() - p0));
            },
            Err(e) => {
                proof {
                    lemma_dec_many_err::<T>(s, (i + 1) as nat, count as nat);
                }
                return Err(e);
            },
        }
    }
    Ok(items)
}

/// Once reading a list fails, reading a longer one fails with the same error.
proof fn lemma_dec_many_err<T: Decodable>(s: Seq<u8>, i: nat, n: nat)
    requires
        i <= n,
        dec_many::<T>(s, i) is Err,
    ensures
        dec_many::<T>(s, n) == dec_many::<T>(s, i),
    decreases n - i,
{
    reveal(dec_many);
    if i < n {
        lemma_dec_many_err::<T>(s, i, (n - 1) as nat);
    }
}

/// Reads a compact-size count, then that many values of `T`.
fn decode_list<T: Decodable>(r: &mut Reader) -> (res: Result<Vec<T>, Error>)
    requires
        old(r).wf(),
    ensures
        final(r).wf(),
        final(r).input() == old(r).input(),
        match dec_list::<T>(old(r).remaining()) {
            Ok((vs, n)) => res matches Ok(v) && v.deep_view() == vs && final(r).position()
                == old(r).position() + n,
            Err((e, n)) => res == Err::<Vec<T>, Error>(e) && final(r).position()
                    == old(r).position() + n,
        },
{
    proof {
        reveal(dec_list);
        r.lemma_bounds();
    }
    let ghost s = r.remaining();
    let count = match CompactSize::consensus_decode(r) {
        Ok(c) => c.0,
        Err(e) => return Err(e),
    };
    proof {
        r.lemma_bounds();
        old(r).lemma_bounds();
    }
    assert(r.remaining() =~= s.skip(r.position() - old(r).position()));
    decode_many::<T>(r, count)
}

impl Decodable for Vec<TxIn> {
    open spec fn spec_decode(input: Seq<u8>) -> Decoded<Seq<TxInModel>> {
        dec_list::<TxIn>(input)
    }

    fn consensus_decode(r: &mut Reader) -> (res: Result<Vec<TxIn>, Error>) {
        decode_list::<TxIn>(r)
    }
}

impl Decodable for TxIn {
    open spec fn spec_decode(input: Seq<u8>) -> Decoded<TxInModel> {
        dec_txin(input)
    }

    fn consensus_decode(r: &mut Reader) -> (res: Result<TxIn, Error>) {
        proof {
            reveal(dec_txin);
            r.lemma_bounds();
        }
        let ghost s = r.remaining();
        let ghost p0 = r.position();
        let txid = match Txid::consensus_decode(r) {
            Ok(x) => x,
            Err(e) => return Err(e),
        };
        proof {
            r.lemma_bounds();
        }
        assert(r.remaining() =~= s.skip(r.position() - p0));
        let output_index = match u32::consensus_decode(r) {
            Ok(x) => x,
            Err(e) => return Err(e),
        };
        proof {
            r.lemma_bounds();
        }
        assert(r.remaining() =~= s.skip(r.position() - p0));
        let script_sig = match String::consensus_decode(r) {
            Ok(x) => x,
            Err(e) => return Err(e),
        };
        proof {
            r.lemma_bounds();
        }
        assert(r.remaining() =~= s.skip(r.position() - p0));
        let sequence = match u32::consensus_decode(r) {
            Ok(x) => x,
            Err(e) => return Err(e),
        };
        let witness = Witness::new();
        Ok(TxIn { txid, output_index, script_sig, sequence, witness })
    }
}

impl Decodable for Witness {
    open spec fn spec_decode(input: Seq<u8>) -> Decoded<Seq<Seq<u8>>> {
        dec_witness(input)
    }

    fn consensus_decode(r: &mut Reader) -> (res: Result<Witness, Error>) {
        proof {
            reveal(dec_witness);
            reveal(dec_raw_many);
            r.lemma_bounds();
        }
        let ghost s0 = r.remaining();
        let mut witness_items: Vec<Vec<u8>> = Vec::new();
        let count = match u8::consensus_decode(r) {
            Ok(c) => c,
            Err(e) => return Err(e),
        };
        proof {
            r.lemma_bounds();
        }
        let ghost s = r.remaining();
        let ghost p0 = r.position();
        assert(s =~= s0.skip(1));
        assert(Seq::new(witness_items@.len(), |j: int| witness_items@[j]@) =~= Seq::<
            Seq<u8>,
        >::empty());
        let mut i: u8 = 0;
        while i < count
            invariant
                r.wf(),
                r.input() == old(r).input(),
                i <= count,
                0 <= p0 <= r.position(),
                s == r.input().skip(p0),
                s == s0.skip(1),
                s0 == old(r).remaining(),
                p0 == old(r).position() + 1,
                dec_u8(s0) == Ok::<(u8, nat), (Error, nat)>((count, 1)),
                r.remaining() == s.skip(r.position() - p0),
                dec_raw_many(s, i as nat) == Ok::<(Seq<Seq<u8>>, nat), (Error, nat)>(
                    (
                        Seq::new(witness_items@.len(), |j: int| witness_items@[j]@),
                        (r.position() - p0) as nat,
                    ),
                ),
            decreases count - i,
        {
            proof {
                reveal(dec_raw_many);
                reveal(dec_witness);
            }
            let ghost before = Seq::new(witness_items@.len(), |j: int| witness_items@[j]@);
            match r.read_raw() {
                Ok(buffer) => {
                    witness_items.push(buffer);
                    assert(Seq::new(witness_items@.len(), |j: int| witness_items@[j]@)
                        =~= before.push(buffer@));
                    i = i + 1;
                    proof {
                        r.lemma_bounds();
                    }
                    assert(r.remaining() =~= s.skip(r.position() - p0));
                },
                Err(e) => {
                    proof {
                        lemma_dec_raw_many_err(s, (i + 1) as nat, count as nat);
                    }
                    return Err(e);
                },
            }
        }
        Ok(Witness { content: witness_items })
    }
}

/// Once reading byte strings fails, reading more of them fails with the same error.
proof fn lemma_dec_raw_many_err(s: Seq<u8>, i: nat, n: nat)
    requires
        i <= n,
        dec_raw_many(s, i) is Err,
    ensures
        dec_raw_many(s, n) == dec_raw_many(s, i),
    decreases n - i,
{
    reveal(dec_raw_many);
    if i < n {
        lemma_dec_raw_many_err(s, i, (n - 1) as nat);
    }
}

impl Decodable for Txid {
    open spec fn spec_decode(input: Seq<u8>) -> Decoded<Seq<u8>> {
        dec_array32(input)
    }

    fn consensus_decode(r: &mut Reader) -> (res: Result<Txid, Error>) {
        let ghost s = r.remaining();
        match r.read_array32() {
            Ok(buffer) => {
                let id = Txid(buffer);
                assert(Self::spec_decode(s) == dec_array32(s));
                assert(id.deep_view() == buffer@);
                Ok(id)
            },
            Err(e) => Err(e),
        }
    }
}

impl Decodable for Vec<TxOut> {
    open spec fn spec_decode(input: Seq<u8>) -> Decoded<Seq<TxOutModel>> {
        dec_list::<TxOut>(input)
    }

    fn consensus_decode(r: &mut Reader) -> (res: Result<Vec<TxOut>, Error>) {
        decode_list::<TxOut>(r)
    }
}

impl Decodable for TxOut {
    open spec fn spec_decode(input: Seq<u8>) -> Decoded<TxOutModel> {
        dec_txout(input)
    }

    fn consensus_decode(r: &mut Reader) -> (res: Result<TxOut, Error>) {
        proof {
            reveal(dec_txout);
            r.lemma_bounds();
        }
        let ghost s = r.remaining();
        let ghost p0 = r.position();
        let amount = match u64::consensus_decode(r) {
            Ok(x) => Amount::from_sat(x),
            Err(e) => return Err(e),
        };
        proof {
            r.lemma_bounds();
        }
        assert(r.remaining() =~= s.skip(r.position() - p0));
        let script_pubkey = match String::consensus_decode(r) {
            Ok(x) => x,
            Err(e) => return Err(e),
        };
        Ok(TxOut { amount, script_pubkey })
    }
}

impl Witness {
    /// A witness with no items.
    pub fn new() -> (w: Self)
        ensures
            w@ == Seq::<Seq<u8>>::empty(),
    {
        let w = Witness { content: Vec::new() };
        assert(w@ =~= Seq::<Seq<u8>>::empty());
        w
    }

    /// The witness holds no items.
    pub fn is_empty(&self) -> (b: bool)
        ensures
            b == (self@.len() == 0),
    {
        self.content.len() == 0
    }
}

impl Amount {
    /// The amount of `satoshi` satoshis.
    pub fn from_sat(satoshi: u64) -> (a: Amount)
        ensures
            a@ == satoshi,
    {
        Amount(satoshi)
    }
}


impl Encodable for u8 {
    open spec fn spec_encodable(v: u8) -> bool {
        true
    }

    open spec fn spec_encode(v: u8) -> Seq<u8> {
        enc_u8(v)
    }

    fn consensus_encode(&self, w: &mut Vec<u8>) -> (res: Result<usize, Error>) {
        w.push(*self);
        assert(w@ =~= old(w)@ + enc_u8(*self));
        Ok(1)
    }
}

impl Encodable for u16 {
    open spec fn spec_encodable(v: u16) -> bool {
        true
    }

    open spec fn spec_encode(v: u16) -> Seq<u8> {
        enc_u16(v)
    }

    fn consensus_encode(&self, w: &mut Vec<u8>) -> (res: Result<usize, Error>) {
        proof {
            lemma_le_bytes();
        }
        let mut b = vstd::bytes::u16_to_le_bytes(*self);
        w.append(&mut b);
        Ok(2)
    }
}

impl Encodable for u32 {
    open spec fn spec_encodable(v: u32) -> bool {
        true
    }

    open spec fn spec_encode(v: u32) -> Seq<u8> {
        enc_u32(v)
    }

    fn consensus_encode(&self, w: &mut Vec<u8>) -> (res: Result<usize, Error>) {
        proof {
            lemma_le_bytes();
        }
        let mut b = vstd::bytes::u32_to_le_bytes(*self);
        w.append(&mut b);
        Ok(4)
    }
}

impl Encodable for u64 {
    open spec fn spec_encodable(v: u64) -> bool {
        true
    }

    open spec fn spec_encode(v: u64) -> Seq<u8> {
        enc_u64(v)
    }

    fn consensus_encode(&self, w: &mut Vec<u8>) -> (res: Result<usize, Error>) {
        proof {
            lemma_le_bytes();
        }
        let mut b = vstd::bytes::u64_to_le_bytes(*self);
        w.append(&mut b);
        Ok(8)
    }
}

/// Appends `bytes` to `w`.
fn write_all(w: &mut Vec<u8>, bytes: &[u8])
    ensures
        final(w)@ == old(w)@ + bytes@,
{
    let mut i: usize = 0;
    while i < bytes.len()
        invariant
            i <= bytes@.len(),
            w@ == old(w)@ + bytes@.take(i as int),
        decreases bytes@.len() - i,
    {
        w.push(bytes[i]);
        i = i + 1;
        assert(w@ =~= old(w)@ + bytes@.take(i as int));
    }
    assert(bytes@.take(i as int) =~= bytes@);
}

impl Encodable for [u8; 32] {
    open spec fn spec_encodable(v: Seq<u8>) -> bool {
        true
    }

    open spec fn spec_encode(v: Seq<u8>) -> Seq<u8> {
        v
    }

    fn consensus_encode(&self, w: &mut Vec<u8>) -> (res: Result<usize, Error>) {
        assert(self.deep_view() =~= self@);
        write_all(w, self.as_slice());
        Ok(32)
    }
}

/// A script, held as hexadecimal text, is written as the bytes that the text stands for.
impl Encodable for String {
    open spec fn spec_encodable(v: Seq<char>) -> bool {
        is_hex_text(v)
    }

    open spec fn spec_encode(v: Seq<char>) -> Seq<u8> {
        enc_script(v)
    }

    fn consensus_encode(&self, w: &mut Vec<u8>) -> (res: Result<usize, Error>) {
        let b = match decode_hex(self.as_str().as_bytes()) {
            Ok(b) => b,
            Err(_) => {
                proof {
                    assert(false);
                }
                return vstd::pervasive::unreached();
            },
        };
        let start = w.len();
        let _ = CompactSize(b.len() as u64).consensus_encode(w);
        write_all(w, b.as_slice());
        assert(w@ =~= old(w)@ + enc_script(self@));
        Ok(w.len() - start)
    }
}

impl Encodable for CompactSize {
    open spec fn spec_encodable(v: u64) -> bool {
        true
    }

    open spec fn spec_encode(v: u64) -> Seq<u8> {
        enc_compact_size(v)
    }

    fn consensus_encode(&self, w: &mut Vec<u8>) -> (res: Result<usize, Error>) {
        proof {
            lemma_le_bytes();
        }
        if self.0 <= 0xFC {
            let _ = (self.0 as u8).consensus_encode(w);
            Ok(1)
        } else if self.0 <= 0xFFFF {
            w.push(0xFD);
            let _ = (self.0 as u16).consensus_encode(w);
            assert(w@ =~= old(w)@ + enc_compact_size(self.0));
            Ok(3)
        } else if self.0 <= 0xFFFF_FFFF {
            w.push(0xFE);
            let _ = (self.0 as u32).consensus_encode(w);
            assert(w@ =~= old(w)@ + enc_compact_size(self.0));
            Ok(5)
        } else {
            w.push(0xFF);
            let _ = self.0.consensus_encode(w);
            assert(w@ =~= old(w)@ + enc_compact_size(self.0));
            Ok(9)
        }
    }
}

/// Appends the encodings of all `items` in order.
fn encode_many<T: Encodable>(items: &Vec<T>, w: &mut Vec<u8>)
    requires
        all_encodable::<T>(items.deep_view()),
    ensures
        final(w)@ == old(w)@ + enc_many::<T>(items.deep_view()),
{
    let ghost vs = items.deep_view();
    let mut i: usize = 0;
    assert(vs.take(0) =~= Seq::<<T as DeepView>::V>::empty());
    assert(w@ =~= old(w)@ + enc_many::<T>(vs.take(0)));
    while i < items.len()
        invariant
            vs == items.deep_view(),
            all_encodable::<T>(vs),
            i <= vs.len(),
            w@ == old(w)@ + enc_many::<T>(vs.take(i as int)),
        decreases vs.len() - i,
    {
        assert(T::spec_encodable(vs[i as int]));
        let _ = items[i].consensus_encode(w);
        assert(vs.take((i + 1) as int).drop_last() =~= vs.take(i as int));
        i = i + 1;
        assert(w@ =~= old(w)@ + enc_many::<T>(vs.take(i as int)));
    }
    assert(vs.take(i as int) =~= vs);
}

/// Appends a compact-size count and the encodings of all `items`; returns how many bytes.
fn encode_list<T: Encodable>(items: &Vec<T>, w: &mut Vec<u8>) -> (n: usize)
    requires
        all_encodable::<T>(items.deep_view()),
    ensures
        final(w)@ == old(w)@ + enc_list::<T>(items.deep_view()),
        n == enc_list::<T>(items.deep_view()).len(),
{
    let start = w.len();
    let _ = CompactSize(items.len() as u64).consensus_encode(w);
    encode_many(items, w);
    assert(w@ =~= old(w)@ + enc_list::<T>(items.deep_view()));
    w.len() - start
}

impl Encodable for Vec<TxIn> {
    open spec fn spec_encodable(v: Seq<TxInModel>) -> bool {
        all_encodable::<TxIn>(v)
    }

    open spec fn spec_encode(v: Seq<TxInModel>) -> Seq<u8> {
        enc_list::<TxIn>(v)
    }

    fn consensus_encode(&self, w: &mut Vec<u8>) -> (res: Result<usize, Error>) {
        Ok(encode_list(self, w))
    }
}

impl Encodable for Txid {
    open spec fn spec_encodable(v: Seq<u8>) -> bool {
        true
    }

    open spec fn spec_encode(v: Seq<u8>) -> Seq<u8> {
        v
    }

    fn consensus_encode(&self, w: &mut Vec<u8>) -> (res: Result<usize, Error>) {
        assert(self.0.deep_view() =~= self.0@);
        assert(Self::spec_encode(self.deep_view()) == self.0@);
        let n = self.0.consensus_encode(w);
        n
    }
}

/// An input is written without its witness.
impl Encodable for TxIn {
    open spec fn spec_encodable(v: TxInModel) -> bool {
        is_hex_text(v.script_sig)
    }

    open spec fn spec_encode(v: TxInModel) -> Seq<u8> {
        enc_txin(v)
    }

    fn consensus_encode(&self, w: &mut Vec<u8>) -> (res: Result<usize, Error>) {
        let start = w.len();
        let _ = self.txid.consensus_encode(w);
        let _ = self.output_index.consensus_encode(w);
        let _ = self.script_sig.consensus_encode(w);
        let _ = self.sequence.consensus_encode(w);
        assert(w@ =~= old(w)@ + enc_txin(self@));
        Ok(w.len() - start)
    }
}

impl Encodable for Vec<TxOut> {
    open spec fn spec_encodable(v: Seq<TxOutModel>) -> bool {
        all_encodable::<TxOut>(v)
    }

    open spec fn spec_encode(v: Seq<TxOutModel>) -> Seq<u8> {
        enc_list::<TxOut>(v)
    }

    fn consensus_encode(&self, w: &mut Vec<u8>) -> (res: Result<usize, Error>) {
        Ok(encode_list(self, w))
    }
}

impl Encodable for Amount {
    open spec fn spec_encodable(v: u64) -> bool {
        true
    }

    open spec fn spec_encode(v: u64) -> Seq<u8> {
        enc_u64(v)
    }

    fn consensus_encode(&self, w: &mut Vec<u8>) -> (res: Result<usize, Error>) {
        assert(self.deep_view() == self.0);
        assert(self.sat() == self.0);
        assert(Self::spec_encode(self.deep_view()) == enc_u64(self.0));
        let n = self.0.consensus_encode(w);
        n
    }
}

impl Encodable for TxOut {
    open spec fn spec_encodable(v: TxOutModel) -> bool {
        is_hex_text(v.script_pubkey)
    }

    open spec fn spec_encode(v: TxOutModel) -> Seq<u8> {
        enc_txout(v)
    }

    fn consensus_encode(&self, w: &mut Vec<u8>) -> (res: Result<usize, Error>) {
        let start = w.len();
        let _ = self.amount.consensus_encode(w);
        let _ = self.script_pubkey.consensus_encode(w);
        assert(w@ =~= old(w)@ + enc_txout(self@));
        Ok(w.len() - start)
    }
}

/// Every input's witness is empty.
fn all_witnesses_empty(inputs: &Vec<TxIn>) -> (b: bool)
    ensures
        b == no_witnesses(inputs.deep_view()),
{
    let mut j: usize = 0;
    while j < inputs.len()
        invariant
            j <= inputs@.len(),
            forall|k: int| 0 <= k < j ==> (#[trigger] inputs.deep_view()[k]).witness.len() == 0,
        decreases inputs@.len() - j,
    {
        if !inputs[j].witness.is_empty() {
            assert(inputs.deep_view()[j as int].witness.len() != 0);
            return false;
        }
        j = j + 1;
    }
    true
}

/// Reads one witness for each input, in order, and sets it there.
fn decode_witnesses(r: &mut Reader, inputs: &mut Vec<TxIn>) -> (res: Result<(), Error>)
    requires
        old(r).wf(),
    ensures
        final(r).wf(),
        final(r).input() == old(r).input(),
        match dec_many::<Witness>(old(r).remaining(), old(inputs).deep_view().len()) {
            Ok((ws, n)) => res is Ok && final(inputs).deep_view() == with_witnesses(
                old(inputs).deep_view(),
                ws,
            ) && final(r).position() == old(r).position() + n,
            Err((e, n)) => res == Err::<(), Error>(e) && final(r).position()
                    == old(r).position() + n,
        },
{
    proof {
        r.lemma_bounds();
        reveal(dec_many);
    }
    let ghost sw = r.remaining();
    let ghost pw = r.position();
    let ghost orig = inputs.deep_view();
    let ghost mut ws: Seq<Seq<Seq<u8>>> = Seq::empty();
    let mut i: usize = 0;
    while i < inputs.len()
        invariant
            r.wf(),
            r.input() == old(r).input(),
            sw == old(r).remaining(),
            pw == old(r).position(),
            orig == old(inputs).deep_view(),
            0 <= pw <= r.position(),
            sw == r.input().skip(pw),
            r.remaining() == sw.skip(r.position() - pw),
            i <= orig.len(),
            inputs.deep_view().len() == orig.len(),
            ws.len() == i,
            dec_many::<Witness>(sw, i as nat) == Ok::<(Seq<Seq<Seq<u8>>>, nat), (Error, nat)>(
                (ws, (r.position() - pw) as nat),
            ),
            forall|j: int|
                0 <= j < i ==> #[trigger] inputs.deep_view()[j] == (TxInModel {
                    witness: ws[j],
                    ..orig[j]
                }),
            forall|j: int| i <= j < orig.len() ==> #[trigger] inputs.deep_view()[j] == orig[j],
        decreases orig.len() - i,
    {
        proof {
            reveal(dec_many);
        }
        match Witness::consensus_decode(r) {
            Ok(w) => {
                let ghost before = inputs.deep_view();
                let ghost wv = w.deep_view();
                proof {
                    ws = ws.push(w.deep_view());
                }
                inputs[i].witness = w;
                assert forall|j: int| 0 <= j < orig.len() && j != i implies #[trigger]
                    inputs.deep_view()[j] == before[j] by {}
                assert(inputs.deep_view()[i as int] == (TxInModel {
                    witness: wv,
                    ..before[i as int]
                }));
                i = i + 1;
                proof {
                    r.lemma_bounds();
                }
                assert(r.remaining() =~= sw.skip(r.position() - pw));
            },
            Err(e) => {
                proof {
                    lemma_dec_many_err::<Witness>(sw, (i + 1) as nat, orig.len());
                }
                return Err(e);
            },
        }
    }
    assert(inputs.deep_view() =~= with_witnesses(orig, ws));
    Ok(())
}

/// Reads what follows the segwit marker: the flag, inputs, outputs, a witness for each
/// input, and the lock time.
fn decode_segwit_body(r: &mut Reader, version: u32) -> (res: Result<Transaction, Error>)
    requires
        old(r).wf(),
    ensures
        final(r).wf(),
        final(r).input() == old(r).input(),
        match dec_segwit_body(old(r).remaining(), version) {
            Ok((v, n)) => res matches Ok(x) && x.deep_view() == v && final(r).position()
                == old(r).position() + n,
            Err((e, n)) => res == Err::<Transaction, Error>(e) && final(r).position()
                    == old(r).position() + n,
        },
{
    proof {
        r.lemma_bounds();
    }
    let ghost s = r.remaining();
    let ghost p0 = r.position();
    let segwit_flag = match u8::consensus_decode(r) {
        Ok(x) => x,
        Err(e) => return Err(e),
    };
    if segwit_flag != 1 {
        return Err(Error::UnsupportedSegwitFlag(segwit_flag));
    }
    proof {
        r.lemma_bounds();
    }
    assert(r.remaining() =~= s.skip(1));
    let mut inputs = match Vec::<TxIn>::consensus_decode(r) {
        Ok(x) => x,
        Err(e) => return Err(e),
    };
    proof {
        r.lemma_bounds();
    }
    let ghost b = r.position() - p0 - 1;
    assert(r.remaining() =~= s.skip(1 + b));
    let outputs = match Vec::<TxOut>::consensus_decode(r) {
        Ok(x) => x,
        Err(e) => return Err(e),
    };
    proof {
        r.lemma_bounds();
    }
    let ghost c = r.position() - p0 - 1 - b;
    assert(r.remaining() =~= s.skip(1 + b + c));
    match decode_witnesses(r, &mut inputs) {
        Ok(()) => {},
        Err(e) => return Err(e),
    }
    if !inputs.is_empty() && all_witnesses_empty(&inputs) {
        return Err(Error::ParseFailed("witness flag set but no witnesses present"));
    }
    proof {
        r.lemma_bounds();
    }
    let ghost d = r.position() - p0 - 1 - b - c;
    assert(r.remaining() =~= s.skip(1 + b + c + d));
    let lock_time = match u32::consensus_decode(r) {
        Ok(x) => x,
        Err(e) => return Err(e),
    };
    Ok(Transaction { version, inputs, outputs, lock_time })
}

impl Decodable for Transaction {
    open spec fn spec_decode(input: Seq<u8>) -> Decoded<TransactionModel> {
        dec_transaction(input)
    }

    fn consensus_decode(r: &mut Reader) -> (res: Result<Transaction, Error>) {
        proof {
            r.lemma_bounds();
        }
        let ghost s = r.remaining();
        let ghost p0 = r.position();
        let version = match u32::consensus_decode(r) {
            Ok(x) => x,
            Err(e) => return Err(e),
        };
        proof {
            r.lemma_bounds();
        }
        assert(r.remaining() =~= s.skip(r.position() - p0));
        let inputs = match Vec::<TxIn>::consensus_decode(r) {
            Ok(x) => x,
            Err(e) => return Err(e),
        };
        proof {
            r.lemma_bounds();
        }
        assert(r.remaining() =~= s.skip(r.position() - p0));
        if inputs.is_empty() {
            decode_segwit_body(r, version)
        } else {
            let outputs = match Vec::<TxOut>::consensus_decode(r) {
                Ok(x) => x,
                Err(e) => return Err(e),
            };
            proof {
                r.lemma_bounds();
            }
            assert(r.remaining() =~= s.skip(r.position() - p0));
            let lock_time = match u32::consensus_decode(r) {
                Ok(x) => x,
                Err(e) => return Err(e),
            };
            Ok(Transaction { version, inputs, outputs, lock_time })
        }
    }
}


impl Transaction {
    /// Every script of the transaction is hexadecimal text, so that it can be encoded.
    pub open spec fn encodable(&self) -> bool {
        &&& all_encodable::<TxIn>(self@.inputs)
        &&& all_encodable::<TxOut>(self@.outputs)
    }

    /// The transaction id: the double SHA-256 of the version, inputs, outputs and lock time,
    /// witnesses left out.
    pub fn compute_txid(&self) -> (id: Txid)
        requires
            self.encodable(),
        ensures
            id@ == sha256(sha256(txid_preimage(self@))),
    {
        let mut txid_data: Vec<u8> = Vec::new();
        let _ = self.version.consensus_encode(&mut txid_data);
        let _ = self.inputs.consensus_encode(&mut txid_data);
        let _ = self.outputs.consensus_encode(&mut txid_data);
        let _ = self.lock_time.consensus_encode(&mut txid_data);
        assert(txid_data@ =~= txid_preimage(self@));
        Txid::from_raw_transaction(txid_data)
    }
}

impl Txid {
    /// The id with these bytes, in hashing order.
    pub fn from_hash(bytes: [u8; 32]) -> (id: Txid)
        ensures
            id@ == bytes@,
    {
        Txid(bytes)
    }

    /// The id of the raw transaction `tx`: its double SHA-256.
    fn from_raw_transaction(tx: Vec<u8>) -> (id: Txid)
        ensures
            id@ == sha256(sha256(tx@)),
    {
        let hash1 = sha256_digest(tx.as_slice());
        let hash2 = sha256_digest(hash1.as_slice());
        Txid::from_hash(hash2)
    }

    /// The id as it is displayed: its bytes in reverse order, as lower-case hexadecimal.
    pub fn to_hex(&self) -> (s: String)
        ensures
            s@ == hex_chars(self@.reverse()),
    {
        let mut bytes: Vec<u8> = Vec::new();
        let mut i: usize = 32;
        while i > 0
            invariant
                i <= 32,
                self.0@.len() == 32,
                bytes@ == self.0@.reverse().take(32 - i),
            decreases i,
        {
            i = i - 1;
            bytes.push(self.0[i]);
            assert(bytes@ =~= self.0@.reverse().take(32 - i));
        }
        assert(bytes@ =~= self.0@.reverse());
        encode_hex(bytes.as_slice())
    }
}

impl Witness {
    /// Each item as lower-case hexadecimal text, in order.
    pub fn to_hex_items(&self) -> (items: Vec<String>)
        ensures
            items@.len() == self@.len(),
            forall|i: int| 0 <= i < self@.len() ==> #[trigger] items@[i]@ == hex_chars(self@[i]),
    {
        let mut items: Vec<String> = Vec::new();
        let mut i: usize = 0;
        while i < self.content.len()
            invariant
                i <= self.content@.len(),
                items@.len() == i,
                forall|j: int| 0 <= j < i ==> #[trigger] items@[j]@ == hex_chars(self@[j]),
            decreases self.content@.len() - i,
        {
            items.push(encode_hex(self.content[i].as_slice()));
            i = i + 1;
        }
        items
    }
}

impl Amount {
    /// The number of satoshis.
    pub fn to_sat(&self) -> (n: u64)
        ensures
            n == self@,
    {
        self.0
    }
}

} // verus!
