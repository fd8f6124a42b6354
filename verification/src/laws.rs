//! What the encoders write, the decoders read back: for every value that has one
//! encoding, decoding its bytes, followed by anything, gives the value and stops exactly
//! after them.
use crate::hexcode::{
    hex_chars, hex_text_bytes, is_lower_hex, lemma_hex_chars_lower, lemma_hex_decode_encode,
    lemma_lower_hex_bytes, ascii_lower, is_hex_digits, lemma_hex_text_lowered,
    lemma_hex_encode_decode,
};
use crate::transaction::{
    Decodable, Encodable, Error, TransactionModel, TxIn, TxInModel, TxOut, TxOutModel,
};
use crate::transaction::{CompactSize, IoError, Transaction, Txid, Witness};
use crate::wire::{
    Decoded,
    dec_array32, dec_compact_size, dec_list, dec_many, dec_raw, dec_raw_many, dec_script,
    dec_segwit_body, dec_transaction, dec_txin, dec_txout, dec_u16, dec_u32, dec_u64, dec_u8,
    dec_witness, enc_compact_size, enc_list, enc_many, enc_raw, enc_script, enc_txin, enc_txout,
    enc_u16, enc_u32, enc_u64, enc_u8, lemma_le_bytes, txid_preimage, with_witnesses, no_witnesses, no_witness_message,
};
use vstd::bytes::{spec_u32_from_le_bytes, spec_u64_from_le_bytes};
use vstd::prelude::*;

verus! {

/// Decoding the encoding of `v`, followed by any bytes, gives `v` and stops right after it.
pub open spec fn roundtrips<T: Decodable + Encodable>(v: <T as DeepView>::V) -> bool {
    forall|rest: Seq<u8>|
        #[trigger] T::spec_decode(T::spec_encode(v) + rest) == Ok::<
            (<T as DeepView>::V, nat),
            (Error, nat),
        >((v, T::spec_encode(v).len()))
}

/// An input in the one form that its encoding keeps: a 32-byte id, a lower-case script and
/// no witness.
pub open spec fn canonical_txin(t: TxInModel) -> bool {
    &&& t.txid.len() == 32
    &&& is_lower_hex(t.script_sig)
    &&& hex_text_bytes(t.script_sig).len() <= u64::MAX
    &&& t.witness.len() == 0
}

/// An output whose script is lower-case hexadecimal.
pub open spec fn canonical_txout(o: TxOutModel) -> bool {
    &&& is_lower_hex(o.script_pubkey)
    &&& hex_text_bytes(o.script_pubkey).len() <= u64::MAX
}

/// A transaction of canonical inputs and outputs, with at least one input.
pub open spec fn canonical_transaction(tx: TransactionModel) -> bool {
    &&& tx.inputs.len() > 0
    &&& tx.inputs.len() <= u64::MAX
    &&& tx.outputs.len() <= u64::MAX
    &&& forall|i: int| 0 <= i < tx.inputs.len() ==> #[trigger] canonical_txin(tx.inputs[i])
    &&& forall|i: int| 0 <= i < tx.outputs.len() ==> #[trigger] canonical_txout(tx.outputs[i])
}

proof fn lemma_skip_concat(a: Seq<u8>, b: Seq<u8>)
    ensures
        (a + b).skip(a.len() as int) == b,
        (a + b).take(a.len() as int) == a,
{
    assert((a + b).skip(a.len() as int) =~= b);
    assert((a + b).take(a.len() as int) =~= a);
}

/// Integers read back as they are written.
pub proof fn lemma_int_roundtrip(rest: Seq<u8>)
    ensures
        forall|x: u8| #[trigger] dec_u8(enc_u8(x) + rest) == Ok::<(u8, nat), (Error, nat)>((x, 1nat)),
        forall|x: u16|
            #[trigger] dec_u16(enc_u16(x) + rest) == Ok::<(u16, nat), (Error, nat)>((x, 2nat)),
        forall|x: u32|
            #[trigger] dec_u32(enc_u32(x) + rest) == Ok::<(u32, nat), (Error, nat)>((x, 4nat)),
        forall|x: u64|
            #[trigger] dec_u64(enc_u64(x) + rest) == Ok::<(u64, nat), (Error, nat)>((x, 8nat)),
{
    lemma_le_bytes();
    assert forall|x: u16| #[trigger] dec_u16(enc_u16(x) + rest) == Ok::<(u16, nat), (Error, nat)>(
        (x, 2nat),
    ) by {
        lemma_skip_concat(enc_u16(x), rest);
    }
    assert forall|x: u32| #[trigger] dec_u32(enc_u32(x) + rest) == Ok::<(u32, nat), (Error, nat)>(
        (x, 4nat),
    ) by {
        lemma_skip_concat(enc_u32(x), rest);
    }
    assert forall|x: u64| #[trigger] dec_u64(enc_u64(x) + rest) == Ok::<(u64, nat), (Error, nat)>(
        (x, 8nat),
    ) by {
        lemma_skip_concat(enc_u64(x), rest);
    }
}

/// A compact size takes 1, 3, 5 or 9 bytes, by the size of the value.
pub proof fn lemma_compact_size_len(n: u64)
    ensures
        n <= 0xFC ==> enc_compact_size(n).len() == 1,
        0xFC < n <= 0xFFFF ==> enc_compact_size(n).len() == 3,
        0xFFFF < n <= 0xFFFF_FFFF ==> enc_compact_size(n).len() == 5,
        0xFFFF_FFFF < n ==> enc_compact_size(n).len() == 9,
{
    lemma_le_bytes();
}

/// A compact size reads back as it is written.
pub proof fn lemma_compact_size_roundtrip(n: u64, rest: Seq<u8>)
    ensures
        dec_compact_size(enc_compact_size(n) + rest) == Ok::<(u64, nat), (Error, nat)>(
            (n, enc_compact_size(n).len()),
        ),
{
    reveal(dec_compact_size);
    lemma_le_bytes();
    lemma_int_roundtrip(rest);
    let s = enc_compact_size(n) + rest;
    if n <= 0xFC {
        assert(s[0] == n as u8);
    } else if n <= 0xFFFF {
        assert(s[0] == 0xFDu8);
        assert(s.skip(1) =~= enc_u16(n as u16) + rest);
    } else if n <= 0xFFFF_FFFF {
        assert(s[0] == 0xFEu8);
        assert(s.skip(1) =~= enc_u32(n as u32) + rest);
    } else {
        assert(s[0] == 0xFFu8);
        assert(s.skip(1) =~= enc_u64(n) + rest);
    }
}

/// A length-prefixed byte string reads back as it is written.
pub proof fn lemma_raw_roundtrip(b: Seq<u8>, rest: Seq<u8>)
    requires
        b.len() <= u64::MAX,
    ensures
        dec_raw(enc_raw(b) + rest) == Ok::<(Seq<u8>, nat), (Error, nat)>((b, enc_raw(b).len())),
{
    reveal(dec_raw);
    let c = enc_compact_size(b.len() as u64);
    lemma_compact_size_roundtrip(b.len() as u64, b + rest);
    assert(enc_raw(b) + rest =~= c + (b + rest));
    let s = enc_raw(b) + rest;
    assert(s.subrange(c.len() as int, (c.len() + b.len()) as int) =~= b);
}

/// A lower-case script reads back as it is written.
pub proof fn lemma_script_roundtrip(t: Seq<char>, rest: Seq<u8>)
    requires
        is_lower_hex(t),
        hex_text_bytes(t).len() <= u64::MAX,
    ensures
        dec_script(enc_script(t) + rest) == Ok::<(Seq<char>, nat), (Error, nat)>(
            (t, enc_script(t).len()),
        ),
{
    reveal(dec_script);
    lemma_hex_encode_decode(t);
    lemma_raw_roundtrip(hex_text_bytes(t), rest);
}

/// Every script that is read is lower-case hexadecimal text: the form that reads back
/// unchanged.
pub proof fn lemma_decoded_script_lower(s: Seq<u8>)
    ensures
        dec_script(s) matches Ok((t, _)) ==> is_lower_hex(t) && hex_text_bytes(t).len()
            <= u64::MAX,
{
    reveal(dec_script);
    reveal(dec_raw);
    if let Ok((b, _)) = dec_raw(s) {
        lemma_hex_chars_lower(b);
        lemma_hex_decode_encode(b);
    }
}

/// A canonical input reads back as it is written.
pub proof fn lemma_txin_roundtrip(t: TxInModel)
    requires
        canonical_txin(t),
    ensures
        roundtrips::<TxIn>(t),
{
    assert forall|rest: Seq<u8>| #[trigger]
        TxIn::spec_decode(TxIn::spec_encode(t) + rest) == Ok::<(TxInModel, nat), (Error, nat)>(
            (t, TxIn::spec_encode(t).len()),
        ) by {
        reveal(dec_txin);
        lemma_le_bytes();
        lemma_int_roundtrip(rest);
        let a = t.txid;
        let b = enc_u32(t.output_index);
        let c = enc_script(t.script_sig);
        let d = enc_u32(t.sequence);
        let s = enc_txin(t) + rest;
        assert(s =~= a + (b + (c + (d + rest))));
        assert(s.take(32) =~= a);
        assert(s.skip(32) =~= b + (c + (d + rest)));
        lemma_int_roundtrip(c + (d + rest));
        assert(s.skip(36int) =~= c + (d + rest));
        lemma_script_roundtrip(t.script_sig, d + rest);
        assert(s.skip((36 + c.len()) as int) =~= d + rest);
        assert(t.witness =~= Seq::<Seq<u8>>::empty());
    }
}

/// A canonical output reads back as it is written.
pub proof fn lemma_txout_roundtrip(o: TxOutModel)
    requires
        canonical_txout(o),
    ensures
        roundtrips::<TxOut>(o),
{
    assert forall|rest: Seq<u8>| #[trigger]
        TxOut::spec_decode(TxOut::spec_encode(o) + rest) == Ok::<(TxOutModel, nat), (Error, nat)>(
            (o, TxOut::spec_encode(o).len()),
        ) by {
        reveal(dec_txout);
        lemma_le_bytes();
        let a = enc_u64(o.amount);
        let b = enc_script(o.script_pubkey);
        let s = enc_txout(o) + rest;
        assert(s =~= a + (b + rest));
        lemma_int_roundtrip(b + rest);
        assert(s.skip(8) =~= b + rest);
        lemma_script_roundtrip(o.script_pubkey, rest);
    }
}

/// Values that each read back as written also do so one after the other.
pub proof fn lemma_many_roundtrip<T: Decodable + Encodable>(
    vs: Seq<<T as DeepView>::V>,
    rest: Seq<u8>,
)
    requires
        forall|i: int| 0 <= i < vs.len() ==> #[trigger] roundtrips::<T>(vs[i]),
    ensures
        dec_many::<T>(enc_many::<T>(vs) + rest, vs.len()) == Ok::<
            (Seq<<T as DeepView>::V>, nat),
            (Error, nat),
        >((vs, enc_many::<T>(vs).len())),
    decreases vs.len(),
{
    reveal(dec_many);
    if vs.len() > 0 {
        let init = vs.drop_last();
        let last = vs.last();
        let e = T::spec_encode(last);
        assert forall|i: int| 0 <= i < init.len() implies #[trigger] roundtrips::<T>(init[i]) by {
            assert(init[i] == vs[i]);
        }
        lemma_many_roundtrip::<T>(init, e + rest);
        let s = enc_many::<T>(vs) + rest;
        assert(s =~= enc_many::<T>(init) + (e + rest));
        assert(s.skip(enc_many::<T>(init).len() as int) =~= e + rest);
        assert(roundtrips::<T>(vs[vs.len() - 1]));
        assert(T::spec_decode(e + rest) == Ok::<(<T as DeepView>::V, nat), (Error, nat)>(
            (last, e.len()),
        ));
        assert(init.push(last) =~= vs);
    } else {
        assert(enc_many::<T>(vs) + rest =~= rest);
        assert(vs =~= Seq::<<T as DeepView>::V>::empty());
    }
}

/// A counted list of values that each read back as written reads back as written.
pub proof fn lemma_list_roundtrip<T: Decodable + Encodable>(
    vs: Seq<<T as DeepView>::V>,
    rest: Seq<u8>,
)
    requires
        vs.len() <= u64::MAX,
        forall|i: int| 0 <= i < vs.len() ==> #[trigger] roundtrips::<T>(vs[i]),
    ensures
        dec_list::<T>(enc_list::<T>(vs) + rest) == Ok::<(Seq<<T as DeepView>::V>, nat), (Error, nat)>(
            (vs, enc_list::<T>(vs).len()),
        ),
{
    reveal(dec_list);
    let c = enc_compact_size(vs.len() as u64);
    let m = enc_many::<T>(vs);
    lemma_compact_size_roundtrip(vs.len() as u64, m + rest);
    assert(enc_list::<T>(vs) + rest =~= c + (m + rest));
    assert((c + (m + rest)).skip(c.len() as int) =~= m + rest);
    lemma_many_roundtrip::<T>(vs, rest);
}

/// The bytes that a transaction id is the hash of read back as the transaction, when it
/// has inputs and all its inputs and outputs are canonical. (Without inputs, the empty
/// input list would read as the segwit marker.)
pub proof fn lemma_transaction_roundtrip(tx: TransactionModel, rest: Seq<u8>)
    requires
        canonical_transaction(tx),
    ensures
        dec_transaction(txid_preimage(tx) + rest) == Ok::<(TransactionModel, nat), (Error, nat)>(
            (tx, txid_preimage(tx).len()),
        ),
{
    lemma_le_bytes();
    let a = enc_u32(tx.version);
    let b = enc_list::<TxIn>(tx.inputs);
    let c = enc_list::<TxOut>(tx.outputs);
    let d = enc_u32(tx.lock_time);
    let s = txid_preimage(tx) + rest;
    assert(s =~= a + (b + (c + (d + rest))));
    lemma_int_roundtrip(b + (c + (d + rest)));
    assert(s.skip(4) =~= b + (c + (d + rest)));
    assert forall|i: int| 0 <= i < tx.inputs.len() implies #[trigger] roundtrips::<TxIn>(
        tx.inputs[i],
    ) by {
        lemma_txin_roundtrip(tx.inputs[i]);
    }
    assert forall|i: int| 0 <= i < tx.outputs.len() implies #[trigger] roundtrips::<TxOut>(
        tx.outputs[i],
    ) by {
        lemma_txout_roundtrip(tx.outputs[i]);
    }
    lemma_list_roundtrip::<TxIn>(tx.inputs, c + (d + rest));
    assert(s.skip((4 + b.len()) as int) =~= c + (d + rest));
    lemma_list_roundtrip::<TxOut>(tx.outputs, d + rest);
    assert(s.skip((4 + b.len() + c.len()) as int) =~= d + rest);
    lemma_int_roundtrip(rest);
}


/// The inputs with their witnesses dropped.
pub open spec fn strip_witnesses(inputs: Seq<TxInModel>) -> Seq<TxInModel> {
    Seq::new(inputs.len(), |i: int| TxInModel { witness: Seq::empty(), ..inputs[i] })
}

/// The transaction with the witnesses of its inputs dropped.
pub open spec fn without_witnesses(tx: TransactionModel) -> TransactionModel {
    TransactionModel { inputs: strip_witnesses(tx.inputs), ..tx }
}

proof fn lemma_dec_many_len<T: Decodable>(s: Seq<u8>, n: nat)
    ensures
        dec_many::<T>(s, n) matches Ok((vs, _)) ==> vs.len() == n,
    decreases n,
{
    reveal(dec_many);
    if n > 0 {
        lemma_dec_many_len::<T>(s, (n - 1) as nat);
    }
}

/// Every input that is read is canonical.
pub proof fn lemma_decoded_txin_canonical(s: Seq<u8>)
    ensures
        dec_txin(s) matches Ok((t, _)) ==> canonical_txin(t),
{
    reveal(dec_txin);
    if let Ok((txid, a)) = dec_array32(s) {
        if let Ok((_, b)) = dec_u32(s.skip(a as int)) {
            lemma_decoded_script_lower(s.skip((a + b) as int));
        }
    }
}

/// Every output that is read is canonical.
pub proof fn lemma_decoded_txout_canonical(s: Seq<u8>)
    ensures
        dec_txout(s) matches Ok((o, _)) ==> canonical_txout(o),
{
    reveal(dec_txout);
    if let Ok((_, a)) = dec_u64(s) {
        lemma_decoded_script_lower(s.skip(a as int));
    }
}

proof fn lemma_dec_many_txin_canonical(s: Seq<u8>, n: nat)
    ensures
        dec_many::<TxIn>(s, n) matches Ok((vs, _)) ==> forall|i: int|
            0 <= i < vs.len() ==> #[trigger] canonical_txin(vs[i]),
    decreases n,
{
    reveal(dec_many);
    if n > 0 {
        lemma_dec_many_txin_canonical(s, (n - 1) as nat);
        if let Ok((vs, m)) = dec_many::<TxIn>(s, (n - 1) as nat) {
            lemma_decoded_txin_canonical(s.skip(m as int));
        }
    }
}

proof fn lemma_dec_many_txout_canonical(s: Seq<u8>, n: nat)
    ensures
        dec_many::<TxOut>(s, n) matches Ok((vs, _)) ==> forall|i: int|
            0 <= i < vs.len() ==> #[trigger] canonical_txout(vs[i]),
    decreases n,
{
    reveal(dec_many);
    if n > 0 {
        lemma_dec_many_txout_canonical(s, (n - 1) as nat);
        if let Ok((vs, m)) = dec_many::<TxOut>(s, (n - 1) as nat) {
            lemma_decoded_txout_canonical(s.skip(m as int));
        }
    }
}

/// Every list of inputs that is read has canonical inputs, at most `u64::MAX` of them.
pub proof fn lemma_decoded_txins_canonical(s: Seq<u8>)
    ensures
        dec_list::<TxIn>(s) matches Ok((vs, _)) ==> vs.len() <= u64::MAX && forall|i: int|
            0 <= i < vs.len() ==> #[trigger] canonical_txin(vs[i]),
{
    reveal(dec_list);
    if let Ok((count, k)) = dec_compact_size(s) {
        lemma_dec_many_len::<TxIn>(s.skip(k as int), count as nat);
        lemma_dec_many_txin_canonical(s.skip(k as int), count as nat);
    }
}

/// Every list of outputs that is read has canonical outputs, at most `u64::MAX` of them.
pub proof fn lemma_decoded_txouts_canonical(s: Seq<u8>)
    ensures
        dec_list::<TxOut>(s) matches Ok((vs, _)) ==> vs.len() <= u64::MAX && forall|i: int|
            0 <= i < vs.len() ==> #[trigger] canonical_txout(vs[i]),
{
    reveal(dec_list);
    if let Ok((count, k)) = dec_compact_size(s) {
        lemma_dec_many_len::<TxOut>(s.skip(k as int), count as nat);
        lemma_dec_many_txout_canonical(s.skip(k as int), count as nat);
    }
}

proof fn lemma_enc_many_strip(vs: Seq<TxInModel>)
    ensures
        enc_many::<TxIn>(strip_witnesses(vs)) == enc_many::<TxIn>(vs),
    decreases vs.len(),
{
    if vs.len() > 0 {
        assert(strip_witnesses(vs).drop_last() =~= strip_witnesses(vs.drop_last()));
        lemma_enc_many_strip(vs.drop_last());
    }
}

/// Witnesses do not enter the bytes that a transaction id is the hash of.
pub proof fn lemma_txid_preimage_without_witnesses(tx: TransactionModel)
    ensures
        txid_preimage(without_witnesses(tx)) == txid_preimage(tx),
{
    lemma_enc_many_strip(tx.inputs);
}

/// The bytes that the id of a decoded transaction with inputs is the hash of read back as
/// that transaction without its witnesses.
pub proof fn lemma_decoded_transaction_preimage(
    s: Seq<u8>,
    tx: TransactionModel,
    n: nat,
    rest: Seq<u8>,
)
    requires
        dec_transaction(s) == Ok::<(TransactionModel, nat), (Error, nat)>((tx, n)),
        tx.inputs.len() > 0,
    ensures
        dec_transaction(txid_preimage(tx) + rest) == Ok::<(TransactionModel, nat), (Error, nat)>(
            (without_witnesses(tx), txid_preimage(tx).len()),
        ),
{
    if let Ok((version, a)) = dec_u32(s) {
        let s1 = s.skip(a as int);
        lemma_decoded_txins_canonical(s1);
        if let Ok((inputs, b)) = dec_list::<TxIn>(s1) {
            if inputs.len() == 0 {
                let s2 = s.skip((a + b) as int);
                if let Ok((_, c)) = dec_u8(s2) {
                    let s3 = s2.skip(c as int);
                    lemma_decoded_txins_canonical(s3);
                    if let Ok((inputs2, d)) = dec_list::<TxIn>(s3) {
                        lemma_decoded_txouts_canonical(s2.skip((c + d) as int));
                        assert forall|i: int| 0 <= i < inputs2.len() implies #[trigger]
                            strip_witnesses(tx.inputs)[i] == inputs2[i] by {
                            assert(canonical_txin(inputs2[i]));
                            assert(inputs2[i].witness =~= Seq::<Seq<u8>>::empty());
                        }
                        assert(strip_witnesses(tx.inputs) =~= inputs2);
                    }
                }
            } else {
                lemma_decoded_txouts_canonical(s.skip((a + b) as int));
                assert forall|i: int| 0 <= i < inputs.len() implies #[trigger]
                    strip_witnesses(tx.inputs)[i] == inputs[i] by {
                    assert(canonical_txin(inputs[i]));
                    assert(inputs[i].witness =~= Seq::<Seq<u8>>::empty());
                }
                assert(strip_witnesses(tx.inputs) =~= inputs);
            }
        }
    }
    lemma_txid_preimage_without_witnesses(tx);
    lemma_transaction_roundtrip(without_witnesses(tx), rest);
}


/// A decoder that ran on `len` bytes (`first`) read at most those bytes and gives the same
/// result (`longer`) when more bytes follow, unless it ran out of input: then it took all
/// `len` bytes.
pub open spec fn unchanged_by_more<V>(first: Decoded<V>, longer: Decoded<V>, len: nat) -> bool {
    match first {
        Ok((_, n)) => n <= len && longer == first,
        Err((Error::Io(_), n)) => n == len,
        Err((_, n)) => n <= len && longer == first,
    }
}

/// Values of `T` are read from their own bytes only.
pub open spec fn reads_own_bytes<T: Decodable>() -> bool {
    forall|s: Seq<u8>, rest: Seq<u8>|
        #[trigger] unchanged_by_more(T::spec_decode(s), T::spec_decode(s + rest), s.len())
}

proof fn lemma_skip_append(s: Seq<u8>, rest: Seq<u8>, k: int)
    requires
        0 <= k <= s.len(),
    ensures
        (s + rest).skip(k) == s.skip(k) + rest,
{
    assert((s + rest).skip(k) =~= s.skip(k) + rest);
}

/// Integers and ids are read from their own bytes only.
pub proof fn lemma_fixed_own_bytes(s: Seq<u8>, rest: Seq<u8>)
    ensures
        unchanged_by_more(dec_u8(s), dec_u8(s + rest), s.len()),
        unchanged_by_more(dec_u16(s), dec_u16(s + rest), s.len()),
        unchanged_by_more(dec_u32(s), dec_u32(s + rest), s.len()),
        unchanged_by_more(dec_u64(s), dec_u64(s + rest), s.len()),
        unchanged_by_more(dec_array32(s), dec_array32(s + rest), s.len()),
{
    if s.len() >= 1 {
        assert((s + rest)[0] == s[0]);
    }
    if s.len() >= 2 {
        assert((s + rest).take(2) =~= s.take(2));
    }
    if s.len() >= 4 {
        assert((s + rest).take(4) =~= s.take(4));
    }
    if s.len() >= 8 {
        assert((s + rest).take(8) =~= s.take(8));
    }
    if s.len() >= 32 {
        assert((s + rest).take(32) =~= s.take(32));
    }
}

/// A compact size is read from its own bytes only.
pub proof fn lemma_compact_size_own_bytes(s: Seq<u8>, rest: Seq<u8>)
    ensures
        unchanged_by_more(dec_compact_size(s), dec_compact_size(s + rest), s.len()),
{
    reveal(dec_compact_size);
    lemma_fixed_own_bytes(s, rest);
    if s.len() >= 1 {
        lemma_skip_append(s, rest, 1);
        lemma_fixed_own_bytes(s.skip(1), rest);
    }
}

/// A length-prefixed byte string is read from its own bytes only.
pub proof fn lemma_raw_own_bytes(s: Seq<u8>, rest: Seq<u8>)
    ensures
        unchanged_by_more(dec_raw(s), dec_raw(s + rest), s.len()),
{
    reveal(dec_raw);
    lemma_compact_size_own_bytes(s, rest);
    if let Ok((len, k)) = dec_compact_size(s) {
        if s.len() - k >= len {
            assert((s + rest).subrange(k as int, (k + len) as int) =~= s.subrange(
                k as int,
                (k + len) as int,
            ));
        }
    }
}

/// A script is read from its own bytes only.
pub proof fn lemma_script_own_bytes(s: Seq<u8>, rest: Seq<u8>)
    ensures
        unchanged_by_more(dec_script(s), dec_script(s + rest), s.len()),
{
    reveal(dec_script);
    lemma_raw_own_bytes(s, rest);
}

/// Values that are each read from their own bytes only are, one after the other, too.
pub proof fn lemma_many_own_bytes<T: Decodable>(s: Seq<u8>, rest: Seq<u8>, n: nat)
    requires
        reads_own_bytes::<T>(),
    ensures
        unchanged_by_more(dec_many::<T>(s, n), dec_many::<T>(s + rest, n), s.len()),
    decreases n,
{
    reveal(dec_many);
    if n > 0 {
        lemma_many_own_bytes::<T>(s, rest, (n - 1) as nat);
        if let Ok((vs, m)) = dec_many::<T>(s, (n - 1) as nat) {
            lemma_skip_append(s, rest, m as int);
            assert(unchanged_by_more(
                T::spec_decode(s.skip(m as int)),
                T::spec_decode(s.skip(m as int) + rest),
                s.skip(m as int).len(),
            ));
        }
    }
}

/// A counted list of values that are each read from their own bytes only is, too.
pub proof fn lemma_list_own_bytes<T: Decodable>(s: Seq<u8>, rest: Seq<u8>)
    requires
        reads_own_bytes::<T>(),
    ensures
        unchanged_by_more(dec_list::<T>(s), dec_list::<T>(s + rest), s.len()),
{
    reveal(dec_list);
    lemma_compact_size_own_bytes(s, rest);
    if let Ok((count, k)) = dec_compact_size(s) {
        lemma_skip_append(s, rest, k as int);
        lemma_many_own_bytes::<T>(s.skip(k as int), rest, count as nat);
    }
}

proof fn lemma_raw_many_own_bytes(s: Seq<u8>, rest: Seq<u8>, n: nat)
    ensures
        unchanged_by_more(dec_raw_many(s, n), dec_raw_many(s + rest, n), s.len()),
    decreases n,
{
    reveal(dec_raw_many);
    if n > 0 {
        lemma_raw_many_own_bytes(s, rest, (n - 1) as nat);
        if let Ok((vs, m)) = dec_raw_many(s, (n - 1) as nat) {
            lemma_skip_append(s, rest, m as int);
            lemma_raw_own_bytes(s.skip(m as int), rest);
        }
    }
}

/// Inputs, outputs and witnesses are read from their own bytes only.
pub proof fn lemma_parts_own_bytes()
    ensures
        reads_own_bytes::<TxIn>(),
        reads_own_bytes::<TxOut>(),
        reads_own_bytes::<Witness>(),
{
    assert forall|s: Seq<u8>, rest: Seq<u8>| #[trigger]
        unchanged_by_more(TxIn::spec_decode(s), TxIn::spec_decode(s + rest), s.len()) by {
        reveal(dec_txin);
        lemma_fixed_own_bytes(s, rest);
        if let Ok((_, a)) = dec_array32(s) {
            lemma_skip_append(s, rest, a as int);
            lemma_fixed_own_bytes(s.skip(a as int), rest);
            if let Ok((_, b)) = dec_u32(s.skip(a as int)) {
                lemma_skip_append(s, rest, (a + b) as int);
                lemma_script_own_bytes(s.skip((a + b) as int), rest);
                if let Ok((_, c)) = dec_script(s.skip((a + b) as int)) {
                    lemma_skip_append(s, rest, (a + b + c) as int);
                    lemma_fixed_own_bytes(s.skip((a + b + c) as int), rest);
                }
            }
        }
    }
    assert forall|s: Seq<u8>, rest: Seq<u8>| #[trigger]
        unchanged_by_more(TxOut::spec_decode(s), TxOut::spec_decode(s + rest), s.len()) by {
        reveal(dec_txout);
        lemma_fixed_own_bytes(s, rest);
        if let Ok((_, a)) = dec_u64(s) {
            lemma_skip_append(s, rest, a as int);
            lemma_script_own_bytes(s.skip(a as int), rest);
        }
    }
    assert forall|s: Seq<u8>, rest: Seq<u8>| #[trigger]
        unchanged_by_more(Witness::spec_decode(s), Witness::spec_decode(s + rest), s.len()) by {
        reveal(dec_witness);
        lemma_fixed_own_bytes(s, rest);
        if let Ok((count, k)) = dec_u8(s) {
            lemma_skip_append(s, rest, k as int);
            lemma_raw_many_own_bytes(s.skip(k as int), rest, count as nat);
        }
    }
}

/// A transaction is read from its own bytes only: bytes after it do not change what is
/// read, and the bytes it takes lie within those given.
pub proof fn lemma_transaction_own_bytes(s: Seq<u8>, rest: Seq<u8>)
    ensures
        unchanged_by_more(dec_transaction(s), dec_transaction(s + rest), s.len()),
{
    lemma_parts_own_bytes();
    lemma_fixed_own_bytes(s, rest);
    if let Ok((version, a)) = dec_u32(s) {
        let s1 = s.skip(a as int);
        lemma_skip_append(s, rest, a as int);
        lemma_list_own_bytes::<TxIn>(s1, rest);
        if let Ok((inputs, b)) = dec_list::<TxIn>(s1) {
            let s2 = s.skip((a + b) as int);
            lemma_skip_append(s, rest, (a + b) as int);
            if inputs.len() == 0 {
                lemma_fixed_own_bytes(s2, rest);
                if let Ok((flag, c)) = dec_u8(s2) {
                    let s3 = s2.skip(c as int);
                    lemma_skip_append(s2, rest, c as int);
                    lemma_list_own_bytes::<TxIn>(s3, rest);
                    if let Ok((ins, d)) = dec_list::<TxIn>(s3) {
                        let s4 = s2.skip((c + d) as int);
                        lemma_skip_append(s2, rest, (c + d) as int);
                        lemma_list_own_bytes::<TxOut>(s4, rest);
                        if let Ok((outs, e)) = dec_list::<TxOut>(s4) {
                            let s5 = s2.skip((c + d + e) as int);
                            lemma_skip_append(s2, rest, (c + d + e) as int);
                            lemma_many_own_bytes::<Witness>(s5, rest, ins.len());
                            if let Ok((ws, f)) = dec_many::<Witness>(s5, ins.len()) {
                                let s6 = s2.skip((c + d + e + f) as int);
                                lemma_skip_append(s2, rest, (c + d + e + f) as int);
                                lemma_fixed_own_bytes(s6, rest);
                            }
                        }
                    }
                }
                assert(unchanged_by_more(
                    dec_segwit_body(s2, version),
                    dec_segwit_body(s2 + rest, version),
                    s2.len(),
                ));
            } else {
                lemma_list_own_bytes::<TxOut>(s2, rest);
                if let Ok((outs, c)) = dec_list::<TxOut>(s2) {
                    lemma_skip_append(s, rest, (a + b + c) as int);
                    lemma_fixed_own_bytes(s.skip((a + b + c) as int), rest);
                }
            }
        }
    }
}


/// What the encoders write for a transaction with inputs, no witnesses and lower-case
/// scripts (its version, inputs, outputs and lock time, the bytes its id is the hash of)
/// reads back as that transaction and stops right after them.
pub proof fn lemma_transaction_encoding_roundtrip(tx: &Transaction, rest: Seq<u8>)
    requires
        tx@.inputs.len() > 0,
        forall|i: int|
            0 <= i < tx@.inputs.len() ==> {
                &&& (#[trigger] tx@.inputs[i]).witness.len() == 0
                &&& is_lower_hex(tx@.inputs[i].script_sig)
                &&& tx@.inputs[i].script_sig.len() <= usize::MAX
            },
        forall|i: int|
            0 <= i < tx@.outputs.len() ==> {
                &&& is_lower_hex((#[trigger] tx@.outputs[i]).script_pubkey)
                &&& tx@.outputs[i].script_pubkey.len() <= usize::MAX
            },
    ensures
        dec_transaction(txid_preimage(tx@) + rest) == Ok::<(TransactionModel, nat), (Error, nat)>(
            (tx@, txid_preimage(tx@).len()),
        ),
{
    let m = tx@;
    assert forall|i: int| 0 <= i < m.inputs.len() implies #[trigger] canonical_txin(m.inputs[i]) by {
        Txid::lemma_len(&tx.inputs@[i].txid);
        lemma_lower_hex_bytes(m.inputs[i].script_sig);
    }
    assert forall|i: int| 0 <= i < m.outputs.len() implies #[trigger] canonical_txout(
        m.outputs[i],
    ) by {
        lemma_lower_hex_bytes(m.outputs[i].script_pubkey);
    }
    vstd::std_specs::vec::axiom_spec_len(&tx.inputs);
    vstd::std_specs::vec::axiom_spec_len(&tx.outputs);
    assert(m.inputs.len() == tx.inputs.len());
    assert(m.outputs.len() == tx.outputs.len());
    lemma_transaction_roundtrip(m, rest);
}


/// A script written from hexadecimal text of either case reads back as that text in lower
/// case: unchanged exactly when it has no upper-case letter.
pub proof fn lemma_script_read_lower_case(t: Seq<char>, rest: Seq<u8>)
    requires
        is_hex_digits(t),
        t.len() <= usize::MAX,
    ensures
        dec_script(enc_script(t) + rest) == Ok::<(Seq<char>, nat), (Error, nat)>(
            (ascii_lower(t), enc_script(t).len()),
        ),
{
    reveal(dec_script);
    lemma_hex_text_lowered(t);
    lemma_raw_roundtrip(hex_text_bytes(t), rest);
}


/// Every type that the crate decodes is read from its own bytes only.
pub proof fn lemma_all_read_own_bytes()
    ensures
        reads_own_bytes::<u8>(),
        reads_own_bytes::<u16>(),
        reads_own_bytes::<u32>(),
        reads_own_bytes::<u64>(),
        reads_own_bytes::<CompactSize>(),
        reads_own_bytes::<String>(),
        reads_own_bytes::<Txid>(),
        reads_own_bytes::<TxIn>(),
        reads_own_bytes::<TxOut>(),
        reads_own_bytes::<Witness>(),
        reads_own_bytes::<Vec<TxIn>>(),
        reads_own_bytes::<Vec<TxOut>>(),
        reads_own_bytes::<Transaction>(),
{
    lemma_parts_own_bytes();
    assert forall|s: Seq<u8>, rest: Seq<u8>| #[trigger]
        unchanged_by_more(u8::spec_decode(s), u8::spec_decode(s + rest), s.len()) by {
        lemma_fixed_own_bytes(s, rest);
    }
    assert forall|s: Seq<u8>, rest: Seq<u8>| #[trigger]
        unchanged_by_more(u16::spec_decode(s), u16::spec_decode(s + rest), s.len()) by {
        lemma_fixed_own_bytes(s, rest);
    }
    assert forall|s: Seq<u8>, rest: Seq<u8>| #[trigger]
        unchanged_by_more(u32::spec_decode(s), u32::spec_decode(s + rest), s.len()) by {
        lemma_fixed_own_bytes(s, rest);
    }
    assert forall|s: Seq<u8>, rest: Seq<u8>| #[trigger]
        unchanged_by_more(u64::spec_decode(s), u64::spec_decode(s + rest), s.len()) by {
        lemma_fixed_own_bytes(s, rest);
    }
    assert forall|s: Seq<u8>, rest: Seq<u8>| #[trigger]
        unchanged_by_more(Txid::spec_decode(s), Txid::spec_decode(s + rest), s.len()) by {
        lemma_fixed_own_bytes(s, rest);
    }
    assert forall|s: Seq<u8>, rest: Seq<u8>| #[trigger]
        unchanged_by_more(CompactSize::spec_decode(s), CompactSize::spec_decode(s + rest), s.len())
        by {
        lemma_compact_size_own_bytes(s, rest);
    }
    assert forall|s: Seq<u8>, rest: Seq<u8>| #[trigger]
        unchanged_by_more(String::spec_decode(s), String::spec_decode(s + rest), s.len()) by {
        lemma_script_own_bytes(s, rest);
    }
    assert forall|s: Seq<u8>, rest: Seq<u8>| #[trigger]
        unchanged_by_more(Vec::<TxIn>::spec_decode(s), Vec::<TxIn>::spec_decode(s + rest), s.len())
        by {
        lemma_list_own_bytes::<TxIn>(s, rest);
    }
    assert forall|s: Seq<u8>, rest: Seq<u8>| #[trigger]
        unchanged_by_more(
            Vec::<TxOut>::spec_decode(s),
            Vec::<TxOut>::spec_decode(s + rest),
            s.len(),
        ) by {
        lemma_list_own_bytes::<TxOut>(s, rest);
    }
    assert forall|s: Seq<u8>, rest: Seq<u8>| #[trigger]
        unchanged_by_more(
            Transaction::spec_decode(s),
            Transaction::spec_decode(s + rest),
            s.len(),
        ) by {
        lemma_transaction_own_bytes(s, rest);
    }
}

/// Cut short anywhere before its end, a value of a type that is read from its own bytes
/// only fails to decode by running out of input, having taken all that was there: never
/// with another value, never with another error.
pub proof fn lemma_proper_prefix_runs_out<T: Decodable>(s: Seq<u8>, k: nat)
    requires
        reads_own_bytes::<T>(),
        T::spec_decode(s) matches Ok((_, n)) && k < n,
    ensures
        T::spec_decode(s.take(k as int)) == Err::<(<T as DeepView>::V, nat), (Error, nat)>(
            (Error::Io(IoError::UnexpectedEof), k),
        ),
{
    let p = s.take(k as int);
    let rest = s.skip(k as int);
    assert(unchanged_by_more(T::spec_decode(s), T::spec_decode(s + Seq::empty()), s.len()));
    assert(s + Seq::<u8>::empty() =~= s);
    assert(p + rest =~= s);
    assert(unchanged_by_more(T::spec_decode(p), T::spec_decode(p + rest), p.len()));
}

/// Cut short anywhere before its end, a transaction fails to decode by running out of
/// input, having taken all that was there.
pub proof fn lemma_transaction_prefix_runs_out(s: Seq<u8>, k: nat)
    requires
        dec_transaction(s) matches Ok((_, n)) && k < n,
    ensures
        dec_transaction(s.take(k as int)) == Err::<(TransactionModel, nat), (Error, nat)>(
            (Error::Io(IoError::UnexpectedEof), k),
        ),
{
    lemma_all_read_own_bytes();
    lemma_proper_prefix_runs_out::<Transaction>(s, k);
}


/// `e` is one of the four forms of a compact size of `n`, the shortest or a longer one.
pub open spec fn is_compact_size_of(e: Seq<u8>, n: u64) -> bool {
    ||| n < 0xFD && e == seq![n as u8]
    ||| n <= 0xFFFF && e == seq![0xFDu8] + enc_u16(n as u16)
    ||| n <= 0xFFFF_FFFF && e == seq![0xFEu8] + enc_u32(n as u32)
    ||| e == seq![0xFFu8] + enc_u64(n)
}

/// The byte strings of `es`, one after the other.
pub open spec fn concat_all(es: Seq<Seq<u8>>) -> Seq<u8>
    decreases es.len(),
{
    if es.len() == 0 {
        Seq::empty()
    } else {
        concat_all(es.drop_last()) + es.last()
    }
}

/// Each of `es`, followed by any bytes, reads as the value of `vs` at the same place and
/// stops right after it.
pub open spec fn each_reads_as<T: Decodable>(
    es: Seq<Seq<u8>>,
    vs: Seq<<T as DeepView>::V>,
) -> bool {
    &&& es.len() == vs.len()
    &&& forall|i: int, rest: Seq<u8>|
        0 <= i < es.len() ==> #[trigger] T::spec_decode(es[i] + rest) == Ok::<
            (<T as DeepView>::V, nat),
            (Error, nat),
        >((vs[i], es[i].len()))
}

/// Every form of a compact size reads as its value, taking all its bytes.
pub proof fn lemma_compact_size_any_form(e: Seq<u8>, n: u64, rest: Seq<u8>)
    requires
        is_compact_size_of(e, n),
    ensures
        dec_compact_size(e + rest) == Ok::<(u64, nat), (Error, nat)>((n, e.len())),
{
    reveal(dec_compact_size);
    lemma_le_bytes();
    lemma_int_roundtrip(rest);
    let s = e + rest;
    if n < 0xFD && e == seq![n as u8] {
        assert(s[0] == n as u8);
    } else if n <= 0xFFFF && e == seq![0xFDu8] + enc_u16(n as u16) {
        assert(s[0] == 0xFDu8);
        assert(s.skip(1) =~= enc_u16(n as u16) + rest);
    } else if n <= 0xFFFF_FFFF && e == seq![0xFEu8] + enc_u32(n as u32) {
        assert(s[0] == 0xFEu8);
        assert(s.skip(1) =~= enc_u32(n as u32) + rest);
    } else {
        assert(s[0] == 0xFFu8);
        assert(s.skip(1) =~= enc_u64(n) + rest);
    }
}

/// Values whose encodings each read back are read back from those encodings one after the
/// other, in order.
pub proof fn lemma_many_reads<T: Decodable>(
    es: Seq<Seq<u8>>,
    vs: Seq<<T as DeepView>::V>,
    rest: Seq<u8>,
)
    requires
        each_reads_as::<T>(es, vs),
    ensures
        dec_many::<T>(concat_all(es) + rest, es.len()) == Ok::<
            (Seq<<T as DeepView>::V>, nat),
            (Error, nat),
        >((vs, concat_all(es).len())),
    decreases es.len(),
{
    reveal(dec_many);
    if es.len() > 0 {
        let n = (es.len() - 1) as int;
        let init = es.drop_last();
        assert forall|i: int, r: Seq<u8>| 0 <= i < init.len() implies #[trigger] T::spec_decode(
            init[i] + r,
        ) == Ok::<(<T as DeepView>::V, nat), (Error, nat)>((vs.drop_last()[i], init[i].len())) by {
            assert(init[i] == es[i]);
            assert(T::spec_decode(es[i] + r) == Ok::<(<T as DeepView>::V, nat), (Error, nat)>(
                (vs[i], es[i].len()),
            ));
        }
        lemma_many_reads::<T>(init, vs.drop_last(), es.last() + rest);
        let s = concat_all(es) + rest;
        assert(s =~= concat_all(init) + (es.last() + rest));
        assert(s.skip(concat_all(init).len() as int) =~= es.last() + rest);
        assert(T::spec_decode(es[n] + rest) == Ok::<(<T as DeepView>::V, nat), (Error, nat)>(
            (vs[n], es[n].len()),
        ));
        assert(vs.drop_last().push(vs[n]) =~= vs);
    } else {
        assert(concat_all(es) + rest =~= rest);
        assert(vs =~= Seq::<<T as DeepView>::V>::empty());
    }
}

/// A count in any compact-size form followed by that many encodings that each read back
/// is read as the list of their values, in order.
pub proof fn lemma_list_reads<T: Decodable>(
    c: Seq<u8>,
    es: Seq<Seq<u8>>,
    vs: Seq<<T as DeepView>::V>,
    rest: Seq<u8>,
)
    requires
        es.len() <= u64::MAX,
        is_compact_size_of(c, es.len() as u64),
        each_reads_as::<T>(es, vs),
    ensures
        dec_list::<T>(c + concat_all(es) + rest) == Ok::<
            (Seq<<T as DeepView>::V>, nat),
            (Error, nat),
        >((vs, c.len() + concat_all(es).len())),
{
    reveal(dec_list);
    let m = concat_all(es);
    lemma_compact_size_any_form(c, es.len() as u64, m + rest);
    assert(c + m + rest =~= c + (m + rest));
    assert((c + (m + rest)).skip(c.len() as int) =~= m + rest);
    lemma_many_reads::<T>(es, vs, rest);
}

/// A byte string with its length in front, in any compact-size form, reads back.
pub proof fn lemma_raw_any_form(c: Seq<u8>, b: Seq<u8>, rest: Seq<u8>)
    requires
        b.len() <= u64::MAX,
        is_compact_size_of(c, b.len() as u64),
    ensures
        dec_raw(c + b + rest) == Ok::<(Seq<u8>, nat), (Error, nat)>((b, c.len() + b.len())),
{
    reveal(dec_raw);
    lemma_compact_size_any_form(c, b.len() as u64, b + rest);
    let s = c + b + rest;
    assert(s =~= c + (b + rest));
    assert(s.subrange(c.len() as int, (c.len() + b.len()) as int) =~= b);
}

/// The items of a witness, each written as `cs[i] + bs[i]`.
pub open spec fn witness_items(cs: Seq<Seq<u8>>, bs: Seq<Seq<u8>>) -> Seq<Seq<u8>> {
    Seq::new(bs.len(), |i: int| cs[i] + bs[i])
}

proof fn lemma_raw_many_reads(cs: Seq<Seq<u8>>, bs: Seq<Seq<u8>>, rest: Seq<u8>)
    requires
        cs.len() == bs.len(),
        forall|i: int|
            0 <= i < bs.len() ==> (#[trigger] bs[i]).len() <= u64::MAX && is_compact_size_of(
                cs[i],
                bs[i].len() as u64,
            ),
    ensures
        dec_raw_many(concat_all(witness_items(cs, bs)) + rest, bs.len()) == Ok::<
            (Seq<Seq<u8>>, nat),
            (Error, nat),
        >((bs, concat_all(witness_items(cs, bs)).len())),
    decreases bs.len(),
{
    reveal(dec_raw_many);
    let items = witness_items(cs, bs);
    if bs.len() > 0 {
        let n = (bs.len() - 1) as int;
        let cs0 = cs.drop_last();
        let bs0 = bs.drop_last();
        assert forall|i: int| 0 <= i < bs0.len() implies (#[trigger] bs0[i]).len() <= u64::MAX
            && is_compact_size_of(cs0[i], bs0[i].len() as u64) by {
            assert(bs0[i] == bs[i] && cs0[i] == cs[i]);
        }
        assert(witness_items(cs0, bs0) =~= items.drop_last());
        lemma_raw_many_reads(cs0, bs0, items.last() + rest);
        let s = concat_all(items) + rest;
        assert(s =~= concat_all(items.drop_last()) + (items.last() + rest));
        assert(s.skip(concat_all(items.drop_last()).len() as int) =~= items.last() + rest);
        assert(bs[n].len() <= u64::MAX && is_compact_size_of(cs[n], bs[n].len() as u64));
        lemma_raw_any_form(cs[n], bs[n], rest);
        assert(items.last() + rest =~= cs[n] + bs[n] + rest);
        assert(bs0.push(bs[n]) =~= bs);
    } else {
        assert(concat_all(items) + rest =~= rest);
        assert(bs =~= Seq::<Seq<u8>>::empty());
    }
}

/// A one-byte count followed by that many items, each a length in any compact-size form
/// and that many bytes, reads as the witness of those items, in order.
pub proof fn lemma_witness_reads(cs: Seq<Seq<u8>>, bs: Seq<Seq<u8>>, rest: Seq<u8>)
    requires
        cs.len() == bs.len(),
        bs.len() <= u8::MAX,
        forall|i: int|
            0 <= i < bs.len() ==> (#[trigger] bs[i]).len() <= u64::MAX && is_compact_size_of(
                cs[i],
                bs[i].len() as u64,
            ),
    ensures
        dec_witness(seq![bs.len() as u8] + concat_all(witness_items(cs, bs)) + rest) == Ok::<
            (Seq<Seq<u8>>, nat),
            (Error, nat),
        >((bs, 1 + concat_all(witness_items(cs, bs)).len())),
{
    reveal(dec_witness);
    let m = concat_all(witness_items(cs, bs));
    let s = seq![bs.len() as u8] + m + rest;
    assert(s[0] == bs.len() as u8);
    assert(s.skip(1) =~= m + rest);
    lemma_raw_many_reads(cs, bs, rest);
}


/// Re-encoding what was read from the first `n` bytes of `s` gives at most `n` bytes, and
/// exactly those bytes when it gives `n`.
pub open spec fn reencodes(s: Seq<u8>, n: nat, e: Seq<u8>) -> bool {
    &&& e.len() <= n
    &&& e.len() == n ==> s.take(n as int) == e
}

/// Every value of `T` that is read re-encodes as above.
pub open spec fn reencodes_all<T: Decodable + Encodable>() -> bool {
    forall|s: Seq<u8>|
        #![trigger T::spec_decode(s)]
        T::spec_decode(s) matches Ok((v, n)) ==> n <= s.len() && reencodes(
            s,
            n,
            T::spec_encode(v),
        )
}

proof fn lemma_reencode_then(s: Seq<u8>, a: nat, ea: Seq<u8>, b: nat, eb: Seq<u8>)
    requires
        a + b <= s.len(),
        reencodes(s, a, ea),
        reencodes(s.skip(a as int), b, eb),
    ensures
        reencodes(s, a + b, ea + eb),
{
    if ea.len() + eb.len() == a + b {
        assert(s.take((a + b) as int) =~= s.take(a as int) + s.skip(a as int).take(b as int));
    }
}

proof fn lemma_exact_reencodes(s: Seq<u8>, n: nat, e: Seq<u8>)
    requires
        e.len() == n,
        s.take(n as int) == e,
    ensures
        reencodes(s, n, e),
{
}

/// Integers and ids re-encode as the bytes they were read from.
pub proof fn lemma_fixed_reencode(s: Seq<u8>)
    ensures
        dec_u16(s) matches Ok((x, n)) ==> enc_u16(x) == s.take(n as int),
        dec_u32(s) matches Ok((x, n)) ==> enc_u32(x) == s.take(n as int),
        dec_u64(s) matches Ok((x, n)) ==> enc_u64(x) == s.take(n as int),
        dec_array32(s) matches Ok((x, n)) ==> x == s.take(n as int),
{
    vstd::bytes::lemma_auto_spec_u16_to_from_le_bytes();
    vstd::bytes::lemma_auto_spec_u32_to_from_le_bytes();
    vstd::bytes::lemma_auto_spec_u64_to_from_le_bytes();
    if s.len() >= 2 {
        assert(s.take(2).len() == 2);
    }
    if s.len() >= 4 {
        assert(s.take(4).len() == 4);
    }
    if s.len() >= 8 {
        assert(s.take(8).len() == 8);
        assert(vstd::bytes::spec_u64_to_le_bytes(vstd::bytes::spec_u64_from_le_bytes(s.take(8)))
            == s.take(8));
    }
}

/// A compact size re-encodes in at most the bytes it was read from, and as those bytes
/// when it was written in its shortest form.
pub proof fn lemma_compact_size_reencode(s: Seq<u8>)
    ensures
        dec_compact_size(s) matches Ok((x, k)) ==> reencodes(s, k, enc_compact_size(x)),
{
    reveal(dec_compact_size);
    lemma_le_bytes();
    if s.len() >= 1 {
        let t = s.skip(1);
        lemma_fixed_reencode(t);
        if let Ok((x, k)) = dec_compact_size(s) {
            let tag = s[0];
            if tag == 0xFF {
                if x > 0xFFFF_FFFF {
                    assert(s.take(9) =~= seq![0xFFu8] + t.take(8));
                }
            } else if tag == 0xFE {
                if x > 0xFFFF {
                    assert(s.take(5) =~= seq![0xFEu8] + t.take(4));
                }
            } else if tag == 0xFD {
                if x > 0xFC {
                    assert(s.take(3) =~= seq![0xFDu8] + t.take(2));
                }
            } else {
                assert(s.take(1) =~= seq![tag]);
            }
        }
    }
}

/// A script re-encodes in at most the bytes it was read from.
pub proof fn lemma_script_reencode(s: Seq<u8>)
    ensures
        dec_script(s) matches Ok((t, k)) ==> k <= s.len() && reencodes(s, k, enc_script(t)),
{
    reveal(dec_script);
    reveal(dec_raw);
    lemma_compact_size_reencode(s);
    lemma_compact_size_own_bytes(s, Seq::empty());
    assert(s + Seq::<u8>::empty() =~= s);
    if let Ok((b, k)) = dec_raw(s) {
        if let Ok((len, j)) = dec_compact_size(s) {
            lemma_hex_decode_encode(b);
            assert(b =~= s.skip(j as int).take(len as int));
            lemma_exact_reencodes(s.skip(j as int), len as nat, b);
            lemma_reencode_then(s, j, enc_compact_size(len), len as nat, b);
        }
    }
}

/// Inputs and outputs re-encode in at most the bytes they were read from.
pub proof fn lemma_parts_reencode()
    ensures
        reencodes_all::<TxIn>(),
        reencodes_all::<TxOut>(),
{
    assert forall|s: Seq<u8>| #[trigger] TxIn::spec_decode(s) matches Ok((v, n)) ==> n <= s.len()
        && reencodes(s, n, TxIn::spec_encode(v)) by {
        reveal(dec_txin);
        lemma_fixed_reencode(s);
        if let Ok((txid, a)) = dec_array32(s) {
            let s1 = s.skip(a as int);
            lemma_fixed_reencode(s1);
            if let Ok((output_index, b)) = dec_u32(s1) {
                let s2 = s.skip((a + b) as int);
                lemma_script_reencode(s2);
                if let Ok((script, c)) = dec_script(s2) {
                    let s3 = s.skip((a + b + c) as int);
                    lemma_fixed_reencode(s3);
                    if let Ok((sequence, d)) = dec_u32(s3) {
                        let v = dec_txin(s)->Ok_0.0;
                        assert(s1.skip(b as int) =~= s2);
                        assert(s2.skip(c as int) =~= s3);
                        lemma_exact_reencodes(s2.skip(c as int), d, enc_u32(sequence));
                        lemma_reencode_then(s2, c, enc_script(script), d, enc_u32(sequence));
                        lemma_exact_reencodes(s1, b, enc_u32(output_index));
                        lemma_reencode_then(
                            s1,
                            b,
                            enc_u32(output_index),
                            c + d,
                            enc_script(script) + enc_u32(sequence),
                        );
                        lemma_exact_reencodes(s, a, txid);
                        lemma_reencode_then(
                            s,
                            a,
                            txid,
                            b + c + d,
                            enc_u32(output_index) + (enc_script(script) + enc_u32(sequence)),
                        );
                        assert(enc_txin(v) =~= txid + (enc_u32(output_index) + (enc_script(script)
                            + enc_u32(sequence))));
                    }
                }
            }
        }
    }
    assert forall|s: Seq<u8>| #[trigger] TxOut::spec_decode(s) matches Ok((v, n)) ==> n
        <= s.len() && reencodes(s, n, TxOut::spec_encode(v)) by {
        reveal(dec_txout);
        lemma_fixed_reencode(s);
        if let Ok((amount, a)) = dec_u64(s) {
            let s1 = s.skip(a as int);
            lemma_script_reencode(s1);
            if let Ok((script, b)) = dec_script(s1) {
                lemma_exact_reencodes(s, a, enc_u64(amount));
                lemma_reencode_then(s, a, enc_u64(amount), b, enc_script(script));
            }
        }
    }
}

/// Values that each re-encode in at most their bytes do so one after the other.
pub proof fn lemma_many_reencode<T: Decodable + Encodable>(s: Seq<u8>, n: nat)
    requires
        reencodes_all::<T>(),
    ensures
        dec_many::<T>(s, n) matches Ok((vs, m)) ==> m <= s.len() && reencodes(
            s,
            m,
            enc_many::<T>(vs),
        ),
    decreases n,
{
    reveal(dec_many);
    if n > 0 {
        lemma_many_reencode::<T>(s, (n - 1) as nat);
        if let Ok((vs, m)) = dec_many::<T>(s, (n - 1) as nat) {
            let s1 = s.skip(m as int);
            if let Ok((v, k)) = T::spec_decode(s1) {
                assert(vs.push(v).drop_last() =~= vs);
                assert(vs.push(v).last() == v);
                assert(enc_many::<T>(vs.push(v)) == enc_many::<T>(vs) + T::spec_encode(v));
                lemma_reencode_then(s, m, enc_many::<T>(vs), k, T::spec_encode(v));
            }
        }
    } else {
        assert(s.take(0) =~= Seq::<u8>::empty());
    }
}

/// A counted list of values that each re-encode in at most their bytes does so too.
pub proof fn lemma_list_reencode<T: Decodable + Encodable>(s: Seq<u8>)
    requires
        reencodes_all::<T>(),
    ensures
        dec_list::<T>(s) matches Ok((vs, m)) ==> m <= s.len() && reencodes(
            s,
            m,
            enc_list::<T>(vs),
        ),
{
    reveal(dec_list);
    lemma_compact_size_reencode(s);
    lemma_compact_size_own_bytes(s, Seq::empty());
    assert(s + Seq::<u8>::empty() =~= s);
    if let Ok((count, k)) = dec_compact_size(s) {
        lemma_many_reencode::<T>(s.skip(k as int), count as nat);
        lemma_dec_many_len::<T>(s.skip(k as int), count as nat);
        if let Ok((vs, m)) = dec_many::<T>(s.skip(k as int), count as nat) {
            lemma_reencode_then(s, k, enc_compact_size(count), m, enc_many::<T>(vs));
        }
    }
}


/// The first `n` bytes of `s`, read as a transaction, less what the segwit form adds to
/// them: the marker and flag after the version, and the witnesses before the lock time.
pub open spec fn without_segwit_parts(s: Seq<u8>, n: nat) -> Seq<u8> {
    match dec_list::<TxIn>(s.skip(4)) {
        Ok((inputs, b)) => {
            if inputs.len() == 0 {
                let p = (4 + b + 1) as int;
                match dec_list::<TxIn>(s.skip(p)) {
                    Ok((_, c)) => match dec_list::<TxOut>(s.skip(p + c)) {
                        Ok((_, d)) => s.take(4) + s.subrange(p, p + c + d) + s.subrange(
                            n - 4,
                            n as int,
                        ),
                        Err(_) => s.take(n as int),
                    },
                    Err(_) => s.take(n as int),
                }
            } else {
                s.take(n as int)
            }
        },
        Err(_) => s.take(n as int),
    }
}

proof fn lemma_enc_list_ignores_witnesses(ins: Seq<TxInModel>, ws: Seq<Seq<Seq<u8>>>)
    ensures
        enc_list::<TxIn>(with_witnesses(ins, ws)) == enc_list::<TxIn>(ins),
{
    lemma_enc_many_strip(with_witnesses(ins, ws));
    lemma_enc_many_strip(ins);
    assert(strip_witnesses(with_witnesses(ins, ws)) =~= strip_witnesses(ins));
}

/// The bytes that the id of a decoded transaction is the hash of are never longer than the
/// bytes read less the segwit parts, and are exactly those bytes whenever they are as long:
/// the id is then the BIP141 transaction id of the bytes read.
pub proof fn lemma_txid_preimage_of_read_bytes(s: Seq<u8>, tx: TransactionModel, n: nat)
    requires
        dec_transaction(s) == Ok::<(TransactionModel, nat), (Error, nat)>((tx, n)),
    ensures
        txid_preimage(tx).len() <= without_segwit_parts(s, n).len(),
        txid_preimage(tx).len() == without_segwit_parts(s, n).len() ==> txid_preimage(tx)
            == without_segwit_parts(s, n),
{
    lemma_parts_reencode();
    lemma_transaction_own_bytes(s, Seq::empty());
    assert(s + Seq::<u8>::empty() =~= s);
    lemma_fixed_reencode(s);
    let version = tx.version;
    let s1 = s.skip(4);
    lemma_list_reencode::<TxIn>(s1);
    let (ins0, b) = dec_list::<TxIn>(s1)->Ok_0;
    if ins0.len() == 0 {
        let p = (4 + b + 1) as int;
        let q = s.skip((4 + b) as int);
        assert(s1.skip(b as int) =~= q);
        let t = s.skip(p);
        assert(q.skip(1) =~= t);
        lemma_list_reencode::<TxIn>(t);
        let (ins, c) = dec_list::<TxIn>(t)->Ok_0;
        lemma_list_reencode::<TxOut>(t.skip(c as int));
        let (outs, d) = dec_list::<TxOut>(t.skip(c as int))->Ok_0;
        assert(t.skip(c as int) =~= s.skip(p + c));
        assert(q.skip((1 + c) as int) =~= s.skip(p + c));
        assert(q.skip((1 + c + d) as int) =~= s.skip(p + c + d));
        let (ws, w) = dec_many::<Witness>(s.skip(p + c + d), ins.len())->Ok_0;
        assert(q.skip((1 + c + d + w) as int) =~= s.skip(p + c + d + w));
        lemma_fixed_reencode(s.skip(p + c + d + w));
        assert(n == p + c + d + w + 4);
        lemma_enc_list_ignores_witnesses(ins, ws);
        let l1 = enc_list::<TxIn>(ins);
        let l2 = enc_list::<TxOut>(outs);
        lemma_reencode_then(t, c, l1, d, l2);
        let big = without_segwit_parts(s, n);
        assert(big == s.take(4) + t.take((c + d) as int) + s.subrange(n - 4, n as int));
        assert(s.subrange(n - 4, n as int) =~= s.skip(p + c + d + w).take(4));
        assert(txid_preimage(tx) == enc_u32(version) + l1 + l2 + enc_u32(tx.lock_time));
        if txid_preimage(tx).len() == big.len() {
            assert(txid_preimage(tx) =~= big);
        }
    } else {
        let s2 = s.skip((4 + b) as int);
        lemma_list_reencode::<TxOut>(s2);
        let (outs, c) = dec_list::<TxOut>(s2)->Ok_0;
        lemma_fixed_reencode(s.skip((4 + b + c) as int));
        assert(s1.skip(b as int) =~= s2);
        lemma_exact_reencodes(s, 4, enc_u32(version));
        lemma_reencode_then(s, 4, enc_u32(version), b, enc_list::<TxIn>(ins0));
        lemma_reencode_then(
            s,
            4 + b,
            enc_u32(version) + enc_list::<TxIn>(ins0),
            c,
            enc_list::<TxOut>(outs),
        );
        lemma_exact_reencodes(s.skip((4 + b + c) as int), 4, enc_u32(tx.lock_time));
        lemma_reencode_then(
            s,
            4 + b + c,
            enc_u32(version) + enc_list::<TxIn>(ins0) + enc_list::<TxOut>(outs),
            4,
            enc_u32(tx.lock_time),
        );
    }
}


/// The compact size at the front of `s`, where one is read, is in its shortest form.
pub open spec fn shortest_compact_size(s: Seq<u8>) -> bool {
    dec_compact_size(s) matches Ok((x, k)) ==> k == enc_compact_size(x).len()
}

/// The input at the front of `s` has its script length in shortest form.
pub open spec fn shortest_txin(s: Seq<u8>) -> bool {
    shortest_compact_size(s.skip(36))
}

/// The output at the front of `s` has its script length in shortest form.
pub open spec fn shortest_txout(s: Seq<u8>) -> bool {
    shortest_compact_size(s.skip(8))
}

pub open spec fn txin_shortest() -> spec_fn(Seq<u8>) -> bool {
    |x: Seq<u8>| shortest_txin(x)
}

pub open spec fn txout_shortest() -> spec_fn(Seq<u8>) -> bool {
    |x: Seq<u8>| shortest_txout(x)
}

/// Each of the `n` values of `T` read one after the other from `s` meets `part`.
pub open spec fn shortest_many<T: Decodable>(
    s: Seq<u8>,
    n: nat,
    part: spec_fn(Seq<u8>) -> bool,
) -> bool
    decreases n,
{
    if n == 0 {
        true
    } else {
        &&& shortest_many::<T>(s, (n - 1) as nat, part)
        &&& dec_many::<T>(s, (n - 1) as nat) matches Ok((_, m)) ==> part(s.skip(m as int))
    }
}

/// The count at the front of `s` is in shortest form, and so is every value that follows,
/// by `part`.
pub open spec fn shortest_list<T: Decodable>(s: Seq<u8>, part: spec_fn(Seq<u8>) -> bool) -> bool {
    &&& shortest_compact_size(s)
    &&& dec_compact_size(s) matches Ok((count, k)) ==> shortest_many::<T>(
        s.skip(k as int),
        count as nat,
        part,
    )
}

/// Every count and length of the transaction at the front of `s` outside its witnesses is
/// in shortest form: the input count (or the segwit marker), and then the input and output
/// counts and the script lengths.
pub open spec fn shortest_non_witness(s: Seq<u8>) -> bool {
    &&& shortest_list::<TxIn>(s.skip(4), txin_shortest())
    &&& dec_list::<TxIn>(s.skip(4)) matches Ok((ins, b)) ==> {
        if ins.len() == 0 {
            let p = (4 + b + 1) as int;
            &&& shortest_list::<TxIn>(s.skip(p), txin_shortest())
            &&& dec_list::<TxIn>(s.skip(p)) matches Ok((_, c)) ==> shortest_list::<TxOut>(
                s.skip(p + c),
                txout_shortest(),
            )
        } else {
            shortest_list::<TxOut>(s.skip((4 + b) as int), txout_shortest())
        }
    }
}

/// A script whose length is in shortest form re-encodes in as many bytes as it was read
/// from.
proof fn lemma_script_shortest(s: Seq<u8>)
    ensures
        dec_script(s) matches Ok((t, k)) ==> shortest_compact_size(s) ==> enc_script(t).len()
            == k,
{
    reveal(dec_script);
    reveal(dec_raw);
    if let Ok((b, k)) = dec_raw(s) {
        lemma_hex_decode_encode(b);
    }
}

proof fn lemma_parts_shortest()
    ensures
        forall|x: Seq<u8>|
            #![trigger TxIn::spec_decode(x)]
            TxIn::spec_decode(x) matches Ok((v, k)) ==> txin_shortest()(x)
                ==> TxIn::spec_encode(v).len() == k,
        forall|x: Seq<u8>|
            #![trigger TxOut::spec_decode(x)]
            TxOut::spec_decode(x) matches Ok((v, k)) ==> txout_shortest()(x)
                ==> TxOut::spec_encode(v).len() == k,
{
    lemma_le_bytes();
    assert forall|x: Seq<u8>| #[trigger] TxIn::spec_decode(x) matches Ok((v, k))
        ==> txin_shortest()(x) ==> TxIn::spec_encode(v).len() == k by {
        reveal(dec_txin);
        if let Ok((_, a)) = dec_array32(x) {
            if let Ok((_, b)) = dec_u32(x.skip(a as int)) {
                lemma_script_shortest(x.skip((a + b) as int));
            }
        }
    }
    assert forall|x: Seq<u8>| #[trigger] TxOut::spec_decode(x) matches Ok((v, k))
        ==> txout_shortest()(x) ==> TxOut::spec_encode(v).len() == k by {
        reveal(dec_txout);
        if let Ok((_, a)) = dec_u64(x) {
            lemma_script_shortest(x.skip(a as int));
        }
    }
}

proof fn lemma_many_shortest<T: Decodable + Encodable>(
    s: Seq<u8>,
    n: nat,
    part: spec_fn(Seq<u8>) -> bool,
)
    requires
        forall|x: Seq<u8>|
            #![trigger T::spec_decode(x)]
            T::spec_decode(x) matches Ok((v, k)) ==> part(x) ==> T::spec_encode(v).len() == k,
    ensures
        dec_many::<T>(s, n) matches Ok((vs, m)) ==> shortest_many::<T>(s, n, part)
            ==> enc_many::<T>(vs).len() == m,
    decreases n,
{
    reveal(dec_many);
    if n > 0 {
        lemma_many_shortest::<T>(s, (n - 1) as nat, part);
        if let Ok((vs, m)) = dec_many::<T>(s, (n - 1) as nat) {
            if let Ok((v, k)) = T::spec_decode(s.skip(m as int)) {
                assert(vs.push(v).drop_last() =~= vs);
                assert(vs.push(v).last() == v);
            }
        }
    }
}

proof fn lemma_list_shortest<T: Decodable + Encodable>(
    s: Seq<u8>,
    part: spec_fn(Seq<u8>) -> bool,
)
    requires
        forall|x: Seq<u8>|
            #![trigger T::spec_decode(x)]
            T::spec_decode(x) matches Ok((v, k)) ==> part(x) ==> T::spec_encode(v).len() == k,
    ensures
        dec_list::<T>(s) matches Ok((vs, m)) ==> shortest_list::<T>(s, part)
            ==> enc_list::<T>(vs).len() == m,
{
    reveal(dec_list);
    if let Ok((count, k)) = dec_compact_size(s) {
        lemma_many_shortest::<T>(s.skip(k as int), count as nat, part);
        lemma_dec_many_len::<T>(s.skip(k as int), count as nat);
    }
}

/// When every count and length outside the witnesses is in shortest form, the bytes that
/// the id of a decoded transaction is the hash of are exactly the bytes read less the
/// segwit parts (for a transaction read in the legacy form, all the bytes read), so that
/// the id is the BIP141 transaction id of those bytes.
pub proof fn lemma_txid_preimage_of_shortest_bytes(s: Seq<u8>, tx: TransactionModel, n: nat)
    requires
        dec_transaction(s) == Ok::<(TransactionModel, nat), (Error, nat)>((tx, n)),
        shortest_non_witness(s),
    ensures
        txid_preimage(tx) == without_segwit_parts(s, n),
{
    lemma_parts_shortest();
    lemma_le_bytes();
    lemma_transaction_own_bytes(s, Seq::empty());
    assert(s + Seq::<u8>::empty() =~= s);
    let s1 = s.skip(4);
    lemma_list_shortest::<TxIn>(s1, txin_shortest());
    let (ins0, b) = dec_list::<TxIn>(s1)->Ok_0;
    if ins0.len() == 0 {
        let p = (4 + b + 1) as int;
        let q = s.skip((4 + b) as int);
        assert(s1.skip(b as int) =~= q);
        let t = s.skip(p);
        assert(q.skip(1) =~= t);
        lemma_list_shortest::<TxIn>(t, txin_shortest());
        let (ins, c) = dec_list::<TxIn>(t)->Ok_0;
        assert(q.skip((1 + c) as int) =~= s.skip(p + c));
        lemma_list_shortest::<TxOut>(s.skip(p + c), txout_shortest());
        let (outs, d) = dec_list::<TxOut>(s.skip(p + c))->Ok_0;
        assert(q.skip((1 + c + d) as int) =~= s.skip(p + c + d));
        let (ws, w) = dec_many::<Witness>(s.skip(p + c + d), ins.len())->Ok_0;
        lemma_enc_list_ignores_witnesses(ins, ws);
        assert(n == p + c + d + w + 4);
        assert(without_segwit_parts(s, n).len() == 4 + c + d + 4);
    } else {
        let s2 = s.skip((4 + b) as int);
        assert(s1.skip(b as int) =~= s2);
        lemma_list_shortest::<TxOut>(s2, txout_shortest());
    }
    lemma_txid_preimage_of_read_bytes(s, tx, n);
}


/// An input read from `s` holds the bytes it was read from: its id is the first 32 bytes as
/// they stand, its output index the little-endian `u32` after them, its sequence the
/// little-endian `u32` that ends it, and its script, as bytes, the bytes just before the
/// sequence. It has no witness.
pub proof fn lemma_txin_from_bytes(s: Seq<u8>)
    ensures
        TxIn::spec_decode(s) matches Ok((t, n)) ==> {
            &&& 40 <= n <= s.len()
            &&& t.txid == s.take(32)
            &&& t.output_index == spec_u32_from_le_bytes(s.subrange(32, 36))
            &&& t.sequence == spec_u32_from_le_bytes(s.subrange(n - 4, n as int))
            &&& is_lower_hex(t.script_sig)
            &&& hex_text_bytes(t.script_sig) == s.subrange(
                n - 4 - hex_text_bytes(t.script_sig).len(),
                n - 4,
            )
            &&& t.witness.len() == 0
        },
{
    reveal(dec_txin);
    reveal(dec_script);
    reveal(dec_raw);
    lemma_parts_own_bytes();
    assert(s + Seq::<u8>::empty() =~= s);
    assert(unchanged_by_more(TxIn::spec_decode(s), TxIn::spec_decode(s + Seq::empty()), s.len()));
    if let Ok((t, n)) = TxIn::spec_decode(s) {
        let s1 = s.skip(32);
        let s2 = s.skip(36);
        assert(s1.skip(4) =~= s2);
        assert(s1.take(4) =~= s.subrange(32, 36));
        let (b, c) = dec_raw(s2)->Ok_0;
        let (len, k) = dec_compact_size(s2)->Ok_0;
        lemma_hex_decode_encode(b);
        lemma_hex_chars_lower(b);
        assert(b =~= s.subrange((36 + k) as int, (36 + k + len) as int));
        assert(s2.skip(c as int) =~= s.skip((36 + c) as int));
        assert(s.skip((36 + c) as int).take(4) =~= s.subrange(n - 4, n as int));
    }
}

/// An output read from `s` holds the bytes it was read from: its amount is the
/// little-endian `u64` of the first 8 bytes, and its script, as bytes, the bytes that end it.
pub proof fn lemma_txout_from_bytes(s: Seq<u8>)
    ensures
        TxOut::spec_decode(s) matches Ok((o, n)) ==> {
            &&& 9 <= n <= s.len()
            &&& o.amount == spec_u64_from_le_bytes(s.take(8))
            &&& is_lower_hex(o.script_pubkey)
            &&& hex_text_bytes(o.script_pubkey) == s.subrange(
                n - hex_text_bytes(o.script_pubkey).len(),
                n as int,
            )
        },
{
    reveal(dec_txout);
    reveal(dec_script);
    reveal(dec_raw);
    reveal(dec_compact_size);
    lemma_parts_own_bytes();
    assert(s + Seq::<u8>::empty() =~= s);
    assert(unchanged_by_more(TxOut::spec_decode(s), TxOut::spec_decode(s + Seq::empty()), s.len()));
    if let Ok((o, n)) = TxOut::spec_decode(s) {
        let s1 = s.skip(8);
        let (b, c) = dec_raw(s1)->Ok_0;
        let (len, k) = dec_compact_size(s1)->Ok_0;
        lemma_hex_decode_encode(b);
        lemma_hex_chars_lower(b);
        assert(b =~= s.subrange((8 + k) as int, (8 + k + len) as int));
    }
}

/// A transaction read from `s` takes its version from the little-endian `u32` of the first
/// four bytes and its lock time from the little-endian `u32` of the four bytes that end it,
/// in both the legacy and the segwit form.
pub proof fn lemma_transaction_ends_from_bytes(s: Seq<u8>)
    ensures
        dec_transaction(s) matches Ok((tx, n)) ==> {
            &&& 8 <= n <= s.len()
            &&& tx.version == spec_u32_from_le_bytes(s.take(4))
            &&& tx.lock_time == spec_u32_from_le_bytes(s.subrange(n - 4, n as int))
        },
{
    lemma_transaction_own_bytes(s, Seq::empty());
    assert(s + Seq::<u8>::empty() =~= s);
    if let Ok((tx, n)) = dec_transaction(s) {
        let s1 = s.skip(4);
        let (ins, b) = dec_list::<TxIn>(s1)->Ok_0;
        let q = s.skip((4 + b) as int);
        assert(s1.skip(b as int) =~= q);
        if ins.len() == 0 {
            let t = q.skip(1);
            let (ins2, c) = dec_list::<TxIn>(t)->Ok_0;
            let (outs, d) = dec_list::<TxOut>(q.skip((1 + c) as int))->Ok_0;
            let (ws, w) = dec_many::<Witness>(q.skip((1 + c + d) as int), ins2.len())->Ok_0;
            let x = (4 + b + 1 + c + d + w) as int;
            assert(q.skip((1 + c + d + w) as int) =~= s.skip(x));
            assert(s.skip(x).take(4) =~= s.subrange(n - 4, n as int));
        } else {
            let (outs, c) = dec_list::<TxOut>(q)->Ok_0;
            let x = (4 + b + c) as int;
            assert(s.skip(x).take(4) =~= s.subrange(n - 4, n as int));
        }
    }
}


/// The witness of each input of a segwit layout is well formed: at most 255 items, each a
/// length in any compact-size form followed by that many bytes, and `wenc[i]` is its
/// encoding: the item count as one byte, then the items.
pub open spec fn witness_layout(
    wenc: Seq<Seq<u8>>,
    wc: Seq<Seq<Seq<u8>>>,
    wb: Seq<Seq<Seq<u8>>>,
) -> bool {
    &&& wenc.len() == wb.len()
    &&& wc.len() == wb.len()
    &&& forall|i: int|
        #![trigger wb[i]]
        0 <= i < wb.len() ==> {
            &&& wb[i].len() <= u8::MAX
            &&& wc[i].len() == wb[i].len()
            &&& forall|j: int|
                #![trigger wb[i][j]]
                0 <= j < wb[i].len() ==> wb[i][j].len() <= u64::MAX && is_compact_size_of(
                    wc[i][j],
                    wb[i][j].len() as u64,
                )
            &&& wenc[i] == seq![wb[i].len() as u8] + concat_all(witness_items(wc[i], wb[i]))
        }
}

proof fn lemma_segwit_marker(s4: Seq<u8>, r: Seq<u8>)
    requires
        s4 == seq![0u8] + r,
    ensures
        dec_list::<TxIn>(s4) == Ok::<(Seq<TxInModel>, nat), (Error, nat)>((Seq::empty(), 1nat)),
        s4.skip(1) == r,
{
    reveal(dec_compact_size);
    reveal(dec_list);
    reveal(dec_many);
    assert(s4[0] == 0u8);
    assert(s4.skip(1) =~= r);
}

proof fn lemma_witnesses_read(wenc: Seq<Seq<u8>>, wc: Seq<Seq<Seq<u8>>>, wb: Seq<Seq<Seq<u8>>>)
    requires
        witness_layout(wenc, wc, wb),
    ensures
        each_reads_as::<Witness>(wenc, wb),
{
    assert forall|i: int, r: Seq<u8>| 0 <= i < wenc.len() implies #[trigger] Witness::spec_decode(
        wenc[i] + r,
    ) == Ok::<(Seq<Seq<u8>>, nat), (Error, nat)>((wb[i], wenc[i].len())) by {
        assert(wb[i].len() <= u8::MAX && wc[i].len() == wb[i].len());
        assert forall|j: int| 0 <= j < wb[i].len() implies (#[trigger] wb[i][j]).len() <= u64::MAX
            && is_compact_size_of(wc[i][j], wb[i][j].len() as u64) by {}
        lemma_witness_reads(wc[i], wb[i], r);
        assert(wenc[i] + r =~= seq![wb[i].len() as u8] + concat_all(witness_items(wc[i], wb[i]))
            + r);
    }
}

proof fn lemma_no_witnesses_iff(ins: Seq<TxInModel>, wb: Seq<Seq<Seq<u8>>>)
    requires
        wb.len() == ins.len(),
    ensures
        no_witnesses(with_witnesses(ins, wb)) == (forall|i: int|
            0 <= i < ins.len() ==> #[trigger] wb[i].len() == 0),
        forall|i: int|
            0 <= i < ins.len() ==> #[trigger] with_witnesses(ins, wb)[i] == (TxInModel {
                witness: wb[i],
                ..ins[i]
            }),
{
    let with = with_witnesses(ins, wb);
    if no_witnesses(with) {
        assert forall|i: int| 0 <= i < ins.len() implies #[trigger] wb[i].len() == 0 by {
            assert(with[i].witness == wb[i]);
        }
    }
    if forall|i: int| 0 <= i < ins.len() ==> #[trigger] wb[i].len() == 0 {
        assert forall|i: int| 0 <= i < with.len() implies (#[trigger] with[i]).witness.len()
            == 0 by {
            assert(wb[i].len() == 0);
        }
    }
}

proof fn lemma_segwit_body_layout(
    s5: Seq<u8>,
    version: u32,
    cin: Seq<u8>,
    ein: Seq<Seq<u8>>,
    ins: Seq<TxInModel>,
    cout: Seq<u8>,
    eout: Seq<Seq<u8>>,
    outs: Seq<TxOutModel>,
    wenc: Seq<Seq<u8>>,
    wb: Seq<Seq<Seq<u8>>>,
    lt: Seq<u8>,
    rest: Seq<u8>,
)
    requires
        lt.len() == 4,
        ein.len() <= u64::MAX,
        is_compact_size_of(cin, ein.len() as u64),
        each_reads_as::<TxIn>(ein, ins),
        eout.len() <= u64::MAX,
        is_compact_size_of(cout, eout.len() as u64),
        each_reads_as::<TxOut>(eout, outs),
        wb.len() == ins.len(),
        each_reads_as::<Witness>(wenc, wb),
        s5 == seq![1u8] + (cin + concat_all(ein) + (cout + concat_all(eout) + (concat_all(wenc)
            + (lt + rest)))),
    ensures
        ({
            let body = (cin + concat_all(ein)).len() + (cout + concat_all(eout)).len()
                + concat_all(wenc).len();
            if ins.len() > 0 && no_witnesses(with_witnesses(ins, wb)) {
                dec_segwit_body(s5, version) == Err::<(TransactionModel, nat), (Error, nat)>(
                    (Error::ParseFailed(no_witness_message()), 1 + body),
                )
            } else {
                dec_segwit_body(s5, version) == Ok::<(TransactionModel, nat), (Error, nat)>(
                    (
                        TransactionModel {
                            version,
                            inputs: with_witnesses(ins, wb),
                            outputs: outs,
                            lock_time: spec_u32_from_le_bytes(lt),
                        },
                        1 + body + 4,
                    ),
                )
            }
        }),
{
    let ci = concat_all(ein);
    let co = concat_all(eout);
    let cw = concat_all(wenc);
    let r4 = lt + rest;
    let r3 = cw + r4;
    let r2 = cout + co + r3;
    let r1 = cin + ci + r2;
    assert(s5[0] == 1u8);
    assert(s5.skip(1) =~= r1);
    lemma_list_reads::<TxIn>(cin, ein, ins, r2);
    let b = cin.len() + ci.len();
    assert(s5.skip((1 + b) as int) =~= r2);
    lemma_list_reads::<TxOut>(cout, eout, outs, r3);
    let c = cout.len() + co.len();
    assert(s5.skip((1 + b + c) as int) =~= r3);
    lemma_many_reads::<Witness>(wenc, wb, r4);
    let d = cw.len();
    assert(s5.skip((1 + b + c + d) as int) =~= r4);
    assert(r4.take(4) =~= lt);
}

/// Take bytes laid out as a segwit transaction: the version bytes `v`, the marker `0` and
/// flag `1`, a count `cin` in any compact-size form followed by input encodings `ein` that
/// read as `ins`, a count `cout` followed by output encodings `eout` that read as `outs`,
/// one witness per input in order (`wenc[i]`, whose items are `wb[i]`), the lock time bytes
/// `lt`, and anything after. When there are inputs and every witness is empty, decoding
/// refuses the transaction with the no-witness error after the witnesses; otherwise it
/// gives the transaction with input `i` holding witness `wb[i]`, the outputs, and the
/// version and lock time as the little-endian values of `v` and `lt`, stopping right
/// before `rest`.
pub proof fn lemma_segwit_layout(
    s: Seq<u8>,
    v: Seq<u8>,
    cin: Seq<u8>,
    ein: Seq<Seq<u8>>,
    ins: Seq<TxInModel>,
    cout: Seq<u8>,
    eout: Seq<Seq<u8>>,
    outs: Seq<TxOutModel>,
    wenc: Seq<Seq<u8>>,
    wc: Seq<Seq<Seq<u8>>>,
    wb: Seq<Seq<Seq<u8>>>,
    lt: Seq<u8>,
    rest: Seq<u8>,
)
    requires
        v.len() == 4,
        lt.len() == 4,
        ein.len() <= u64::MAX,
        is_compact_size_of(cin, ein.len() as u64),
        each_reads_as::<TxIn>(ein, ins),
        eout.len() <= u64::MAX,
        is_compact_size_of(cout, eout.len() as u64),
        each_reads_as::<TxOut>(eout, outs),
        wb.len() == ins.len(),
        witness_layout(wenc, wc, wb),
        s == v + seq![0u8, 1u8] + cin + concat_all(ein) + cout + concat_all(eout) + concat_all(
            wenc,
        ) + lt + rest,
    ensures
        ins.len() > 0 && (forall|i: int| 0 <= i < ins.len() ==> #[trigger] wb[i].len() == 0)
            ==> (dec_transaction(s) matches Err((Error::ParseFailed(_), k)) && k == s.len() - 4
            - rest.len()),
        !(ins.len() > 0 && (forall|i: int| 0 <= i < ins.len() ==> #[trigger] wb[i].len() == 0))
            ==> (dec_transaction(s) matches Ok((tx, n)) && {
            &&& n == s.len() - rest.len()
            &&& tx.version == spec_u32_from_le_bytes(v)
            &&& tx.lock_time == spec_u32_from_le_bytes(lt)
            &&& tx.outputs == outs
            &&& tx.inputs.len() == ins.len()
            &&& forall|i: int|
                0 <= i < ins.len() ==> #[trigger] tx.inputs[i] == (TxInModel {
                    witness: wb[i],
                    ..ins[i]
                })
        }),
{
    let r5 = cin + concat_all(ein) + (cout + concat_all(eout) + (concat_all(wenc) + (lt
        + rest)));
    assert(s =~= v + (seq![0u8] + (seq![1u8] + r5)));
    assert(s.take(4) =~= v);
    assert(s.skip(4) =~= seq![0u8] + (seq![1u8] + r5));
    lemma_segwit_marker(s.skip(4), seq![1u8] + r5);
    assert(s.skip(5) =~= seq![1u8] + r5);
    lemma_witnesses_read(wenc, wc, wb);
    lemma_no_witnesses_iff(ins, wb);
    let version = spec_u32_from_le_bytes(v);
    lemma_segwit_body_layout(s.skip(5), version, cin, ein, ins, cout, eout, outs, wenc, wb, lt, rest);
    assert(s.len() == 5 + 1 + (cin + concat_all(ein)).len() + (cout + concat_all(eout)).len()
        + concat_all(wenc).len() + 4 + rest.len());
}


/// Take bytes laid out as a legacy transaction: the version bytes `v`, a non-zero count
/// `cin` in any compact-size form followed by input encodings `ein` that read as `ins`, a
/// count `cout` followed by output encodings `eout` that read as `outs`, the lock time bytes
/// `lt`, and anything after. Decoding gives the version and lock time as the little-endian
/// values of `v` and `lt`, the inputs and the outputs in order, and stops right before
/// `rest`.
pub proof fn lemma_legacy_layout(
    s: Seq<u8>,
    v: Seq<u8>,
    cin: Seq<u8>,
    ein: Seq<Seq<u8>>,
    ins: Seq<TxInModel>,
    cout: Seq<u8>,
    eout: Seq<Seq<u8>>,
    outs: Seq<TxOutModel>,
    lt: Seq<u8>,
    rest: Seq<u8>,
)
    requires
        v.len() == 4,
        lt.len() == 4,
        0 < ein.len() <= u64::MAX,
        is_compact_size_of(cin, ein.len() as u64),
        each_reads_as::<TxIn>(ein, ins),
        eout.len() <= u64::MAX,
        is_compact_size_of(cout, eout.len() as u64),
        each_reads_as::<TxOut>(eout, outs),
        s == v + cin + concat_all(ein) + cout + concat_all(eout) + lt + rest,
    ensures
        dec_transaction(s) == Ok::<(TransactionModel, nat), (Error, nat)>(
            (
                TransactionModel {
                    version: spec_u32_from_le_bytes(v),
                    inputs: ins,
                    outputs: outs,
                    lock_time: spec_u32_from_le_bytes(lt),
                },
                (s.len() - rest.len()) as nat,
            ),
        ),
{
    let ci = concat_all(ein);
    let co = concat_all(eout);
    let r3 = lt + rest;
    let r2 = cout + co + r3;
    let r1 = cin + ci + r2;
    assert(s =~= v + r1);
    assert(s.take(4) =~= v);
    assert(s.skip(4) =~= r1);
    lemma_list_reads::<TxIn>(cin, ein, ins, r2);
    let b = cin.len() + ci.len();
    assert(s.skip((4 + b) as int) =~= r2);
    lemma_list_reads::<TxOut>(cout, eout, outs, r3);
    let c = cout.len() + co.len();
    assert(s.skip((4 + b + c) as int) =~= r3);
    assert(r3.take(4) =~= lt);
}

} // verus!
