use tx_decoder::decode_transaction;
use tx_decoder::hexcode::HexError;
use tx_decoder::reader::Reader;
use tx_decoder::transaction::{
    Amount, CompactSize, Decodable, Encodable, Error, IoError, Transaction, TxIn, TxOut, Txid,
    Witness,
};
use tx_decoder::DecodeError;

const GENESIS_TX: &str = "01000000010000000000000000000000000000000000000000000000000000000000000000ffffffff4d04ffff001d0104455468652054696d65732030332f4a616e2f32303039204368616e63656c6c6f72206f6e206272696e6b206f66207365636f6e64206261696c6f757420666f722062616e6b73ffffffff0100f2052a01000000434104678afdb0fe5548271967f1a67130b7105cd6a828e03909a67962e0ea1f61deb649f6bc3f4cef38c4f35504e51ec112de5c384df7ba0b8d578a4c702b6bf11d5fac00000000";
const GENESIS_TXID: &str = "4a5e1e4baab89f3a32518a88c31bc87f618f76673e2cc77ab2127b7afdeda33b";
const GENESIS_SCRIPT_SIG: &str = "04ffff001d0104455468652054696d65732030332f4a616e2f32303039204368616e63656c6c6f72206f6e206272696e6b206f66207365636f6e64206261696c6f757420666f722062616e6b73";
const GENESIS_SCRIPT_PUBKEY: &str = "4104678afdb0fe5548271967f1a67130b7105cd6a828e03909a67962e0ea1f61deb649f6bc3f4cef38c4f35504e51ec112de5c384df7ba0b8d578a4c702b6bf11d5fac";

const SEGWIT_TX: &str = "0200000000010111111111111111111111111111111111111111111111111111111111111111110000000000ffffffff01e8030000000000000251000202abcd010100000000";
const SEGWIT_LEGACY_FORM: &str = "020000000111111111111111111111111111111111111111111111111111111111111111110000000000ffffffff01e80300000000000002510000000000";
const SEGWIT_TXID: &str = "19d5e5ced042ed4d781b1f628e756d07c0cc06e102318becf8e4636e44c9e8fa";

fn bytes(h: &str) -> Vec<u8> {
    hex::decode(h).unwrap()
}

fn decode_bytes<T: Decodable>(data: &[u8]) -> (Result<T, Error>, usize) {
    let mut r = Reader::new(data);
    let res = T::consensus_decode(&mut r);
    (res, r.consumed())
}

fn encode<T: Encodable>(v: &T) -> (Vec<u8>, usize) {
    let mut w = Vec::new();
    let n = v.consensus_encode(&mut w).unwrap();
    (w, n)
}

#[test]
fn genesis_transaction_decodes() {
    let tx = decode_transaction(GENESIS_TX).unwrap();
    assert_eq!(tx.version, 1);
    assert_eq!(tx.lock_time, 0);
    assert_eq!(tx.inputs.len(), 1);
    assert_eq!(tx.outputs.len(), 1);
    let input = &tx.inputs[0];
    assert_eq!(input.txid.to_hex(), "00".repeat(32));
    assert_eq!(input.output_index, 0xFFFF_FFFF);
    assert_eq!(input.script_sig, GENESIS_SCRIPT_SIG);
    assert_eq!(input.sequence, 0xFFFF_FFFF);
    assert!(input.witness.is_empty());
    assert_eq!(tx.outputs[0].amount.to_sat(), 5_000_000_000);
    assert_eq!(tx.outputs[0].script_pubkey, GENESIS_SCRIPT_PUBKEY);
}

#[test]
fn genesis_txid_is_reversed_double_sha256() {
    let tx = decode_transaction(GENESIS_TX).unwrap();
    assert_eq!(tx.compute_txid().to_hex(), GENESIS_TXID);
}

#[test]
fn upper_case_hex_text_decodes_alike() {
    let tx = decode_transaction(&GENESIS_TX.to_uppercase()).unwrap();
    assert_eq!(tx.compute_txid().to_hex(), GENESIS_TXID);
    assert_eq!(tx.inputs[0].script_sig, GENESIS_SCRIPT_SIG);
}

#[test]
fn trailing_bytes_are_left_unread() {
    let data = bytes(&format!("{}deadbeef", GENESIS_TX));
    let (tx, consumed) = decode_bytes::<Transaction>(&data);
    assert_eq!(tx.unwrap().compute_txid().to_hex(), GENESIS_TXID);
    assert_eq!(consumed, data.len() - 4);
}

#[test]
fn txid_preimage_decodes_back() {
    let data = bytes(GENESIS_TX);
    let (tx, _) = decode_bytes::<Transaction>(&data);
    let tx = tx.unwrap();
    let mut w = Vec::new();
    tx.version.consensus_encode(&mut w).unwrap();
    tx.inputs.consensus_encode(&mut w).unwrap();
    tx.outputs.consensus_encode(&mut w).unwrap();
    tx.lock_time.consensus_encode(&mut w).unwrap();
    assert_eq!(w, data);
}

#[test]
fn segwit_transaction_decodes_with_witness() {
    let tx = decode_transaction(SEGWIT_TX).unwrap();
    assert_eq!(tx.version, 2);
    assert_eq!(tx.inputs.len(), 1);
    assert_eq!(tx.inputs[0].txid.to_hex(), "11".repeat(32));
    assert_eq!(tx.inputs[0].script_sig, "");
    assert_eq!(tx.inputs[0].witness.to_hex_items(), vec!["abcd".to_string(), "01".to_string()]);
    assert!(!tx.inputs[0].witness.is_empty());
    assert_eq!(tx.outputs[0].amount.to_sat(), 1000);
    assert_eq!(tx.outputs[0].script_pubkey, "5100");
    assert_eq!(tx.lock_time, 0);
}

#[test]
fn witnesses_do_not_change_the_txid() {
    let segwit = decode_transaction(SEGWIT_TX).unwrap();
    let legacy = decode_transaction(SEGWIT_LEGACY_FORM).unwrap();
    assert_eq!(segwit.compute_txid().to_hex(), SEGWIT_TXID);
    assert_eq!(legacy.compute_txid().to_hex(), SEGWIT_TXID);
}

#[test]
fn segwit_flag_other_than_one_is_refused() {
    let res = decode_transaction("020000000002");
    assert!(matches!(res, Err(DecodeError::Parse(Error::UnsupportedSegwitFlag(2)))));
}

#[test]
fn segwit_without_witness_items_is_refused() {
    let text = "0200000000010111111111111111111111111111111111111111111111111111111111111111110000000000ffffffff01e803000000000000025100000000000000";
    let res = decode_transaction(text);
    assert!(matches!(
        res,
        Err(DecodeError::Parse(Error::ParseFailed("witness flag set but no witnesses present")))
    ));
}

#[test]
fn segwit_without_inputs_is_accepted() {
    let tx = decode_transaction("02000000000100000000000000").unwrap();
    assert_eq!(tx.inputs.len(), 0);
    assert_eq!(tx.outputs.len(), 0);
    assert_eq!(tx.lock_time, 0);
}

#[test]
fn short_input_is_an_io_error() {
    assert!(matches!(
        decode_transaction(""),
        Err(DecodeError::Parse(Error::Io(IoError::UnexpectedEof)))
    ));
    let cut = &GENESIS_TX[..GENESIS_TX.len() - 2];
    assert!(matches!(
        decode_transaction(cut),
        Err(DecodeError::Parse(Error::Io(IoError::UnexpectedEof)))
    ));
}

#[test]
fn huge_counts_run_out_of_input() {
    let res = decode_transaction("01000000ffffffffffffffffff");
    assert!(matches!(res, Err(DecodeError::Parse(Error::Io(IoError::UnexpectedEof)))));
}

#[test]
fn odd_hex_text_is_refused() {
    assert!(matches!(decode_transaction("123"), Err(DecodeError::Hex(HexError::OddLength))));
}

#[test]
fn invalid_hex_character_is_reported_with_its_index() {
    match decode_transaction("01g2zz") {
        Err(DecodeError::Hex(HexError::InvalidHexCharacter { c, index })) => {
            assert_eq!(c, 'g');
            assert_eq!(index, 2);
        }
        _ => panic!("expected an invalid character"),
    }
}

#[test]
fn compact_size_encodings() {
    let cases: Vec<(u64, &str)> = vec![
        (0, "00"),
        (0xFC, "fc"),
        (0xFD, "fdfd00"),
        (0xFFFF, "fdffff"),
        (0x10000, "fe00000100"),
        (0xFFFF_FFFF, "feffffffff"),
        (0x1_0000_0000, "ff0000000001000000"),
        (u64::MAX, "ffffffffffffffffff"),
    ];
    for (n, text) in cases {
        let (w, len) = encode(&CompactSize(n));
        assert_eq!(w, bytes(text));
        assert_eq!(len, w.len());
        let (back, consumed) = decode_bytes::<CompactSize>(&w);
        assert_eq!(back.unwrap().0, n);
        assert_eq!(consumed, len);
    }
}

#[test]
fn compact_size_lengths_are_one_three_five_nine() {
    assert_eq!(encode(&CompactSize(7)).1, 1);
    assert_eq!(encode(&CompactSize(300)).1, 3);
    assert_eq!(encode(&CompactSize(70000)).1, 5);
    assert_eq!(encode(&CompactSize(1 << 40)).1, 9);
}

#[test]
fn compact_size_accepts_longer_forms() {
    let (n, consumed) = decode_bytes::<CompactSize>(&bytes("fd0500"));
    assert_eq!(n.unwrap().0, 5);
    assert_eq!(consumed, 3);
    let (n, consumed) = decode_bytes::<CompactSize>(&bytes("ff0700000000000000"));
    assert_eq!(n.unwrap().0, 7);
    assert_eq!(consumed, 9);
}

#[test]
fn compact_size_cut_short_is_an_io_error() {
    let (n, _) = decode_bytes::<CompactSize>(&bytes("fe0100"));
    assert!(matches!(n, Err(Error::Io(IoError::UnexpectedEof))));
}

#[test]
fn integers_are_little_endian() {
    assert_eq!(encode(&0x12u8).0, bytes("12"));
    assert_eq!(encode(&0x1234u16).0, bytes("3412"));
    assert_eq!(encode(&0x1234_5678u32).0, bytes("78563412"));
    assert_eq!(encode(&0x0102_0304_0506_0708u64).0, bytes("0807060504030201"));
    assert_eq!(decode_bytes::<u16>(&bytes("3412")).0.unwrap(), 0x1234);
    assert_eq!(decode_bytes::<u32>(&bytes("78563412")).0.unwrap(), 0x1234_5678);
    assert_eq!(decode_bytes::<u64>(&bytes("0807060504030201")).0.unwrap(), 0x0102_0304_0506_0708);
    assert_eq!(decode_bytes::<u8>(&bytes("ff")).0.unwrap(), 0xff);
    assert!(matches!(decode_bytes::<u32>(&bytes("010203")).0, Err(Error::Io(IoError::UnexpectedEof))));
}

#[test]
fn script_is_written_as_bytes_and_read_as_lower_hex() {
    let (w, len) = encode(&"AbCd01".to_string());
    assert_eq!(w, bytes("03abcd01"));
    assert_eq!(len, 4);
    let (s, consumed) = decode_bytes::<String>(&w);
    assert_eq!(s.unwrap(), "abcd01");
    assert_eq!(consumed, 4);
}

#[test]
fn script_longer_than_input_is_an_io_error() {
    let (s, _) = decode_bytes::<String>(&bytes("05abcd"));
    assert!(matches!(s, Err(Error::Io(IoError::UnexpectedEof))));
}

#[test]
fn input_roundtrips_without_witness() {
    let data = bytes(&format!("{}{}{}{}", "22".repeat(32), "05000000", "0251ac", "feffffff"));
    let (txin, consumed) = decode_bytes::<TxIn>(&data);
    let txin = txin.unwrap();
    assert_eq!(consumed, data.len());
    assert_eq!(txin.output_index, 5);
    assert_eq!(txin.script_sig, "51ac");
    assert_eq!(txin.sequence, 0xFFFF_FFFE);
    assert!(txin.witness.is_empty());
    let (w, len) = encode(&txin);
    assert_eq!(w, data);
    assert_eq!(len, data.len());
}

#[test]
fn output_list_roundtrips() {
    let data = bytes("02e8030000000000000151d007000000000000026a00");
    let (outs, consumed) = decode_bytes::<Vec<TxOut>>(&data);
    let outs = outs.unwrap();
    assert_eq!(consumed, data.len());
    assert_eq!(outs.len(), 2);
    assert_eq!(outs[0].amount.to_sat(), 1000);
    assert_eq!(outs[1].script_pubkey, "6a00");
    let (w, len) = encode(&outs);
    assert_eq!(w, data);
    assert_eq!(len, data.len());
}

#[test]
fn input_list_stops_at_the_first_error() {
    let data = bytes(&format!("02{}{}", "22".repeat(32), "05000000"));
    let (ins, _) = decode_bytes::<Vec<TxIn>>(&data);
    assert!(matches!(ins, Err(Error::Io(IoError::UnexpectedEof))));
}

#[test]
fn witness_count_is_one_byte() {
    let (w, consumed) = decode_bytes::<Witness>(&bytes("0300020102fd0000"));
    let w = w.unwrap();
    assert_eq!(consumed, 8);
    assert_eq!(w.to_hex_items(), vec!["".to_string(), "0102".to_string(), "".to_string()]);
}

#[test]
fn new_witness_is_empty() {
    let w = Witness::new();
    assert!(w.is_empty());
    assert!(w.to_hex_items().is_empty());
}

#[test]
fn txid_bytes_roundtrip_and_display_reversed() {
    let mut raw = [0u8; 32];
    for (i, b) in raw.iter_mut().enumerate() {
        *b = i as u8;
    }
    let id = Txid::from_hash(raw);
    let (w, len) = encode(&id);
    assert_eq!(w, raw.to_vec());
    assert_eq!(len, 32);
    let mut reversed = raw.to_vec();
    reversed.reverse();
    assert_eq!(id.to_hex(), hex::encode(reversed));
    let (back, consumed) = decode_bytes::<Txid>(&w);
    assert_eq!(back.unwrap().to_hex(), id.to_hex());
    assert_eq!(consumed, 32);
}

#[test]
fn amount_keeps_satoshis() {
    let a = Amount::from_sat(2_100_000_000_000_000);
    assert_eq!(a.to_sat(), 2_100_000_000_000_000);
    assert_eq!(encode(&a).0, bytes("0040075af0750700"));
}


#[test]
fn unsupported_flag_stops_after_the_flag() {
    let data = bytes("0100000000020abcdef0");
    let (tx, consumed) = decode_bytes::<Transaction>(&data);
    assert!(matches!(tx, Err(Error::UnsupportedSegwitFlag(2))));
    assert_eq!(consumed, 6);
}

#[test]
fn running_out_of_input_takes_all_of_it() {
    let data = bytes(GENESIS_TX);
    for k in [0usize, 3, 4, 5, 40, 100, data.len() - 1] {
        let (tx, consumed) = decode_bytes::<Transaction>(&data[..k]);
        assert!(matches!(tx, Err(Error::Io(IoError::UnexpectedEof))));
        assert_eq!(consumed, k);
    }
}

#[test]
fn missing_witness_stops_after_the_witnesses() {
    let text = "0200000000010111111111111111111111111111111111111111111111111111111111111111110000000000ffffffff01e80300000000000002510000";
    let data = bytes(&format!("{}00000000", text));
    let (tx, consumed) = decode_bytes::<Transaction>(&data);
    assert!(matches!(tx, Err(Error::ParseFailed(_))));
    assert_eq!(consumed, data.len() - 4);
}
