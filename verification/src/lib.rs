//! Decoding of Bitcoin transactions from hexadecimal text, with their ids.
use crate::hexcode::{decode_hex, hex_text_bytes, is_hex_error, is_hex_text, HexError};
use crate::reader::Reader;
use crate::transaction::{Decodable, Error, Transaction};
use crate::wire::dec_transaction;
use vstd::prelude::*;
use vstd::utf8::encode_utf8;

pub mod hexcode;
pub mod laws;
pub mod reader;
pub mod sha;
pub mod transaction;
pub mod wire;

verus! {

/// Why hexadecimal text does not give a transaction.
#[derive(Debug, Clone, Copy, PartialEq, Eq)]
pub enum DecodeError {
    /// The text is not hexadecimal.
    Hex(HexError),
    /// The bytes are not a transaction.
    Parse(Error),
}

/// Reads a transaction from the front of the bytes that the hexadecimal text
/// `transaction_hex` stands for. Bytes after the transaction are left unread.
pub fn decode_transaction(transaction_hex: &str) -> (res: Result<Transaction, DecodeError>)
    ensures
        match res {
            Ok(tx) => {
                &&& is_hex_text(transaction_hex@)
                &&& dec_transaction(hex_text_bytes(transaction_hex@)) matches Ok((m, _))
                &&& tx@ == m
            },
            Err(DecodeError::Hex(e)) => is_hex_error(encode_utf8(transaction_hex@), e),
            Err(DecodeError::Parse(e)) => {
                &&& is_hex_text(transaction_hex@)
                &&& dec_transaction(hex_text_bytes(transaction_hex@)) matches Err((pe, _))
                &&& pe == e
            },
        },
{
    let transaction_bytes = match decode_hex(transaction_hex.as_bytes()) {
        Ok(b) => b,
        Err(e) => return Err(DecodeError::Hex(e)),
    };
    let mut r = Reader::new(transaction_bytes.as_slice());
    match Transaction::consensus_decode(&mut r) {
        Ok(tx) => Ok(tx),
        Err(e) => Err(DecodeError::Parse(e)),
    }
}

} // verus!
