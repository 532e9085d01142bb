//! The encodings that the resolver shares with remote ledgers: hexadecimal
//! text, the ledger's length-prefixed byte strings, and its storage hashes.
//!
//! The functions of this module that are marked `external_body`, and the two
//! `assume_specification` items, are not proved: each calls a library that
//! lives outside this crate, and its contract states what that library does.

use vstd::prelude::*;

verus! {

/// The lowercase hexadecimal digit of `nibble`, as an ASCII byte.
pub open spec fn hex_digit(nibble: int) -> u8 {
    if nibble < 10 {
        (48 + nibble) as u8
    } else {
        (87 + nibble) as u8
    }
}

/// The lowercase hexadecimal text of `data`: two digits for each byte, the
/// high half first.
pub open spec fn hex_text(data: Seq<u8>) -> Seq<u8> {
    Seq::new(
        2 * data.len(),
        |i: int|
            if i % 2 == 0 {
                hex_digit(data[i / 2] as int / 16)
            } else {
                hex_digit(data[i / 2] as int % 16)
            },
    )
}

/// The value of a hexadecimal digit in either case; `None` for any other
/// byte.
pub open spec fn hex_value(digit: u8) -> Option<int> {
    if 48 <= digit <= 57 {
        Some(digit - 48)
    } else if 97 <= digit <= 102 {
        Some(digit - 97 + 10)
    } else if 65 <= digit <= 70 {
        Some(digit - 65 + 10)
    } else {
        None
    }
}

/// The bytes that hexadecimal text stands for: `None` where the text has an
/// odd length or holds a byte that is no hexadecimal digit.
pub open spec fn hex_bytes(text: Seq<u8>) -> Option<Seq<u8>> {
    if text.len() % 2 == 0 && forall|i: int| 0 <= i < text.len() ==> hex_value(#[trigger] text[i])
        is Some {
        Some(
            Seq::new(
                text.len() / 2,
                |i: int| (16 * hex_value(text[2 * i])->0 + hex_value(text[2 * i + 1])->0) as u8,
            ),
        )
    } else {
        None
    }
}

/// `hex::encode`: the lowercase hexadecimal text of `data`, two digits for
/// each byte, handed back as the bytes of the text.
#[verifier::external_body]
pub(crate) fn hex_encode(data: &[u8]) -> (text: Vec<u8>)
    ensures
        text@ == hex_text(data@),
{
    hex::encode(data).into_bytes()
}

/// `hex::decode`: the bytes that `text` stands for. The call fails where
/// the length of `text` is odd or a byte of it is not a hexadecimal digit;
/// digits of both cases are taken.
#[verifier::external_body]
pub(crate) fn hex_decode(text: &[u8]) -> (bytes: Option<Vec<u8>>)
    ensures
        match bytes {
            Some(b) => hex_bytes(text@) == Some(b@),
            None => hex_bytes(text@) is None,
        },
{
    hex::decode(text).ok()
}

/// The little-endian bytes of `value`, `width` of them.
pub open spec fn le_bytes(value: nat, width: nat) -> Seq<u8>
    decreases width,
{
    if width == 0 {
        Seq::empty()
    } else {
        seq![(value % 256) as u8] + le_bytes(value / 256, (width - 1) as nat)
    }
}

/// The number that little-endian bytes stand for.
pub open spec fn le_value(bytes: Seq<u8>) -> nat
    decreases bytes.len(),
{
    if bytes.len() == 0 {
        0
    } else {
        bytes[0] as nat + 256 * le_value(bytes.skip(1))
    }
}

/// The ledger's compact encoding of a length below 2^32: one, two, four or
/// five bytes, the two low bits of the first byte telling which.
pub open spec fn compact_length(len: nat) -> Seq<u8> {
    if len <= 0x3f {
        le_bytes(len * 4, 1)
    } else if len <= 0x3fff {
        le_bytes(len * 4 + 1, 2)
    } else if len <= 0x3fff_ffff {
        le_bytes(len * 4 + 2, 4)
    } else {
        seq![3u8] + le_bytes(len, 4)
    }
}

/// The ledger's encoding of a byte string: its compact length, then its
/// bytes.
pub open spec fn scale_encoded(data: Seq<u8>) -> Seq<u8> {
    compact_length(data.len()) + data
}

/// The length that a compact encoding at the start of `input` stands for,
/// and the number of bytes it takes. `None` where `input` ends too early,
/// where the length is not below 2^32, or where a shorter encoding of the
/// same length exists.
pub open spec fn compact_decoded(input: Seq<u8>) -> Option<(nat, nat)> {
    if input.len() == 0 {
        None
    } else if input[0] % 4 == 0 {
        Some(((input[0] / 4) as nat, 1))
    } else if input[0] % 4 == 1 {
        if input.len() >= 2 && le_value(input.take(2)) / 4 > 0x3f {
            Some((le_value(input.take(2)) / 4, 2))
        } else {
            None
        }
    } else if input[0] % 4 == 2 {
        if input.len() >= 4 && le_value(input.take(4)) / 4 > 0x3fff {
            Some((le_value(input.take(4)) / 4, 4))
        } else {
            None
        }
    } else {
        if input[0] / 4 == 0 && input.len() >= 5 && le_value(input.subrange(1, 5)) > 0x3fff_ffff {
            Some((le_value(input.subrange(1, 5)), 5))
        } else {
            None
        }
    }
}

/// The byte string encoded at the start of `input`, and what follows it.
/// `None` where the length prefix is not valid or `input` holds fewer bytes
/// than the prefix announces.
pub open spec fn scale_decoded(input: Seq<u8>) -> Option<(Seq<u8>, Seq<u8>)> {
    match compact_decoded(input) {
        None => None,
        Some((len, used)) => if used + len <= input.len() {
            Some((input.subrange(used as int, (used + len) as int), input.skip((used + len) as int)))
        } else {
            None
        },
    }
}

/// The number of values that `width` bytes can hold.
pub open spec fn radix(width: nat) -> nat
    decreases width,
{
    if width == 0 {
        1
    } else {
        256 * radix((width - 1) as nat)
    }
}

/// Little-endian bytes stand for the number they were made from.
pub proof fn lemma_le_round_trip(value: nat, width: nat)
    requires
        value < radix(width),
    ensures
        le_bytes(value, width).len() == width,
        le_value(le_bytes(value, width)) == value,
        width > 0 ==> le_bytes(value, width)[0] == value % 256,
    decreases width,
{
    if width > 0 {
        let bytes = le_bytes(value, width);
        let tail = le_bytes(value / 256, (width - 1) as nat);
        lemma_le_round_trip(value / 256, (width - 1) as nat);
        assert(bytes =~= seq![(value % 256) as u8] + tail);
        assert(bytes.skip(1) =~= tail);
    }
}

/// Decoding a compact length gives back the length that was encoded,
/// whatever follows it.
pub proof fn lemma_compact_round_trip(len: nat, rest: Seq<u8>)
    requires
        len <= u32::MAX,
    ensures
        compact_decoded(compact_length(len) + rest) == Some((len, compact_length(len).len())),
{
    let prefix = compact_length(len);
    let input = prefix + rest;
    assert(radix(1) == 256 && radix(2) == 65536 && radix(4) == 0x1_0000_0000) by {
        reveal_with_fuel(radix, 5);
    }
    if len <= 0x3f {
        lemma_le_round_trip(len * 4, 1);
        assert(input[0] == prefix[0]);
    } else if len <= 0x3fff {
        lemma_le_round_trip(len * 4 + 1, 2);
        assert(input[0] == prefix[0]);
        assert(input.take(2) =~= prefix);
    } else if len <= 0x3fff_ffff {
        lemma_le_round_trip(len * 4 + 2, 4);
        assert(input[0] == prefix[0]);
        assert(input.take(4) =~= prefix);
    } else {
        lemma_le_round_trip(len, 4);
        assert(input[0] == 3u8);
        assert(input.subrange(1, 5) =~= le_bytes(len, 4));
    }
}

/// Decoding an encoded byte string gives back the byte string and what
/// follows it.
pub proof fn lemma_scale_round_trip(data: Seq<u8>, rest: Seq<u8>)
    requires
        data.len() <= u32::MAX,
    ensures
        scale_decoded(scale_encoded(data) + rest) == Some((data, rest)),
{
    let prefix = compact_length(data.len());
    let input = scale_encoded(data) + rest;
    lemma_compact_round_trip(data.len(), data + rest);
    assert(input =~= prefix + (data + rest));
    let used = prefix.len();
    assert(input.subrange(used as int, (used + data.len()) as int) =~= data);
    assert(input.skip((used + data.len()) as int) =~= rest);
}

/// `parity_scale_codec::Encode::encode` on a byte vector: the compact
/// encoding of the length, followed by the bytes. The call panics on a
/// vector of 2^32 bytes or more, which `requires` leaves out.
#[verifier::external_body]
pub(crate) fn scale_encode(data: &Vec<u8>) -> (encoded: Vec<u8>)
    requires
        data@.len() <= u32::MAX,
    ensures
        encoded@ == scale_encoded(data@),
{
    parity_scale_codec::Encode::encode(data)
}

/// `parity_scale_codec::Decode::decode` for a byte vector, reading from the
/// start of `input`: the decoded bytes and the rest of the input. The call
/// fails where the length prefix is cut short, out of range or longer than
/// it needs to be, and where fewer bytes follow than the prefix announces.
#[verifier::external_body]
pub(crate) fn scale_decode(input: &[u8]) -> (r: Option<(Vec<u8>, &[u8])>)
    ensures
        match r {
            Some((bytes, rest)) => scale_decoded(input@) == Some((bytes@, rest@)),
            None => scale_decoded(input@) is None,
        },
{
    let mut rest = input;
    match <Vec<u8> as parity_scale_codec::Decode>::decode(&mut rest) {
        Ok(bytes) => Some((bytes, rest)),
        Err(_) => None,
    }
}

/// The 128-bit XX hash of `data` that the ledger uses for the fixed parts of
/// a storage address.
pub uninterp spec fn twox_128_hash(data: Seq<u8>) -> Seq<u8>;

/// The 128-bit Blake2 hash of `data` that the ledger uses for the keys of a
/// storage map.
pub uninterp spec fn blake2_128_hash(data: Seq<u8>) -> Seq<u8>;

/// `sp_crypto_hashing::twox_128`: sixteen bytes that depend on `data` alone.
pub assume_specification[ sp_crypto_hashing::twox_128 ](data: &[u8]) -> (hash: [u8; 16])
    ensures
        hash@ == twox_128_hash(data@),
;

/// `sp_crypto_hashing::blake2_128`: sixteen bytes that depend on `data`
/// alone.
pub assume_specification[ sp_crypto_hashing::blake2_128 ](data: &[u8]) -> (hash: [u8; 16])
    ensures
        hash@ == blake2_128_hash(data@),
;

} // verus!
