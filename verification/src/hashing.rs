use vstd::prelude::*;
use sha1::Digest;

verus! {

/// The 20-byte SHA-1 digest of a byte sequence. It is computed only by the
/// outside hashing routine; nothing here states what the bytes are, only
/// that they depend on the input alone.
pub uninterp spec fn sha1_of(data: Seq<u8>) -> Seq<u8>;

/// The standing assumption of content addressing: no two distinct byte
/// sequences share a digest. Nothing proves or assumes it outright; the
/// contracts that depend on it carry it as an explicit hypothesis.
pub open spec fn sha1_collision_free() -> bool {
    forall|a: Seq<u8>, b: Seq<u8>| sha1_of(a) == sha1_of(b) ==> a == b
}

/// The lowercase hexadecimal character for a value below 16.
pub open spec fn hex_digit_char(n: u8) -> char {
    if n < 10 {
        ((0x30 + n) as u8) as char
    } else {
        ((0x57 + n) as u8) as char
    }
}

/// A character that hexadecimal decoding accepts: a digit or a letter of
/// either case from `a` to `f`.
pub open spec fn is_hex_char(c: char) -> bool {
    ('0' <= c && c <= '9') || ('a' <= c && c <= 'f') || ('A' <= c && c <= 'F')
}

/// A character that hexadecimal encoding produces: a digit or a lowercase
/// letter from `a` to `f`.
pub open spec fn is_lower_hex_char(c: char) -> bool {
    ('0' <= c && c <= '9') || ('a' <= c && c <= 'f')
}

/// The value of a hexadecimal character.
pub open spec fn hex_char_val(c: char) -> u8 {
    if '0' <= c && c <= '9' {
        ((c as u32) - 0x30) as u8
    } else if 'a' <= c && c <= 'f' {
        ((c as u32) - 0x57) as u8
    } else {
        ((c as u32) - 0x37) as u8
    }
}

/// The lowercase hexadecimal encoding of a byte sequence: two characters
/// per byte, high nibble first.
pub open spec fn hex_of(bytes: Seq<u8>) -> Seq<char>
    decreases bytes.len(),
{
    if bytes.len() == 0 {
        Seq::empty()
    } else {
        hex_of(bytes.drop_last()) + seq![
            hex_digit_char(bytes.last() / 16),
            hex_digit_char(bytes.last() % 16),
        ]
    }
}

/// The bytes that a sequence of hexadecimal characters denotes, two
/// characters to a byte.
pub open spec fn hex_decode_of(s: Seq<char>) -> Seq<u8>
    decreases s.len(),
{
    if s.len() < 2 {
        Seq::empty()
    } else {
        hex_decode_of(s.drop_last().drop_last()).push(
            (hex_char_val(s[s.len() - 2]) * 16 + hex_char_val(s.last())) as u8,
        )
    }
}

/// Hexadecimal encoding writes two lowercase hexadecimal characters per byte.
pub proof fn lemma_hex_of_len(bytes: Seq<u8>)
    ensures
        hex_of(bytes).len() == 2 * bytes.len(),
        forall|i: int| 0 <= i < hex_of(bytes).len() ==> is_lower_hex_char(#[trigger] hex_of(bytes)[i]),
    decreases bytes.len(),
{
    if bytes.len() > 0 {
        lemma_hex_of_len(bytes.drop_last());
    }
}

/// Hexadecimal encoding is injective: equal encodings come from equal bytes.
pub proof fn lemma_hex_of_injective(a: Seq<u8>, b: Seq<u8>)
    requires
        hex_of(a) == hex_of(b),
    ensures
        a == b,
{
    lemma_hex_round_trip(a);
    lemma_hex_round_trip(b);
}

/// Encoding bytes in hexadecimal and decoding the characters returns them.
pub proof fn lemma_hex_round_trip(bytes: Seq<u8>)
    ensures
        hex_decode_of(hex_of(bytes)) == bytes,
    decreases bytes.len(),
{
    lemma_hex_of_len(bytes);
    if bytes.len() == 0 {
        assert(hex_decode_of(hex_of(bytes)) =~= bytes);
    } else {
        lemma_hex_round_trip(bytes.drop_last());
        lemma_hex_of_len(bytes.drop_last());
        let s = hex_of(bytes);
        assert(s.drop_last().drop_last() =~= hex_of(bytes.drop_last()));
        assert(s[s.len() - 2] == hex_digit_char(bytes.last() / 16));
        assert(s.last() == hex_digit_char(bytes.last() % 16));
        assert(hex_char_val(hex_digit_char(bytes.last() / 16)) == bytes.last() / 16);
        assert(hex_char_val(hex_digit_char(bytes.last() % 16)) == bytes.last() % 16);
        assert((bytes.last() / 16) * 16 + bytes.last() % 16 == bytes.last());
        assert(hex_decode_of(hex_of(bytes)) =~= bytes);
    }
}

/// Decoding lowercase hexadecimal characters and encoding the bytes again
/// returns the characters.
pub proof fn lemma_hex_reencode(s: Seq<char>)
    requires
        s.len() % 2 == 0,
        forall|i: int| 0 <= i < s.len() ==> is_lower_hex_char(#[trigger] s[i]),
    ensures
        hex_of(hex_decode_of(s)) == s,
        hex_decode_of(s).len() * 2 == s.len(),
    decreases s.len(),
{
    if s.len() == 0 {
        assert(hex_of(hex_decode_of(s)) =~= s);
    } else {
        let front = s.drop_last().drop_last();
        assert(front.len() % 2 == 0);
        lemma_hex_reencode(front);
        let hi = hex_char_val(s[s.len() - 2]);
        let lo = hex_char_val(s.last());
        assert(hi < 16 && lo < 16);
        let b = (hi * 16 + lo) as u8;
        assert(hex_decode_of(s) == hex_decode_of(front).push(b));
        assert(hex_decode_of(s).drop_last() =~= hex_decode_of(front));
        assert(b / 16 == hi && b % 16 == lo);
        assert(hex_digit_char(hi) == s[s.len() - 2]);
        assert(hex_digit_char(lo) == s.last());
        assert(hex_of(hex_decode_of(s)) =~= s);
    }
}

/// Relies on `hex::encode`: it writes exactly two lowercase hexadecimal
/// digits for each input byte, high nibble first.
#[verifier::external_body]
pub fn hex_encode(data: &[u8]) -> (r: String)
    ensures
        r@ == hex_of(data@),
{
    hex::encode(data)
}

/// Relies on `hex::decode`: it accepts exactly the strings of even length
/// whose characters are all hexadecimal digits (either case), and returns
/// the bytes they denote, two characters to a byte.
#[verifier::external_body]
pub fn hex_decode(s: &str) -> (r: Option<Vec<u8>>)
    ensures
        match r {
            Some(v) => s@.len() % 2 == 0 && (forall|i: int|
                0 <= i < s@.len() ==> is_hex_char(#[trigger] s@[i])) && v@ == hex_decode_of(s@),
            None => !(s@.len() % 2 == 0 && (forall|i: int|
                0 <= i < s@.len() ==> is_hex_char(#[trigger] s@[i]))),
        },
{
    match hex::decode(s) {
        Ok(v) => Some(v),
        Err(_) => None,
    }
}

/// Relies on `sha1::Sha1` through the `Digest` trait: the 20-byte SHA-1
/// digest of the input, a function of the input bytes alone.
#[verifier::external_body]
fn sha1_digest(data: &[u8]) -> (r: Vec<u8>)
    ensures
        r@ == sha1_of(data@),
        r@.len() == 20,
{
    let mut hasher = sha1::Sha1::new();
    hasher.update(data);
    hasher.finalize().to_vec()
}

/// The identity digest used for content addressing: the SHA-1 of `data`
/// written in lowercase hexadecimal.
pub fn sha1(data: &[u8]) -> (r: String)
    ensures
        r@ == hex_of(sha1_of(data@)),
        r@.len() == 40,
        sha1_of(data@).len() == 20,
{
    let digest = sha1_digest(data);
    proof {
        lemma_hex_of_len(digest@);
    }
    hex_encode(digest.as_slice())
}

} // verus!
