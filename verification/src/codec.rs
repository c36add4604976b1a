//! The entry codec: the logical record (username, password) to and from the
//! plaintext handed to the cipher, and ciphertext bytes to and from the
//! lowercase hex text they are stored as.

use vstd::prelude::*;
use vstd::string::*;
use vstd::utf8::{encode_utf8, valid_utf8, encode_utf8_decode_utf8};

use crate::errors::VaultError;

verus! {

/// Relies on `String::from_utf8`: it succeeds exactly on valid UTF-8 input
/// and returns the string those bytes encode.
#[verifier::external_body]
pub(crate) fn bytes_to_string(bytes: Vec<u8>) -> (r: Option<String>)
    ensures
        r matches Some(s) ==> encode_utf8(s@) == bytes@,
        valid_utf8(bytes@) ==> r is Some,
{
    match String::from_utf8(bytes) {
        Ok(s) => Some(s),
        Err(_) => None,
    }
}

/// UTF-8 encoding is injective: it is inverted by decoding.
pub(crate) proof fn lemma_encode_utf8_injective(a: Seq<char>, b: Seq<char>)
    requires
        encode_utf8(a) == encode_utf8(b),
    ensures
        a == b,
{
    encode_utf8_decode_utf8(a);
    encode_utf8_decode_utf8(b);
}

/// A named entry's logical payload: a username and a password.
///
/// The two fields are serialized as `username;password`, split again at the
/// first `;`. A username that itself contains `;` therefore comes back split
/// at the wrong place — a documented limitation of the format, not checked
/// here.
#[derive(Debug)]
pub struct EntryRecord {
    pub username: String,
    pub password: String,
}

/// The plaintext character sequence an entry record is serialized to:
/// the username, one `;`, the password.
pub open spec fn serialize_chars(username: Seq<char>, password: Seq<char>) -> Seq<char> {
    username + seq![';'] + password
}

/// Serialize a record to the `username;password` form.
pub fn serialize(record: &EntryRecord) -> (r: String)
    ensures
        r@ == serialize_chars(record.username@, record.password@),
{
    let mut s = record.username.clone();
    s.append(";");
    s.append(record.password.as_str());
    proof {
        reveal_strlit(";");
        assert(s@ =~= serialize_chars(record.username@, record.password@));
    }
    s
}

/// Split a serialized record at its first `;`.
///
/// Fails with `MalformedRecord` exactly when the text holds no `;` at all.
pub fn deserialize(s: &str) -> (r: Result<EntryRecord, VaultError>)
    ensures
        (r matches Ok(rec) ==> !rec.username@.contains(';') && s@ == serialize_chars(
            rec.username@,
            rec.password@,
        )),
        s@.contains(';') ==> r is Ok,
        r is Err ==> r == Err::<EntryRecord, VaultError>(VaultError::MalformedRecord)
            && !s@.contains(';'),
{
    let n = s.unicode_len();
    let mut i: usize = 0;
    while i < n
        invariant
            n == s@.len(),
            i <= n,
            forall|j: int| 0 <= j < i ==> s@[j] != ';',
        decreases n - i,
    {
        if s.get_char(i) == ';' {
            let username = s.substring_char(0, i);
            let password = s.substring_char(i + 1, n);
            proof {
                assert(s@ =~= serialize_chars(username@, password@));
                assert(!username@.contains(';')) by {
                    assert(forall|j: int|
                        0 <= j < username@.len() ==> username@[j] == s@[j] && s@[j] != ';');
                }
            }
            return Ok(
                EntryRecord {
                    username: String::from_str(username),
                    password: String::from_str(password),
                },
            );
        }
        i += 1;
    }
    proof {
        assert(!s@.contains(';')) by {
            assert(forall|j: int| 0 <= j < s@.len() ==> s@[j] != ';');
        }
    }
    Err(VaultError::MalformedRecord)
}

/// Two serialized records are equal only if the records are, as long as the
/// usernames are free of `;`: the separator's position is pinned to the first
/// `;` of the text.
pub proof fn lemma_serialize_chars_injective(
    u1: Seq<char>,
    p1: Seq<char>,
    u2: Seq<char>,
    p2: Seq<char>,
)
    requires
        !u1.contains(';'),
        !u2.contains(';'),
        serialize_chars(u1, p1) == serialize_chars(u2, p2),
    ensures
        u1 == u2,
        p1 == p2,
{
    let s = serialize_chars(u1, p1);
    assert(s[u1.len() as int] == ';');
    assert(s[u2.len() as int] == ';');
    if u1.len() < u2.len() {
        assert(s[u1.len() as int] == u2[u1.len() as int]);
        assert(u2.contains(';')) by {
            assert(u2[u1.len() as int] == ';');
        }
    } else if u2.len() < u1.len() {
        assert(s[u2.len() as int] == u1[u2.len() as int]);
        assert(u1.contains(';')) by {
            assert(u1[u2.len() as int] == ';');
        }
    }
    assert(u1.len() == u2.len());
    assert forall|i: int| 0 <= i < u1.len() implies u1[i] == u2[i] by {
        assert(u1[i] == s[i] && u2[i] == s[i]);
    }
    assert(u1 =~= u2);
    assert(serialize_chars(u1, p1).len() == u1.len() + 1 + p1.len());
    assert(serialize_chars(u2, p2).len() == u2.len() + 1 + p2.len());
    assert(p1.len() == p2.len());
    assert forall|i: int| 0 <= i < p1.len() implies p1[i] == p2[i] by {
        let a1 = u1 + seq![';'];
        let a2 = u2 + seq![';'];
        assert(serialize_chars(u1, p1) == a1 + p1 && serialize_chars(u2, p2) == a2 + p2);
        assert((a1 + p1)[a1.len() + i] == p1[i]);
        assert((a2 + p2)[a2.len() + i] == p2[i]);
    }
    assert(p1 =~= p2);
}

/// The storage text digit for a 4-bit value: `0`-`9` then `a`-`f`.
pub open spec fn hex_digit(v: u8) -> u8 {
    if v < 10 {
        (48 + v) as u8
    } else {
        (87 + v) as u8
    }
}

/// The lowercase hex text for a byte sequence, two digits per byte.
pub open spec fn hex_text(bytes: Seq<u8>) -> Seq<u8>
    decreases bytes.len(),
{
    if bytes.len() == 0 {
        Seq::empty()
    } else {
        seq![hex_digit(bytes[0] / 16), hex_digit(bytes[0] % 16)] + hex_text(bytes.drop_first())
    }
}

/// True of the bytes this codec's decoder accepts: the lowercase hex digits.
pub open spec fn is_hex_digit(c: u8) -> bool {
    (48 <= c <= 57) || (97 <= c <= 102)
}

/// True of a well-formed storage text: even length, lowercase hex digits
/// throughout.
pub open spec fn is_hex_text(s: Seq<u8>) -> bool {
    s.len() % 2 == 0 && (forall|i: int| 0 <= i < s.len() ==> is_hex_digit(#[trigger] s[i]))
}

/// The 4-bit value of a storage text digit.
pub open spec fn hex_val(c: u8) -> u8 {
    if c <= 57 {
        (c - 48) as u8
    } else {
        (c - 87) as u8
    }
}

/// The bytes a well-formed storage text stands for, one per digit pair.
pub open spec fn hex_parse(s: Seq<u8>) -> Seq<u8>
    decreases s.len(),
{
    if s.len() < 2 {
        Seq::empty()
    } else {
        seq![(hex_val(s[0]) * 16 + hex_val(s[1])) as u8] + hex_parse(s.skip(2))
    }
}

/// Hex text distributes over concatenation.
pub proof fn lemma_hex_text_concat(a: Seq<u8>, b: Seq<u8>)
    ensures
        hex_text(a + b) == hex_text(a) + hex_text(b),
    decreases a.len(),
{
    if a.len() == 0 {
        assert(a + b =~= b);
        assert(hex_text(a) + hex_text(b) =~= hex_text(b));
    } else {
        lemma_hex_text_concat(a.drop_first(), b);
        assert((a + b).drop_first() =~= a.drop_first() + b);
        assert(hex_text(a + b) =~= hex_text(a) + hex_text(b));
    }
}

/// Parsing distributes over concatenation of even-length texts.
pub proof fn lemma_hex_parse_concat(a: Seq<u8>, b: Seq<u8>)
    requires
        a.len() % 2 == 0,
    ensures
        hex_parse(a + b) == hex_parse(a) + hex_parse(b),
    decreases a.len(),
{
    if a.len() == 0 {
        assert(a + b =~= b);
        assert(hex_parse(a) + hex_parse(b) =~= hex_parse(b));
    } else {
        lemma_hex_parse_concat(a.skip(2), b);
        assert((a + b).skip(2) =~= a.skip(2) + b);
        assert(hex_parse(a + b) =~= hex_parse(a) + hex_parse(b));
    }
}

/// Encoding then parsing gives the bytes back, and the encoding is always a
/// well-formed storage text.
pub proof fn lemma_hex_round_trip(bytes: Seq<u8>)
    ensures
        is_hex_text(hex_text(bytes)),
        hex_parse(hex_text(bytes)) == bytes,
    decreases bytes.len(),
{
    if bytes.len() == 0 {
        assert(hex_parse(hex_text(bytes)) =~= bytes);
    } else {
        let t = hex_text(bytes);
        lemma_hex_round_trip(bytes.drop_first());
        assert(t.skip(2) =~= hex_text(bytes.drop_first()));
        assert(hex_parse(t) =~= bytes) by {
            assert(hex_val(t[0]) == bytes[0] / 16 && hex_val(t[1]) == bytes[0] % 16);
        }
    }
}

/// Parsing then re-encoding a well-formed storage text gives the text back:
/// the lowercase hex form of a byte sequence is canonical.
pub proof fn lemma_hex_text_canonical(s: Seq<u8>)
    requires
        is_hex_text(s),
    ensures
        hex_text(hex_parse(s)) == s,
    decreases s.len(),
{
    if s.len() == 0 {
        assert(hex_text(hex_parse(s)) =~= s);
    } else {
        let b = hex_parse(s);
        assert(is_hex_digit(s[0]) && is_hex_digit(s[1]));
        assert(b[0] == hex_val(s[0]) * 16 + hex_val(s[1]));
        assert(hex_digit(b[0] / 16) == s[0] && hex_digit(b[0] % 16) == s[1]);
        assert(is_hex_text(s.skip(2))) by {
            assert(forall|i: int| 0 <= i < s.skip(2).len() ==> s.skip(2)[i] == s[i + 2]);
        }
        lemma_hex_text_canonical(s.skip(2));
        assert(b.drop_first() =~= hex_parse(s.skip(2)));
        assert(hex_text(b) =~= s);
    }
}

/// Encode ciphertext bytes as the lowercase hex text they are stored as.
pub fn to_storage_text(bytes: &Vec<u8>) -> (r: Vec<u8>)
    ensures
        r@ == hex_text(bytes@),
{
    let mut out: Vec<u8> = Vec::new();
    let mut i: usize = 0;
    while i < bytes.len()
        invariant
            i <= bytes@.len(),
            out@ == hex_text(bytes@.take(i as int)),
        decreases bytes@.len() - i,
    {
        let b = bytes[i];
        out.push(hex_digit_byte(b / 16));
        out.push(hex_digit_byte(b % 16));
        proof {
            lemma_hex_text_concat(bytes@.take(i as int), seq![bytes@[i as int]]);
            assert(bytes@.take(i + 1) =~= bytes@.take(i as int) + seq![bytes@[i as int]]);
            reveal_with_fuel(hex_text, 2);
            assert(seq![bytes@[i as int]].drop_first() =~= Seq::<u8>::empty());
            assert(hex_text(seq![bytes@[i as int]]) =~= seq![
                hex_digit(bytes@[i as int] / 16),
                hex_digit(bytes@[i as int] % 16),
            ]);
            assert(out@ =~= hex_text(bytes@.take(i + 1)));
        }
        i += 1;
    }
    proof {
        assert(bytes@.take(bytes@.len() as int) =~= bytes@);
    }
    out
}

fn hex_digit_byte(v: u8) -> (r: u8)
    requires
        v < 16,
    ensures
        r == hex_digit(v),
{
    if v < 10 {
        48 + v
    } else {
        87 + v
    }
}

fn is_hex_digit_byte(c: u8) -> (r: bool)
    ensures
        r == is_hex_digit(c),
{
    (48 <= c && c <= 57) || (97 <= c && c <= 102)
}

/// Decide whether a byte sequence is a well-formed storage text.
pub fn check_hex_text(text: &Vec<u8>) -> (r: bool)
    ensures
        r == is_hex_text(text@),
{
    if text.len() % 2 != 0 {
        return false;
    }
    let mut i: usize = 0;
    while i < text.len()
        invariant
            i <= text@.len(),
            forall|j: int| 0 <= j < i ==> is_hex_digit(#[trigger] text@[j]),
        decreases text@.len() - i,
    {
        if !is_hex_digit_byte(text[i]) {
            return false;
        }
        i += 1;
    }
    true
}

/// The byte length a record serializes to.
pub fn serialize_len(record: &EntryRecord) -> (r: usize)
    ensures
        r == encode_utf8(serialize_chars(record.username@, record.password@)).len(),
{
    let s = serialize(record);
    let b = s.as_str().as_bytes_vec();
    b.len()
}

/// Decode a storage text back to ciphertext bytes.
///
/// Fails with `MalformedEncoding` exactly when the text is not even-length
/// lowercase hex.
pub fn from_storage_text(text: &Vec<u8>) -> (r: Result<Vec<u8>, VaultError>)
    ensures
        r matches Ok(b) ==> is_hex_text(text@) && b@ == hex_parse(text@),
        is_hex_text(text@) ==> r is Ok,
        r is Err ==> r == Err::<Vec<u8>, VaultError>(VaultError::MalformedEncoding),
{
    if text.len() % 2 != 0 {
        return Err(VaultError::MalformedEncoding);
    }
    let mut out: Vec<u8> = Vec::new();
    let mut i: usize = 0;
    while i < text.len()
        invariant
            i <= text@.len(),
            i % 2 == 0,
            text@.len() % 2 == 0,
            forall|j: int| 0 <= j < i ==> is_hex_digit(#[trigger] text@[j]),
            out@ == hex_parse(text@.take(i as int)),
        decreases text@.len() - i,
    {
        let hi = text[i];
        let lo = text[i + 1];
        if !is_hex_digit_byte(hi) || !is_hex_digit_byte(lo) {
            return Err(VaultError::MalformedEncoding);
        }
        out.push(hex_val_byte(hi) * 16 + hex_val_byte(lo));
        proof {
            lemma_hex_parse_concat(text@.take(i as int), seq![text@[i as int], text@[i + 1]]);
            assert(text@.take(i + 2) =~= text@.take(i as int) + seq![
                text@[i as int],
                text@[i + 1],
            ]);
            reveal_with_fuel(hex_parse, 2);
            assert(seq![text@[i as int], text@[i + 1]].skip(2) =~= Seq::<u8>::empty());
            assert(hex_parse(seq![text@[i as int], text@[i + 1]]) =~= seq![
                (hex_val(text@[i as int]) * 16 + hex_val(text@[i + 1])) as u8,
            ]);
            assert(out@ =~= hex_parse(text@.take(i + 2)));
        }
        i += 2;
    }
    proof {
        assert(text@.take(text@.len() as int) =~= text@);
    }
    Ok(out)
}

fn hex_val_byte(c: u8) -> (r: u8)
    requires
        is_hex_digit(c),
    ensures
        r == hex_val(c),
        r < 16,
{
    if c <= 57 {
        c - 48
    } else {
        c - 87
    }
}

} // verus!
