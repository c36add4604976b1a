//! Bulk export and import of the whole vault.
//!
//! The archive text is the entries in vault order, each as two lines: the
//! name, then the stored hex text, both newline-terminated. Entries are not
//! decrypted on the way out or in — the archive carries the ciphertext
//! texts verbatim, so the same master passphrase opens them after an
//! import. The text is compressed before it leaves and decompressed when it
//! comes back.

use std::io::{Read, Write};

use vstd::prelude::*;
use vstd::slice::{slice_subrange, slice_to_vec};
use vstd::string::*;
use vstd::utf8::*;

use crate::codec::{bytes_to_string, check_hex_text, is_hex_digit, is_hex_text};
use crate::errors::VaultError;
use crate::vault::{entry_ok, has_name, unique_names, upsert, StoredEntry, Vault};

verus! {

/// The index of the first occurrence of a byte, or the sequence's length
/// when it does not occur.
pub open spec fn find_byte(b: Seq<u8>, v: u8) -> int
    decreases b.len(),
{
    if b.len() == 0 {
        0
    } else if b[0] == v {
        0
    } else {
        1 + find_byte(b.drop_first(), v)
    }
}

/// `find_byte` returns the first occurrence, or the length.
pub proof fn lemma_find_byte_props(b: Seq<u8>, v: u8)
    ensures
        0 <= find_byte(b, v) <= b.len(),
        forall|k: int| 0 <= k < find_byte(b, v) ==> b[k] != v,
        find_byte(b, v) < b.len() ==> b[find_byte(b, v)] == v,
    decreases b.len(),
{
    if b.len() == 0 {
    } else if b[0] == v {
    } else {
        lemma_find_byte_props(b.drop_first(), v);
        assert(forall|k: int| 0 <= k < b.drop_first().len() ==> b.drop_first()[k] == b[k + 1]);
        assert forall|k: int| 0 <= k < find_byte(b, v) implies b[k] != v by {
            if k > 0 {
                assert(b.drop_first()[k - 1] != v);
            }
        }
    }
}

/// A position before which the byte is absent, and at which it stands (or
/// the end), is `find_byte`'s result.
pub proof fn lemma_find_byte_eq(b: Seq<u8>, v: u8, m: int)
    requires
        0 <= m <= b.len(),
        forall|k: int| 0 <= k < m ==> b[k] != v,
        m < b.len() ==> b[m] == v,
    ensures
        find_byte(b, v) == m,
    decreases b.len(),
{
    if b.len() == 0 {
    } else if b[0] == v {
        assert(m == 0);
    } else {
        assert(m > 0) by {
            assert(m < b.len() ==> b[m] == v);
        }
        assert(forall|k: int| 0 <= k < b.drop_first().len() ==> b.drop_first()[k] == b[k + 1]);
        lemma_find_byte_eq(b.drop_first(), v, m - 1);
    }
}

/// The lines of a byte text: split at each newline, one final unterminated
/// chunk counting as a line, a trailing newline adding none.
pub open spec fn split_lines(b: Seq<u8>) -> Seq<Seq<u8>>
    decreases b.len(),
{
    if b.len() == 0 {
        Seq::empty()
    } else {
        let j = find_byte(b, 10);
        if 0 <= j && j + 1 <= b.len() {
            seq![b.take(j)] + split_lines(b.skip(j + 1))
        } else {
            seq![b]
        }
    }
}

/// No line of a split holds a newline.
pub proof fn lemma_split_lines_no_lf(b: Seq<u8>)
    ensures
        forall|i: int| 0 <= i < split_lines(b).len() ==> !(#[trigger] split_lines(b)[i]).contains(
            10u8,
        ),
    decreases b.len(),
{
    if b.len() == 0 {
    } else {
        lemma_find_byte_props(b, 10);
        let j = find_byte(b, 10);
        if j + 1 <= b.len() {
            lemma_split_lines_no_lf(b.skip(j + 1));
            assert forall|i: int| 0 <= i < split_lines(b).len() implies !(
            #[trigger] split_lines(b)[i]).contains(10u8) by {
                if i == 0 {
                    assert(split_lines(b)[0] == b.take(j));
                    assert(forall|k: int| 0 <= k < j ==> b.take(j)[k] == b[k] && b[k] != 10u8);
                    assert(!b.take(j).contains(10u8));
                } else {
                    assert(split_lines(b)[i] == split_lines(b.skip(j + 1))[i - 1]);
                }
            }
        } else {
            assert(j == b.len());
            assert(forall|k: int| 0 <= k < b.len() ==> b[k] != 10u8);
            assert(!b.contains(10u8));
            assert(split_lines(b) == seq![b]);
        }
    }
}

/// Splitting distributes over concatenation when the first part is empty or
/// newline-terminated.
pub proof fn lemma_split_lines_concat(a: Seq<u8>, b: Seq<u8>)
    requires
        a.len() == 0 || a[a.len() - 1] == 10u8,
    ensures
        split_lines(a + b) == split_lines(a) + split_lines(b),
    decreases a.len(),
{
    if a.len() == 0 {
        assert(a + b =~= b);
        assert(split_lines(a) + split_lines(b) =~= split_lines(b));
    } else {
        lemma_find_byte_props(a, 10);
        let j = find_byte(a, 10);
        assert(j < a.len()) by {
            if j == a.len() {
                assert(a[a.len() - 1] != 10u8);
            }
        }
        lemma_find_byte_eq(a + b, 10, j);
        assert((a + b).take(j) =~= a.take(j));
        assert((a + b).skip(j + 1) =~= a.skip(j + 1) + b);
        let rest = a.skip(j + 1);
        assert(rest.len() == 0 || rest[rest.len() - 1] == 10u8) by {
            if rest.len() > 0 {
                assert(rest[rest.len() - 1] == a[a.len() - 1]);
            }
        }
        lemma_split_lines_concat(rest, b);
        if a.len() < (a + b).len() {
            assert(split_lines(a + b) =~= split_lines(a) + split_lines(b));
        } else {
            assert(a + b =~= a);
            assert(split_lines(b) =~= Seq::<Seq<u8>>::empty());
            assert(split_lines(a + b) =~= split_lines(a) + split_lines(b));
        }
    }
}

/// The archive lines of one entry: its name, a newline, its stored text, a
/// newline.
pub open spec fn render_pair(name: Seq<char>, text: Seq<u8>) -> Seq<u8> {
    encode_utf8(name) + seq![10u8] + text + seq![10u8]
}

/// The whole archive text: every entry's line pair, in vault order.
pub open spec fn render_archive(s: Seq<(Seq<char>, Seq<u8>)>) -> Seq<u8>
    decreases s.len(),
{
    if s.len() == 0 {
        Seq::empty()
    } else {
        render_pair(s[0].0, s[0].1) + render_archive(s.drop_first())
    }
}

/// Rendering distributes over concatenation.
pub proof fn lemma_render_archive_concat(a: Seq<(Seq<char>, Seq<u8>)>, b: Seq<(Seq<char>, Seq<u8>)>)
    ensures
        render_archive(a + b) == render_archive(a) + render_archive(b),
    decreases a.len(),
{
    if a.len() == 0 {
        assert(a + b =~= b);
        assert(render_archive(a) + render_archive(b) =~= render_archive(b));
    } else {
        lemma_render_archive_concat(a.drop_first(), b);
        assert((a + b).drop_first() =~= a.drop_first() + b);
        assert(render_archive(a + b) =~= render_archive(a) + render_archive(b));
    }
}

/// The line pairs of an archive, each a decoded name and a stored text;
/// nothing when the line count is odd, a name line is not non-empty UTF-8,
/// or a text line is not hex.
pub open spec fn line_pairs(lines: Seq<Seq<u8>>) -> Option<Seq<(Seq<char>, Seq<u8>)>>
    decreases lines.len(),
{
    if lines.len() == 0 {
        Some(Seq::empty())
    } else if lines.len() == 1 {
        None
    } else if valid_utf8(lines[0]) && decode_utf8(lines[0]).len() > 0 && is_hex_text(lines[1]) {
        match line_pairs(lines.skip(2)) {
            Some(rest) => Some(seq![(decode_utf8(lines[0]), lines[1])] + rest),
            None => None,
        }
    } else {
        None
    }
}

/// What an archive byte text stands for, if it is well formed.
pub open spec fn parse_archive(b: Seq<u8>) -> Option<Seq<(Seq<char>, Seq<u8>)>> {
    line_pairs(split_lines(b))
}

/// The vault content after storing each pair in turn, later pairs
/// overwriting earlier ones and existing entries alike.
pub open spec fn apply_imports(
    v: Seq<(Seq<char>, Seq<u8>)>,
    pairs: Seq<(Seq<char>, Seq<u8>)>,
) -> Seq<(Seq<char>, Seq<u8>)>
    decreases pairs.len(),
{
    if pairs.len() == 0 {
        v
    } else {
        apply_imports(upsert(v, pairs[0].0, pairs[0].1), pairs.drop_first())
    }
}

spec fn opt_prepend(
    pre: Seq<(Seq<char>, Seq<u8>)>,
    o: Option<Seq<(Seq<char>, Seq<u8>)>>,
) -> Option<Seq<(Seq<char>, Seq<u8>)>> {
    match o {
        Some(rest) => Some(pre + rest),
        None => None,
    }
}

/// An odd number of lines is never a well-formed archive.
proof fn lemma_line_pairs_odd(lines: Seq<Seq<u8>>)
    requires
        lines.len() % 2 == 1,
    ensures
        line_pairs(lines) is None,
    decreases lines.len(),
{
    if lines.len() == 1 {
    } else {
        lemma_line_pairs_odd(lines.skip(2));
    }
}

/// A character sequence encodes to bytes with a newline exactly when it
/// holds one.
pub proof fn lemma_encode_utf8_lf(chars: Seq<char>)
    ensures
        encode_utf8(chars).contains(10u8) <==> chars.contains('\n'),
    decreases chars.len(),
{
    if chars.len() == 0 {
        assert(!encode_utf8(chars).contains(10u8)) by {
            assert(encode_utf8(chars).len() == 0);
        }
        assert(!chars.contains('\n'));
    } else {
        let c = chars[0];
        let rest = chars.drop_first();
        lemma_encode_scalar_lf(c);
        lemma_encode_utf8_lf(rest);
        lemma_contains_concat(encode_scalar(c as u32), encode_utf8(rest), 10u8);
        assert(chars.contains('\n') <==> c == '\n' || rest.contains('\n')) by {
            if chars.contains('\n') {
                let i = choose|i: int| 0 <= i < chars.len() && chars[i] == '\n';
                if i > 0 {
                    assert(rest[i - 1] == '\n');
                    assert(rest.contains('\n'));
                }
            }
            if rest.contains('\n') {
                let i = choose|i: int| 0 <= i < rest.len() && rest[i] == '\n';
                assert(chars[i + 1] == '\n');
            }
            if c == '\n' {
                assert(chars[0] == '\n');
            }
        }
    }
}

/// A member of either part is a member of the concatenation, and the other
/// way round.
proof fn lemma_contains_concat<T>(a: Seq<T>, b: Seq<T>, x: T)
    ensures
        (a + b).contains(x) <==> a.contains(x) || b.contains(x),
{
    if (a + b).contains(x) {
        let i = choose|i: int| 0 <= i < (a + b).len() && (a + b)[i] == x;
        if i < a.len() {
            assert(a[i] == x);
        } else {
            assert(b[i - a.len()] == x);
        }
    }
    if a.contains(x) {
        let i = choose|i: int| 0 <= i < a.len() && a[i] == x;
        assert((a + b)[i] == x);
    }
    if b.contains(x) {
        let i = choose|i: int| 0 <= i < b.len() && b[i] == x;
        assert((a + b)[a.len() + i] == x);
    }
}

/// One character's UTF-8 bytes hold a newline exactly when the character is
/// one: a newline encodes to the byte 10 alone, and every byte of a
/// multi-byte encoding is at least 0x80.
proof fn lemma_encode_scalar_lf(c: char)
    ensures
        encode_scalar(c as u32).contains(10u8) <==> c == '\n',
{
    char_is_scalar(c);
    let s = c as u32;
    let e = encode_scalar(s);
    assert('\n' as u32 == 10);
    if c == '\n' {
        assert(s == 10);
        assert(has_width_1_encoding(s));
        assert(e[0] == (10u32 & 0x7F) as u8);
        assert((10u32 & 0x7F) as u8 == 10u8) by (bit_vector);
        assert(e.contains(10u8));
    } else {
        char_u32_cast(c, s);
        assert(s != 10) by {
            if s == 10 {
                assert((s as char) == c);
                char_u32_cast('\n', 10);
            }
        }
        if has_width_1_encoding(s) {
            assert(((s & 0x7F) as u8) != 10u8) by (bit_vector)
                requires
                    s <= 0x7F,
                    s != 10,
            ;
            assert(forall|k: int| 0 <= k < e.len() ==> e[k] != 10u8);
        } else if has_width_2_encoding(s) {
            assert((0xC0u8 | (((s >> 6) & 0x1F) as u8)) != 10u8) by (bit_vector);
            assert((0x80u8 | ((s & 0x3F) as u8)) != 10u8) by (bit_vector);
            assert(forall|k: int| 0 <= k < e.len() ==> e[k] != 10u8);
        } else if has_width_3_encoding(s) {
            assert((0xE0u8 | (((s >> 12) & 0x0F) as u8)) != 10u8) by (bit_vector);
            assert((0x80u8 | (((s >> 6) & 0x3F) as u8)) != 10u8) by (bit_vector);
            assert((0x80u8 | ((s & 0x3F) as u8)) != 10u8) by (bit_vector);
            assert(forall|k: int| 0 <= k < e.len() ==> e[k] != 10u8);
        } else {
            assert((0xF0u8 | (((s >> 18) & 0x7) as u8)) != 10u8) by (bit_vector);
            assert((0x80u8 | (((s >> 12) & 0x3F) as u8)) != 10u8) by (bit_vector);
            assert((0x80u8 | (((s >> 6) & 0x3F) as u8)) != 10u8) by (bit_vector);
            assert((0x80u8 | ((s & 0x3F) as u8)) != 10u8) by (bit_vector);
            assert(forall|k: int| 0 <= k < e.len() ==> e[k] != 10u8);
        }
        if e.contains(10u8) {
            let k = choose|k: int| 0 <= k < e.len() && e[k] == 10u8;
        }
    }
}

/// A hex text never holds a newline.
proof fn lemma_hex_text_no_lf(t: Seq<u8>)
    requires
        is_hex_text(t),
    ensures
        !t.contains(10u8),
{
    assert forall|k: int| 0 <= k < t.len() implies t[k] != 10u8 by {
        assert(is_hex_digit(t[k]));
    }
}

/// Rendering then parsing gives the entries back: the archive text of
/// well-formed entries is read as exactly those entries, names and stored
/// texts byte for byte.
pub proof fn lemma_archive_round_trip(s: Seq<(Seq<char>, Seq<u8>)>)
    requires
        forall|i: int| 0 <= i < s.len() ==> #[trigger] entry_ok(s[i].0, s[i].1),
    ensures
        parse_archive(render_archive(s)) == Some(s),
    decreases s.len(),
{
    if s.len() == 0 {
        assert(split_lines(render_archive(s)) =~= Seq::<Seq<u8>>::empty());
        assert(parse_archive(render_archive(s)) == Some(Seq::<(Seq<char>, Seq<u8>)>::empty()));
        assert(Seq::<(Seq<char>, Seq<u8>)>::empty() =~= s);
    } else {
        let name = s[0].0;
        let text = s[0].1;
        assert(entry_ok(name, text));
        let nb = encode_utf8(name);
        let pair = render_pair(name, text);
        let rest = render_archive(s.drop_first());

        // The one pair splits into exactly its two lines.
        lemma_encode_utf8_lf(name);
        assert(!nb.contains(10u8));
        lemma_hex_text_no_lf(text);
        assert(forall|k: int| 0 <= k < nb.len() ==> pair[k] == nb[k]);
        assert(pair[nb.len() as int] == 10u8);
        lemma_find_byte_eq(pair, 10, nb.len() as int);
        assert(pair.take(nb.len() as int) =~= nb);
        let tail = pair.skip(nb.len() as int + 1);
        assert(tail =~= text + seq![10u8]);
        assert(forall|k: int| 0 <= k < text.len() ==> tail[k] == text[k]);
        assert(tail[text.len() as int] == 10u8);
        lemma_find_byte_eq(tail, 10, text.len() as int);
        assert(tail.take(text.len() as int) =~= text);
        assert(tail.skip(text.len() as int + 1) =~= Seq::<u8>::empty());
        assert(split_lines(tail) =~= seq![text]) by {
            assert(split_lines(tail.skip(text.len() as int + 1)) =~= Seq::<Seq<u8>>::empty());
        }
        assert(split_lines(pair) =~= seq![nb, text]);

        // The whole text splits into this pair's lines, then the rest's.
        assert(pair.len() > 0 && pair[pair.len() - 1] == 10u8);
        lemma_split_lines_concat(pair, rest);
        assert(render_archive(s) == pair + rest) by {
            assert(render_archive(s) =~= pair + rest);
        }
        let lines = split_lines(render_archive(s));
        assert(lines =~= seq![nb, text] + split_lines(rest));

        // The head pair is read back as (name, text); the rest by induction.
        encode_utf8_valid_utf8(name);
        encode_utf8_decode_utf8(name);
        assert(decode_utf8(nb) == name);
        assert(forall|i: int|
            0 <= i < s.drop_first().len() ==> #[trigger] entry_ok(
                s.drop_first()[i].0,
                s.drop_first()[i].1,
            ));
        lemma_archive_round_trip(s.drop_first());
        assert(lines.skip(2) =~= split_lines(rest));
        assert(line_pairs(lines) == Some(seq![(name, text)] + s.drop_first()));
        assert(seq![(name, text)] + s.drop_first() =~= s);
    }
}

/// Importing well-formed pairs into a vault that shares no name with them
/// appends them unchanged; into an empty vault, it reproduces them exactly.
pub proof fn lemma_apply_imports_disjoint(
    v: Seq<(Seq<char>, Seq<u8>)>,
    pairs: Seq<(Seq<char>, Seq<u8>)>,
)
    requires
        unique_names(pairs),
        forall|i: int| 0 <= i < pairs.len() ==> !has_name(v, #[trigger] pairs[i].0),
    ensures
        apply_imports(v, pairs) == v + pairs,
    decreases pairs.len(),
{
    if pairs.len() == 0 {
        assert(v + pairs =~= v);
    } else {
        let p0 = pairs[0];
        assert(!has_name(v, p0.0));
        assert(upsert(v, p0.0, p0.1) == v.push(p0));
        let v1 = v.push(p0);
        let rest = pairs.drop_first();
        assert forall|i: int| 0 <= i < rest.len() implies !has_name(v1, #[trigger] rest[i].0) by {
            assert(rest[i] == pairs[i + 1]);
            assert(pairs[0].0 != pairs[i + 1].0);
            assert(!has_name(v, pairs[i + 1].0));
            if has_name(v1, rest[i].0) {
                let k = choose|k: int| 0 <= k < v1.len() && v1[k].0 == rest[i].0;
                if k < v.len() {
                    assert(v[k].0 == rest[i].0);
                }
            }
        }
        assert(forall|i: int, j: int| 0 <= i < j < rest.len() ==> rest[i].0 != rest[j].0) by {
            assert(forall|i: int| 0 <= i < rest.len() ==> rest[i] == pairs[i + 1]);
        }
        lemma_apply_imports_disjoint(v1, rest);
        assert(apply_imports(v, pairs) == v1 + rest);
        assert(v1 + rest =~= v + pairs);
    }
}

/// The blob form of a byte text under this module's compressor, named but
/// not defined here: with the parameters fixed below it depends on the
/// input bytes alone.
pub uninterp spec fn compressed_form(data: Seq<u8>) -> Seq<u8>;

/// Relies on `brotli::CompressorWriter`: with buffer size, quality and
/// window fixed, the stream it writes is a function of the input bytes
/// alone, and writing to a growable buffer cannot fail.
#[verifier::external_body]
fn compress(data: &Vec<u8>) -> (r: Vec<u8>)
    ensures
        r@ == compressed_form(data@),
{
    let mut w = brotli::CompressorWriter::new(Vec::new(), 4096, 11, 22);
    w.write_all(data.as_slice()).expect("writing to a buffer cannot fail");
    w.into_inner()
}

/// Relies on `brotli::Decompressor`: it is lossless — fed a stream the
/// compressor produced, it returns exactly the bytes that were compressed,
/// and it only fails on data the compressor cannot have produced.
#[verifier::external_body]
fn decompress(data: &Vec<u8>) -> (r: Option<Vec<u8>>)
    ensures
        r is None ==> forall|d: Seq<u8>| data@ != #[trigger] compressed_form(d),
        r matches Some(x) ==> forall|d: Seq<u8>|
            data@ == #[trigger] compressed_form(d) ==> x@ == d,
{
    let mut out: Vec<u8> = Vec::new();
    let mut reader = brotli::Decompressor::new(data.as_slice(), 4096);
    match reader.read_to_end(&mut out) {
        Ok(_) => Some(out),
        Err(_) => None,
    }
}

/// Serialize the whole vault to its compressed archive blob. Entries go out
/// exactly as stored — still encrypted — in vault order.
pub fn export_all(vault: &Vault) -> (r: Vec<u8>)
    ensures
        r@ == compressed_form(render_archive(vault@)),
{
    let mut data: Vec<u8> = Vec::new();
    let n = vault.len();
    let mut i: usize = 0;
    while i < n
        invariant
            n == vault@.len(),
            i <= n,
            data@ == render_archive(vault@.take(i as int)),
        decreases n - i,
    {
        let e = vault.entry_at(i);
        let mut nb = e.name.as_str().as_bytes_vec();
        data.append(&mut nb);
        data.push(10);
        let mut tx = slice_to_vec(e.text.as_slice());
        data.append(&mut tx);
        data.push(10);
        proof {
            lemma_render_archive_concat(vault@.take(i as int), seq![vault@[i as int]]);
            assert(vault@.take(i + 1) =~= vault@.take(i as int) + seq![vault@[i as int]]);
            assert(seq![vault@[i as int]].drop_first() =~= Seq::<(Seq<char>, Seq<u8>)>::empty());
            reveal_with_fuel(render_archive, 2);
            assert(render_archive(seq![vault@[i as int]]) =~= render_pair(
                vault@[i as int].0,
                vault@[i as int].1,
            ));
            assert(data@ =~= render_archive(vault@.take(i + 1)));
        }
        i += 1;
    }
    proof {
        assert(vault@.take(vault@.len() as int) =~= vault@);
    }
    compress(&data)
}

fn split_into_lines(data: &Vec<u8>) -> (r: Vec<Vec<u8>>)
    ensures
        r@.map_values(|l: Vec<u8>| l@) == split_lines(data@),
{
    let mut lines: Vec<Vec<u8>> = Vec::new();
    let mut pos: usize = 0;
    proof {
        assert(data@.skip(0) =~= data@);
        assert(lines@.map_values(|l: Vec<u8>| l@) + split_lines(data@) =~= split_lines(data@));
    }
    while pos < data.len()
        invariant
            pos <= data@.len(),
            split_lines(data@) == lines@.map_values(|l: Vec<u8>| l@) + split_lines(
                data@.skip(pos as int),
            ),
        decreases data@.len() - pos,
    {
        let ghost lines0 = lines@;
        let ghost pos0 = pos as int;
        let mut j = pos;
        while j < data.len() && data[j] != 10
            invariant
                pos <= j <= data@.len(),
                forall|k: int| pos <= k < j ==> data@[k] != 10u8,
            decreases data@.len() - j,
        {
            j += 1;
        }
        let line = slice_to_vec(slice_subrange(data.as_slice(), pos, j));
        lines.push(line);
        if j < data.len() {
            pos = j + 1;
        } else {
            pos = j;
        }
        proof {
            let sub = data@.skip(pos0);
            assert(forall|k: int| 0 <= k < sub.len() ==> sub[k] == data@[pos0 + k]);
            lemma_find_byte_eq(sub, 10, j - pos0);
            assert(sub.take(j - pos0) =~= data@.subrange(pos0, j as int));
            if (j as int) < data@.len() {
                assert(sub.skip(j - pos0 + 1) =~= data@.skip(j + 1));
                assert(split_lines(sub) == seq![sub.take(j - pos0)] + split_lines(
                    data@.skip(pos as int),
                ));
            } else {
                assert(split_lines(sub) == seq![sub]);
                assert(sub =~= sub.take(j - pos0));
                assert(data@.skip(pos as int).len() == 0);
                assert(split_lines(data@.skip(pos as int)) =~= Seq::<Seq<u8>>::empty());
                assert(split_lines(sub) == seq![sub.take(j - pos0)] + split_lines(
                    data@.skip(pos as int),
                ));
            }
            assert(lines@.map_values(|l: Vec<u8>| l@) =~= lines0.map_values(|l: Vec<u8>| l@)
                + seq![sub.take(j - pos0)]);
            assert(lines@.map_values(|l: Vec<u8>| l@) + split_lines(data@.skip(pos as int)) =~= (
            lines0.map_values(|l: Vec<u8>| l@) + seq![sub.take(j - pos0)]) + split_lines(
                data@.skip(pos as int),
            ));
            assert(split_lines(data@) == lines@.map_values(|l: Vec<u8>| l@) + split_lines(
                data@.skip(pos as int),
            ));
        }
    }
    proof {
        assert(split_lines(data@.skip(pos as int)) =~= Seq::<Seq<u8>>::empty());
        assert(lines@.map_values(|l: Vec<u8>| l@) + split_lines(data@.skip(pos as int))
            =~= lines@.map_values(|l: Vec<u8>| l@));
    }
    lines
}

fn parse_archive_bytes(data: &Vec<u8>) -> (r: Result<Vec<StoredEntry>, VaultError>)
    ensures
        r matches Ok(es) ==> {
            &&& parse_archive(data@) == Some(es@.map_values(|e: StoredEntry| (e.name@, e.text@)))
            &&& forall|i: int|
                0 <= i < es@.len() ==> entry_ok(
                    #[trigger] es@[i].name@,
                    es@[i].text@,
                )
        },
        r is Err ==> parse_archive(data@) is None && r == Err::<Vec<StoredEntry>, VaultError>(
            VaultError::MalformedArchive,
        ),
{
    let lines = split_into_lines(data);
    let ghost lseq = lines@.map_values(|l: Vec<u8>| l@);
    proof {
        lemma_split_lines_no_lf(data@);
    }
    if lines.len() % 2 != 0 {
        proof {
            lemma_line_pairs_odd(lseq);
        }
        return Err(VaultError::MalformedArchive);
    }
    let mut out: Vec<StoredEntry> = Vec::new();
    let mut k: usize = 0;
    proof {
        assert(lseq.skip(0) =~= lseq);
        match line_pairs(lseq) {
            Some(ps) => {
                assert(out@.map_values(|e: StoredEntry| (e.name@, e.text@)) + ps =~= ps);
            },
            None => {},
        }
    }
    while k < lines.len()
        invariant
            k <= lines@.len(),
            k % 2 == 0,
            lines@.len() % 2 == 0,
            lseq == lines@.map_values(|l: Vec<u8>| l@),
            lseq == split_lines(data@),
            forall|i: int| 0 <= i < lseq.len() ==> !(#[trigger] lseq[i]).contains(10u8),
            line_pairs(lseq) == opt_prepend(
                out@.map_values(|e: StoredEntry| (e.name@, e.text@)),
                line_pairs(lseq.skip(k as int)),
            ),
            forall|i: int|
                0 <= i < out@.len() ==> entry_ok(#[trigger] out@[i].name@, out@[i].text@),
        decreases lines@.len() - k,
    {
        let ghost out0map = out@.map_values(|e: StoredEntry| (e.name@, e.text@));
        let ghost sub = lseq.skip(k as int);
        proof {
            assert(lseq[k as int] == lines@[k as int]@);
            assert(sub.len() == lseq.len() - k);
            assert(sub.len() != 1);
            assert(sub.len() >= 2);
            assert(sub[0] == lseq[k as int]);
        }
        let name_bytes = slice_to_vec(lines[k].as_slice());
        proof {
            assert(name_bytes@ == sub[0]);
        }
        let name = match bytes_to_string(name_bytes) {
            Some(s) => s,
            None => {
                proof {
                    assert(!valid_utf8(sub[0]));
                    assert(line_pairs(sub) is None);
                }
                return Err(VaultError::MalformedArchive);
            },
        };
        proof {
            encode_utf8_valid_utf8(name@);
            encode_utf8_decode_utf8(name@);
            assert(valid_utf8(sub[0]) && decode_utf8(sub[0]) == name@);
        }
        if name.as_str().is_empty() {
            proof {
                assert(line_pairs(sub) is None);
            }
            return Err(VaultError::MalformedArchive);
        }
        let text = slice_to_vec(lines[k + 1].as_slice());
        proof {
            assert(lseq[k as int + 1] == lines@[k as int + 1]@);
            assert(sub[1] == lseq[k as int + 1]);
            assert(text@ == sub[1]);
        }
        if !check_hex_text(&text) {
            proof {
                assert(line_pairs(sub) is None);
            }
            return Err(VaultError::MalformedArchive);
        }
        proof {
            lemma_encode_utf8_lf(name@);
            assert(!sub[0].contains(10u8));
            assert(!name@.contains('\n'));
        }
        out.push(StoredEntry { name, text });
        proof {
            let newmap = out@.map_values(|e: StoredEntry| (e.name@, e.text@));
            assert(newmap =~= out0map.push((decode_utf8(sub[0]), sub[1])));
            assert(sub.skip(2) =~= lseq.skip(k as int + 2));
            match line_pairs(lseq.skip(k as int + 2)) {
                Some(rest) => {
                    assert(line_pairs(sub) == Some(seq![(decode_utf8(sub[0]), sub[1])] + rest));
                    assert(out0map + (seq![(decode_utf8(sub[0]), sub[1])] + rest) =~= newmap
                        + rest);
                },
                None => {
                    assert(line_pairs(sub) is None);
                },
            }
            assert forall|i: int| 0 <= i < out@.len() implies entry_ok(
                #[trigger] out@[i].name@,
                out@[i].text@,
            ) by {
                if i == out@.len() - 1 {
                    assert(out@[i].name@.len() > 0 && !out@[i].name@.contains('\n')
                        && is_hex_text(out@[i].text@));
                }
            }
        }
        k += 2;
    }
    proof {
        assert(lseq.skip(lseq.len() as int) =~= Seq::<Seq<u8>>::empty());
        assert(line_pairs(lseq) == Some(out@.map_values(|e: StoredEntry| (e.name@, e.text@))));
    }
    Ok(out)
}

/// Read an archive blob back into the vault: decompress, split into line
/// pairs, and store every pair verbatim, overwriting entries that share a
/// name. Returns how many pairs were stored. A blob that does not
/// decompress, an odd line count, an empty or non-UTF-8 name line, or a
/// non-hex text line is `MalformedArchive`, and then nothing is changed.
pub fn import_all(vault: &mut Vault, blob: &Vec<u8>) -> (r: Result<usize, VaultError>)
    requires
        old(vault).wf(),
    ensures
        final(vault).wf(),
        r is Err ==> final(vault)@ == old(vault)@ && r == Err::<usize, VaultError>(
            VaultError::MalformedArchive,
        ),
        forall|d: Seq<u8>|
            blob@ == #[trigger] compressed_form(d) ==> match parse_archive(d) {
                Some(pairs) => r matches Ok(n) && n == pairs.len() && final(vault)@
                    == apply_imports(old(vault)@, pairs),
                None => r == Err::<usize, VaultError>(VaultError::MalformedArchive),
            },
{
    let data = match decompress(blob) {
        Some(d) => d,
        None => {
            return Err(VaultError::MalformedArchive);
        },
    };
    let entries = match parse_archive_bytes(&data) {
        Ok(es) => es,
        Err(e) => {
            return Err(e);
        },
    };
    let ghost pairs = entries@.map_values(|e: StoredEntry| (e.name@, e.text@));
    let count = entries.len();
    let mut k: usize = 0;
    proof {
        assert(pairs.skip(0) =~= pairs);
    }
    while k < entries.len()
        invariant
            k <= entries@.len(),
            vault.wf(),
            pairs == entries@.map_values(|e: StoredEntry| (e.name@, e.text@)),
            forall|i: int|
                0 <= i < entries@.len() ==> entry_ok(
                    #[trigger] entries@[i].name@,
                    entries@[i].text@,
                ),
            apply_imports(old(vault)@, pairs) == apply_imports(vault@, pairs.skip(k as int)),
        decreases entries@.len() - k,
    {
        let ghost vpre = vault@;
        let name = (&entries[k].name).clone();
        let text = slice_to_vec(entries[k].text.as_slice());
        let res = vault.insert_stored(name, text);
        proof {
            assert(entry_ok(entries@[k as int].name@, entries@[k as int].text@));
            assert(res is Ok);
            assert(pairs.skip(k as int)[0] == pairs[k as int]);
            assert(pairs.skip(k as int).drop_first() =~= pairs.skip(k as int + 1));
            assert(apply_imports(vpre, pairs.skip(k as int)) == apply_imports(
                vault@,
                pairs.skip(k as int + 1),
            ));
        }
        if res.is_err() {
            proof {
                assert(false);
            }
            return Err(VaultError::MalformedArchive);
        }
        k += 1;
    }
    proof {
        assert(pairs.skip(pairs.len() as int) =~= Seq::<(Seq<char>, Seq<u8>)>::empty());
    }
    Ok(count)
}

} // verus!
