//! Digests and hexadecimal text, and the JSON text of plain values.
use vstd::prelude::*;
use sha2::{Digest, Sha256};

verus! {

/// The SHA-256 digest of `data`.
pub uninterp spec fn sha256_of(data: Seq<u8>) -> Seq<u8>;

/// `sha2::Sha256::digest`: the SHA-256 digest of `data`, 32 bytes long.
#[verifier::external_body]
pub fn sha256(data: &[u8]) -> (r: Vec<u8>)
    ensures
        r@ == sha256_of(data@),
        r@.len() == 32,
{
    Sha256::digest(data).to_vec()
}

/// How JSON writes one character inside a string: `"` and `\` escaped,
/// the control characters below U+0020 as `\b \t \n \f \r` or
/// `\u00XX` (lowercase hexadecimal), every other character as it is.
pub open spec fn json_char(c: char) -> Seq<char> {
    let u = c as u32;
    if c == '"' {
        seq!['\\', '"']
    } else if c == '\\' {
        seq!['\\', '\\']
    } else if u == 8 {
        seq!['\\', 'b']
    } else if u == 9 {
        seq!['\\', 't']
    } else if u == 10 {
        seq!['\\', 'n']
    } else if u == 12 {
        seq!['\\', 'f']
    } else if u == 13 {
        seq!['\\', 'r']
    } else if u < 32 {
        seq!['\\', 'u', '0', '0', hex_digit((u / 16) as u8), hex_digit((u % 16) as u8)]
    } else {
        seq![c]
    }
}

/// The characters of `s`, each written as JSON writes it inside a string.
pub open spec fn json_chars(s: Seq<char>) -> Seq<char>
    decreases s.len(),
{
    if s.len() == 0 {
        Seq::empty()
    } else {
        json_chars(s.drop_last()) + json_char(s.last())
    }
}

/// The compact JSON text of one string: quoted and escaped.
pub open spec fn json_string_text(s: Seq<char>) -> Seq<char> {
    seq!['"'] + json_chars(s) + seq!['"']
}

/// The JSON texts of strings, separated by commas.
pub open spec fn json_items(items: Seq<Seq<char>>) -> Seq<char>
    decreases items.len(),
{
    if items.len() == 0 {
        Seq::empty()
    } else if items.len() == 1 {
        json_string_text(items[0])
    } else {
        json_items(items.drop_last()) + seq![','] + json_string_text(items.last())
    }
}

/// The compact JSON text of a list of strings: `[`, the items separated by
/// commas, `]`.
pub open spec fn json_list_text(items: Seq<Seq<char>>) -> Seq<char> {
    seq!['['] + json_items(items) + seq![']']
}

/// `serde_json::to_string` on a list of strings: the compact JSON text of
/// the list, as `json_list_text` writes it out (the compact formatter writes
/// `[`, `,` between items and `]`, and escapes strings by its escape table). The source serializes into an in-memory buffer, and neither a
/// string nor a sequence of strings gives it a reason to fail, so no error is
/// handed on; the empty text stands in for one.
#[verifier::external_body]
pub fn json_list(items: &Vec<String>) -> (r: String)
    ensures
        r@ == json_list_text(items.deep_view()),
{
    match serde_json::to_string(items) {
        Ok(t) => t,
        Err(_) => String::new(),
    }
}

/// `serde_json::to_string` on one string: its JSON text, the string quoted
/// and escaped as `json_string_text` writes it out. The source writes a string to an in-memory buffer, which
/// cannot fail, so no error is handed on; the empty text stands in for one.
#[verifier::external_body]
pub fn json_string(s: &str) -> (r: String)
    ensures
        r@ == json_string_text(s@),
{
    match serde_json::to_string(s) {
        Ok(t) => t,
        Err(_) => String::new(),
    }
}

/// The lowercase hexadecimal digit for `n` (below 16).
pub open spec fn hex_digit(n: u8) -> char {
    if n < 10 {
        (n + 48) as char
    } else {
        (n + 87) as char
    }
}

/// Two lowercase hexadecimal digits per byte.
pub open spec fn hex_text(bytes: Seq<u8>) -> Seq<char>
    decreases bytes.len(),
{
    if bytes.len() == 0 {
        Seq::empty()
    } else {
        hex_text(bytes.drop_last()) + seq![hex_digit(bytes.last() / 16), hex_digit(bytes.last() % 16)]
    }
}

fn digit(n: u8) -> (r: char)
    requires
        n < 16,
    ensures
        r == hex_digit(n),
{
    if n < 10 {
        (n + 48) as char
    } else {
        (n + 87) as char
    }
}

/// Lowercase hexadecimal text of `x`.
pub fn hex(x: &[u8]) -> (r: String)
    ensures
        r@ == hex_text(x@),
{
    let mut r = String::new();
    let mut i: usize = 0;
    while i < x.len()
        invariant
            i <= x.len(),
            r@ == hex_text(x@.take(i as int)),
        decreases x.len() - i,
    {
        let b = x[i];
        assert(x@.take(i + 1).drop_last() =~= x@.take(i as int));
        r.push(digit(b / 16));
        r.push(digit(b % 16));
        i = i + 1;
        assert(r@ =~= hex_text(x@.take(i as int)));
    }
    assert(x@.take(x.len() as int) =~= x@);
    r
}

/// Hexadecimal text has two lowercase hexadecimal digits per byte, the
/// high half first.
pub proof fn law_hex_digits(bytes: Seq<u8>, i: int)
    requires
        0 <= i < bytes.len(),
    ensures
        hex_text(bytes).len() == 2 * bytes.len(),
        hex_text(bytes)[2 * i] == hex_digit(bytes[i] / 16),
        hex_text(bytes)[2 * i + 1] == hex_digit(bytes[i] % 16),
    decreases bytes.len(),
{
    lemma_hex_len(bytes);
    let d = bytes.drop_last();
    lemma_hex_len(d);
    if i < bytes.len() - 1 {
        assert(d[i] == bytes[i]);
        law_hex_digits(d, i);
    }
}

proof fn lemma_hex_len(bytes: Seq<u8>)
    ensures
        hex_text(bytes).len() == 2 * bytes.len(),
    decreases bytes.len(),
{
    if bytes.len() > 0 {
        lemma_hex_len(bytes.drop_last());
    }
}

/// A lowercase hexadecimal digit: `0`-`9` then `a`-`f`.
pub proof fn law_hex_digit(n: u8)
    requires
        n < 16,
    ensures
        n < 10 ==> hex_digit(n) as u32 == 48 + n,
        n >= 10 ==> hex_digit(n) as u32 == 87 + n,
{
}

/// The hexadecimal SHA-256 of a text's UTF-8 bytes.
pub open spec fn text_digest(t: Seq<char>) -> Seq<char> {
    hex_text(sha256_of(vstd::utf8::encode_utf8(t)))
}

/// The lowercase hexadecimal SHA-256 of a text's UTF-8 bytes.
pub fn sha256_hex(t: &str) -> (r: String)
    ensures
        r@ == text_digest(t@),
{
    let d = sha256(t.as_bytes());
    hex(d.as_slice())
}

} // verus!
