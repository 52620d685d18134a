//! Base64 (RFC 4648, section 4) and UTF-8, as the signature file uses them.

use vstd::prelude::*;
use vstd::utf8::{decode_utf8, valid_utf8};
use crate::text::is_white_space;

verus! {

/// The symbol of the Base64 alphabet for a six-bit value.
pub open spec fn symbol(v: int) -> char {
    if v < 26 {
        ('A' as int + v) as char
    } else if v < 52 {
        ('a' as int + (v - 26)) as char
    } else if v < 62 {
        ('0' as int + (v - 52)) as char
    } else if v == 62 {
        '+'
    } else {
        '/'
    }
}

/// The Base64 text of a sequence of bytes, padded with `=` to a multiple of
/// four characters.
pub open spec fn base64_text(bytes: Seq<u8>) -> Seq<char>
    decreases bytes.len(),
{
    if bytes.len() == 0 {
        seq![]
    } else {
        let a = bytes[0] as int;
        if bytes.len() == 1 {
            seq![symbol(a / 4), symbol(a % 4 * 16), '=', '=']
        } else {
            let b = bytes[1] as int;
            if bytes.len() == 2 {
                seq![symbol(a / 4), symbol(a % 4 * 16 + b / 16), symbol(b % 16 * 4), '=']
            } else {
                let c = bytes[2] as int;
                seq![
                    symbol(a / 4),
                    symbol(a % 4 * 16 + b / 16),
                    symbol(b % 16 * 4 + c / 64),
                    symbol(c % 64),
                ] + base64_text(bytes.skip(3))
            }
        }
    }
}

/// The bytes that a text is the Base64 of, where it is that of any.
pub open spec fn base64_bytes(text: Seq<char>) -> Option<Seq<u8>> {
    if exists|bytes: Seq<u8>| text == #[trigger] base64_text(bytes) {
        Some(choose|bytes: Seq<u8>| text == #[trigger] base64_text(bytes))
    } else {
        None
    }
}

/// No symbol is white space or the padding sign, and different values have
/// different symbols.
proof fn lemma_symbol(v: int, w: int)
    requires
        0 <= v < 64,
        0 <= w < 64,
    ensures
        symbol(v) != '=',
        !is_white_space(symbol(v)),
        symbol(v) == symbol(w) ==> v == w,
{
}

/// Base64 text holds no white space.
pub proof fn lemma_base64_no_space(bytes: Seq<u8>)
    ensures
        forall|i: int|
            0 <= i < base64_text(bytes).len() ==> !is_white_space(
                #[trigger] base64_text(bytes)[i],
            ),
    decreases bytes.len(),
{
    if bytes.len() >= 3 {
        lemma_base64_no_space(bytes.skip(3));
    }
    let text = base64_text(bytes);
    assert forall|i: int| 0 <= i < text.len() implies !is_white_space(
        #[trigger] text[i],
    ) by {
        if i >= 4 {
            assert(text[i] == base64_text(bytes.skip(3))[i - 4]);
        } else {
            let a = bytes[0] as int;
            let b = if bytes.len() > 1 { bytes[1] as int } else { 0 };
            let c = if bytes.len() > 2 { bytes[2] as int } else { 0 };
            lemma_symbol(a / 4, 0);
            lemma_symbol(a % 4 * 16 + b / 16, 0);
            lemma_symbol(b % 16 * 4 + c / 64, 0);
            lemma_symbol(c % 64, 0);
        }
    }
}

/// Different bytes have different Base64 texts.
pub proof fn lemma_base64_injective(x: Seq<u8>, y: Seq<u8>)
    requires
        base64_text(x) == base64_text(y),
    ensures
        x == y,
    decreases x.len(),
{
    let t = base64_text(x);
    if x.len() == 0 || y.len() == 0 {
        if x.len() == 0 && y.len() > 0 {
            assert(base64_text(y).len() > 0);
        }
        if y.len() == 0 && x.len() > 0 {
            assert(base64_text(x).len() > 0);
        }
        assert(x =~= y);
    } else {
        let a = x[0] as int;
        let p = y[0] as int;
        assert(t[0] == symbol(a / 4) && t[0] == symbol(p / 4));
        lemma_symbol(a / 4, p / 4);
        let b = if x.len() > 1 { x[1] as int } else { 0 };
        let q = if y.len() > 1 { y[1] as int } else { 0 };
        assert(t[1] == symbol(a % 4 * 16 + b / 16) && t[1] == symbol(p % 4 * 16 + q / 16));
        lemma_symbol(a % 4 * 16 + b / 16, p % 4 * 16 + q / 16);
        assert(a == p && b / 16 == q / 16);
        let c = if x.len() > 2 { x[2] as int } else { 0 };
        let r = if y.len() > 2 { y[2] as int } else { 0 };
        lemma_symbol(b % 16 * 4 + c / 64, q % 16 * 4 + r / 64);
        lemma_symbol(c % 64, r % 64);
        if x.len() > 1 {
            assert(t[2] == symbol(b % 16 * 4 + c / 64));
        } else {
            assert(t[2] == '=');
        }
        if y.len() > 1 {
            assert(t[2] == symbol(q % 16 * 4 + r / 64));
        } else {
            assert(t[2] == '=');
        }
        if x.len() > 2 {
            assert(t[3] == symbol(c % 64));
        } else {
            assert(t[3] == '=');
        }
        if y.len() > 2 {
            assert(t[3] == symbol(r % 64));
        } else {
            assert(t[3] == '=');
        }
        if x.len() > 2 {
            assert(t.skip(4) =~= base64_text(x.skip(3)));
            assert(t.skip(4) =~= base64_text(y.skip(3)));
            lemma_base64_injective(x.skip(3), y.skip(3));
            assert forall|i: int| 0 <= i < x.len() implies x[i] == y[i] by {
                if i >= 3 {
                    assert(x[i] == x.skip(3)[i - 3]);
                    assert(y[i] == y.skip(3)[i - 3]);
                }
            }
            assert(x.len() == x.skip(3).len() + 3);
        }
        assert(x =~= y);
    }
}

/// Base64 text stands for the bytes that it was made from.
pub proof fn lemma_base64_bytes(bytes: Seq<u8>)
    ensures
        base64_bytes(base64_text(bytes)) == Some(bytes),
{
    let chosen = choose|b: Seq<u8>| base64_text(bytes) == #[trigger] base64_text(b);
    lemma_base64_injective(bytes, chosen);
}

/// What `base64::DecodeError` says of a text that is not Base64.
pub uninterp spec fn base64_fault(text: Seq<char>) -> Seq<char>;

/// Decodes Base64 with `base64::engine::general_purpose::STANDARD`.
///
/// Not proved here: `Engine::decode` of that engine, which asks for canonical
/// padding and for zeros in the unused bits, succeeds on exactly the texts that
/// are the Base64 of some bytes, and gives those bytes back. On any other text
/// the error's message depends on the text alone.
#[verifier::external_body]
pub(crate) fn decode_base64(text: &str) -> (r: Result<Vec<u8>, String>)
    ensures
        match r {
            Ok(bytes) => text@ == base64_text(bytes@),
            Err(fault) => fault@ == base64_fault(text@) && forall|bytes: Seq<u8>|
                text@ != #[trigger] base64_text(bytes),
        },
{
    base64::Engine::decode(&base64::engine::general_purpose::STANDARD, text).map_err(
        |e| e.to_string(),
    )
}

/// What `std::string::FromUtf8Error` says of bytes that are not UTF-8.
pub uninterp spec fn utf8_fault(bytes: Seq<u8>) -> Seq<char>;

/// Reads bytes as UTF-8 with `String::from_utf8`.
///
/// Not proved here: the call succeeds on exactly the valid UTF-8 sequences, and
/// gives the characters that they encode. On any other bytes the error's
/// message depends on the bytes alone.
#[verifier::external_body]
pub(crate) fn string_from_utf8(bytes: Vec<u8>) -> (r: Result<String, String>)
    ensures
        match r {
            Ok(s) => valid_utf8(bytes@) && s@ == decode_utf8(bytes@),
            Err(fault) => !valid_utf8(bytes@) && fault@ == utf8_fault(bytes@),
        },
{
    String::from_utf8(bytes).map_err(|e| e.to_string())
}

} // verus!
