//! Text: numbers written out, and names stored as bytes.

use vstd::prelude::*;
use vstd::string::StringExecFns;
use vstd::utf8::*;

verus! {

/// The character for a digit below sixteen, in lower case.
pub open spec fn digit_char(digit: nat) -> char {
    if digit == 0 {
        '0'
    } else if digit == 1 {
        '1'
    } else if digit == 2 {
        '2'
    } else if digit == 3 {
        '3'
    } else if digit == 4 {
        '4'
    } else if digit == 5 {
        '5'
    } else if digit == 6 {
        '6'
    } else if digit == 7 {
        '7'
    } else if digit == 8 {
        '8'
    } else if digit == 9 {
        '9'
    } else if digit == 10 {
        'a'
    } else if digit == 11 {
        'b'
    } else if digit == 12 {
        'c'
    } else if digit == 13 {
        'd'
    } else if digit == 14 {
        'e'
    } else {
        'f'
    }
}

/// `n` written in decimal, without leading zeros.
pub open spec fn decimal(n: nat) -> Seq<char>
    decreases n,
{
    if n < 10 {
        seq![digit_char(n)]
    } else {
        decimal(n / 10).push(digit_char(n % 10))
    }
}

/// `n` written in hexadecimal, in lower case and without leading zeros.
pub open spec fn hexadecimal(n: nat) -> Seq<char>
    decreases n,
{
    if n < 16 {
        seq![digit_char(n)]
    } else {
        hexadecimal(n / 16).push(digit_char(n % 16))
    }
}

/// The one-character text of a digit.
fn digit_str(digit: u64) -> (text: &'static str)
    requires
        digit < 16,
    ensures
        text@ == seq![digit_char(digit as nat)],
{
    proof {
        reveal_strlit("0");
        reveal_strlit("1");
        reveal_strlit("2");
        reveal_strlit("3");
        reveal_strlit("4");
        reveal_strlit("5");
        reveal_strlit("6");
        reveal_strlit("7");
        reveal_strlit("8");
        reveal_strlit("9");
        reveal_strlit("a");
        reveal_strlit("b");
        reveal_strlit("c");
        reveal_strlit("d");
        reveal_strlit("e");
        reveal_strlit("f");
    }
    match digit {
        0 => "0",
        1 => "1",
        2 => "2",
        3 => "3",
        4 => "4",
        5 => "5",
        6 => "6",
        7 => "7",
        8 => "8",
        9 => "9",
        10 => "a",
        11 => "b",
        12 => "c",
        13 => "d",
        14 => "e",
        _ => "f",
    }
}

/// Append `n` in decimal to `text`.
pub fn push_decimal(text: &mut String, n: u64)
    ensures
        final(text)@ == old(text)@ + decimal(n as nat),
    decreases n,
{
    if n >= 10 {
        push_decimal(text, n / 10);
    }
    text.append(digit_str(n % 10));
}

/// Append `n` in hexadecimal to `text`.
pub fn push_hexadecimal(text: &mut String, n: u64)
    ensures
        final(text)@ == old(text)@ + hexadecimal(n as nat),
    decreases n,
{
    if n >= 16 {
        push_hexadecimal(text, n / 16);
    }
    text.append(digit_str(n % 16));
}

/// `before`, then `n` in decimal, then `after`.
pub fn with_decimal(before: &str, n: u64, after: &str) -> (text: String)
    ensures
        text@ == before@ + decimal(n as nat) + after@,
{
    let mut text = String::from_str(before);
    push_decimal(&mut text, n);
    text.append(after);
    text
}

/// `std::str::Utf8Error`, carried through as an opaque value.
#[verifier::external_type_specification]
#[verifier::external_body]
pub struct ExUtf8Error(core::str::Utf8Error);

/// `std::str::from_utf8`. The contract claims that it succeeds exactly on
/// valid UTF-8, and that the text has the given bytes.
pub assume_specification[ core::str::from_utf8 ](v: &[u8]) -> (res: Result<
    &str,
    core::str::Utf8Error,
>)
    ensures
        res is Ok <==> valid_utf8(v@),
        res matches Ok(s) ==> encode_utf8(s@) == v@,
;

/// The text that the bytes stand for, with every ill-formed part replaced.
pub uninterp spec fn utf8_lossy(bytes: Seq<u8>) -> Seq<char>;

/// Calls `String::from_utf8_lossy`. The contract claims that the text depends
/// on the bytes alone, and that valid UTF-8 is decoded as it stands.
#[verifier::external_body]
pub(crate) fn string_from_utf8_lossy(bytes: &[u8]) -> (text: String)
    ensures
        text@ == utf8_lossy(bytes@),
        valid_utf8(bytes@) ==> text@ == decode_utf8(bytes@),
{
    String::from_utf8_lossy(bytes).into_owned()
}

/// The text of bytes that may not be valid UTF-8.
pub open spec fn lossy_text(bytes: Seq<u8>) -> Seq<char> {
    if valid_utf8(bytes) {
        decode_utf8(bytes)
    } else {
        utf8_lossy(bytes)
    }
}

/// The bytes before the first zero byte, or all where there is none.
pub open spec fn until_nul(bytes: Seq<u8>) -> Seq<u8> {
    match bytes.index_of_first(0u8) {
        Some(end) => bytes.take(end),
        None => bytes,
    }
}

/// `bytes` without the zero bytes at its end.
pub open spec fn trim_nul(bytes: Seq<u8>) -> Seq<u8>
    decreases bytes.len(),
{
    if bytes.len() > 0 && bytes.last() == 0 {
        trim_nul(bytes.drop_last())
    } else {
        bytes
    }
}

/// The text of a name in a field that is filled up with zero bytes; nothing
/// where the field is not valid UTF-8.
pub open spec fn padded_name(field: Seq<u8>) -> Seq<char> {
    if valid_utf8(field) {
        decode_utf8(trim_nul(field))
    } else {
        Seq::empty()
    }
}

/// The number of bytes before the zero bytes at the end of `bytes`.
pub fn trimmed_len(bytes: &[u8]) -> (len: usize)
    ensures
        len <= bytes@.len(),
        trim_nul(bytes@) == bytes@.take(len as int),
        len < bytes@.len() ==> bytes@[len as int] == 0,
{
    let mut len: usize = bytes.len();
    assert(bytes@.take(len as int) =~= bytes@);
    while len > 0 && bytes[len - 1] == 0
        invariant
            len <= bytes@.len(),
            trim_nul(bytes@) == trim_nul(bytes@.take(len as int)),
            len < bytes@.len() ==> bytes@[len as int] == 0,
        decreases len,
    {
        assert(bytes@.take(len as int).drop_last() =~= bytes@.take(len - 1));
        len -= 1;
    }
    len
}

/// The text of a name in a field that is filled up with zero bytes.
pub fn name_text(field: &[u8]) -> (text: String)
    ensures
        text@ == padded_name(field@),
{
    match core::str::from_utf8(field) {
        Ok(whole) => {
            let len = trimmed_len(field);
            proof {
                if len < field@.len() {
                    assert(!is_continuation_byte(field@[len as int])) by {
                        assert(!(0x80u8 <= 0u8));
                    }
                    is_char_boundary_iff_not_is_continuation_byte(field@, len as int);
                } else {
                    is_char_boundary_start_end_of_seq(field@);
                }
            }
            let (name, _) = whole.split_at(len);
            proof {
                assert(encode_utf8(name@) =~= trim_nul(field@));
                encode_utf8_decode_utf8(name@);
            }
            name.to_owned()
        },
        Err(_) => String::new(),
    }
}

/// The characters before the first NUL, or all where there is none.
pub open spec fn before_nul(chars: Seq<char>) -> Seq<char> {
    match chars.index_of_first('\0') {
        Some(end) => chars.take(end),
        None => chars,
    }
}

/// A character other than NUL is encoded without zero bytes.
proof fn lemma_scalar_has_no_zero(c: u32)
    requires
        c != 0,
    ensures
        !encode_scalar(c).contains(0u8),
{
    assert(0 < c <= 0x7f ==> (c & 0x7f) as u8 != 0) by (bit_vector);
    assert(0xC0 | ((c >> 6) & 0x1F) as u8 != 0) by (bit_vector);
    assert(0xE0 | ((c >> 12) & 0x0F) as u8 != 0) by (bit_vector);
    assert(0xF0 | ((c >> 18) & 0x7) as u8 != 0) by (bit_vector);
    assert(0x80 | (c & 0x3F) as u8 != 0) by (bit_vector);
    assert(0x80 | ((c >> 6) & 0x3F) as u8 != 0) by (bit_vector);
    assert(0x80 | ((c >> 12) & 0x3F) as u8 != 0) by (bit_vector);
}

/// Bytes without a zero do not end what comes after them.
proof fn lemma_until_nul_after(head: Seq<u8>, tail: Seq<u8>)
    requires
        !head.contains(0u8),
    ensures
        until_nul(head + tail) == head + until_nul(tail),
{
    let whole = head + tail;
    whole.index_of_first_ensures(0u8);
    tail.index_of_first_ensures(0u8);
    assert forall|k: int| 0 <= k < head.len() implies #[trigger] whole[k] != 0u8 by {
        assert(head[k] == whole[k]);
        assert(head.contains(head[k]));
    }
    match tail.index_of_first(0u8) {
        Some(end) => {
            let at = head.len() + end;
            assert(whole[at] == 0u8);
            assert(whole.contains(0u8));
            let first = whole.index_of_first(0u8)->0;
            assert(first == at) by {
                if head.len() <= first < at {
                    assert(tail[first - head.len()] == whole[first]);
                }
            }
            assert(whole.take(at) =~= head + tail.take(end));
        },
        None => {
            if whole.contains(0u8) {
                let first = whole.index_of_first(0u8)->0;
                assert(tail[first - head.len()] == 0u8);
                assert(tail.contains(0u8));
            }
        },
    }
}

/// The bytes of a text before the first zero byte are those of the characters
/// before the first NUL.
pub proof fn lemma_until_nul(chars: Seq<char>)
    ensures
        until_nul(encode_utf8(chars)) == encode_utf8(before_nul(chars)),
    decreases chars.len(),
{
    let bytes = encode_utf8(chars);
    bytes.index_of_first_ensures(0u8);
    chars.index_of_first_ensures('\0');
    if chars.len() == 0 {
    } else if chars[0] == '\0' {
        assert((0u32 & 0x7f) as u8 == 0) by (bit_vector);
        assert(bytes[0] == 0u8);
        assert(bytes.contains(0u8));
        assert(chars.contains('\0'));
        assert(until_nul(bytes) =~= Seq::empty());
        assert(before_nul(chars) =~= Seq::empty());
    } else {
        let rest = chars.drop_first();
        let head = encode_scalar(chars[0] as u32);
        char_is_scalar(chars[0]);
        char_u32_cast(chars[0], chars[0] as u32);
        assert(0u32 as char == '\0');
        lemma_scalar_has_no_zero(chars[0] as u32);
        lemma_until_nul_after(head, encode_utf8(rest));
        lemma_until_nul(rest);
        rest.index_of_first_ensures('\0');
        let kept = before_nul(chars);
        assert(kept.len() > 0 && kept[0] == chars[0] && kept.drop_first() == before_nul(rest)) by {
            match rest.index_of_first('\0') {
                Some(end) => {
                    assert(chars[end + 1] == '\0');
                    assert(chars.contains('\0'));
                    let first = chars.index_of_first('\0')->0;
                    assert(first == end + 1) by {
                        if 0 < first < end + 1 {
                            assert(rest[first - 1] == chars[first]);
                        }
                    }
                    assert(kept.drop_first() =~= rest.take(end));
                },
                None => {
                    if chars.contains('\0') {
                        let first = chars.index_of_first('\0')->0;
                        assert(rest[first - 1] == '\0');
                        assert(rest.contains('\0'));
                    }
                },
            }
        }
    }
}

} // verus!
