use vstd::prelude::*;
use vstd::string::StringExecFns;
use vstd::utf8::{decode_utf8, encode_utf8_decode_utf8, valid_utf8};
use crate::utils::bytes::bytes_eq;

verus! {

/// The lower-case hexadecimal digit for a value below 16.
pub open spec fn hex_digit(n: u8) -> char {
    if n < 10 {
        ((48 + n) as u8) as char
    } else {
        ((87 + n) as u8) as char
    }
}

/// Lower-case hexadecimal text of a byte sequence: two digits per byte, high
/// half first.
pub open spec fn hex_string(bytes: Seq<u8>) -> Seq<char> {
    Seq::new(
        2 * bytes.len(),
        |i: int|
            if i % 2 == 0 {
                hex_digit(bytes[i / 2] / 16)
            } else {
                hex_digit(bytes[i / 2] % 16)
            },
    )
}

/// Calls `String::from_utf8`. Trusted: it succeeds exactly on valid UTF-8, and
/// the string it gives then holds the characters that the bytes encode.
#[verifier::external_body]
pub(crate) fn string_from_utf8(bytes: Vec<u8>) -> (r: Option<String>)
    ensures
        r is Some <==> valid_utf8(bytes@),
        r is Some ==> r->Some_0@ == decode_utf8(bytes@),
{
    match String::from_utf8(bytes) {
        Ok(s) => Some(s),
        Err(_) => None,
    }
}

/// Whether two texts are the same.
pub fn same_text(a: &str, b: &str) -> (same: bool)
    ensures
        same == (a@ == b@),
{
    let same: bool = bytes_eq(a.as_bytes(), b.as_bytes());
    proof {
        encode_utf8_decode_utf8(a@);
        encode_utf8_decode_utf8(b@);
    }
    same
}

/// Index of the first key at or after `from` that equals `k`, or -1.
pub open spec fn find_text(keys: Seq<Seq<char>>, k: Seq<char>, from: int) -> int
    decreases keys.len() - from,
{
    if from < 0 || from >= keys.len() {
        -1
    } else if keys[from] == k {
        from
    } else {
        find_text(keys, k, from + 1)
    }
}

/// No key occurs twice.
pub open spec fn distinct_texts(keys: Seq<Seq<char>>) -> bool {
    forall|i: int, j: int| 0 <= i < j < keys.len() ==> keys[i] != keys[j]
}

/// What `find_text` finds is the first position of the key.
pub proof fn lemma_find_text(keys: Seq<Seq<char>>, k: Seq<char>, from: int)
    requires
        0 <= from,
    ensures
        find_text(keys, k, from) == -1 || from <= find_text(keys, k, from) < keys.len(),
        find_text(keys, k, from) >= 0 ==> keys[find_text(keys, k, from)] == k,
        forall|j: int|
            from <= j < keys.len() && (find_text(keys, k, from) == -1 || j < find_text(
                keys,
                k,
                from,
            )) ==> keys[j] != k,
    decreases keys.len() - from,
{
    if from < keys.len() && keys[from] != k {
        lemma_find_text(keys, k, from + 1);
    }
}

/// The decimal digits of a number, without leading zeros.
pub open spec fn decimal(v: nat) -> Seq<char>
    decreases v,
{
    if v < 10 {
        seq![hex_digit(v as u8)]
    } else {
        decimal(v / 10).push(hex_digit((v % 10) as u8))
    }
}

/// The lower-case hexadecimal digits of a number, without leading zeros.
pub open spec fn hex_number(v: nat) -> Seq<char>
    decreases v,
{
    if v < 16 {
        seq![hex_digit(v as u8)]
    } else {
        hex_number(v / 16).push(hex_digit((v % 16) as u8))
    }
}

/// The one-character text of a digit below sixteen.
pub fn digit_text(d: u8) -> (s: &'static str)
    requires
        d < 16,
    ensures
        s@ == seq![hex_digit(d)],
{
    proof {
        reveal_strlit("0");
        reveal_strlit("1");
        reveal_strlit("2");
        reveal_strlit("3");
        reveal_strlit("4");
        reveal_strlit("5");
        reveal_strlit("6");
        reveal_strlit("7");
        reveal_strlit("8");
        reveal_strlit("9");
        reveal_strlit("a");
        reveal_strlit("b");
        reveal_strlit("c");
        reveal_strlit("d");
        reveal_strlit("e");
        reveal_strlit("f");
    }
    let s: &'static str = if d == 0 {
        "0"
    } else if d == 1 {
        "1"
    } else if d == 2 {
        "2"
    } else if d == 3 {
        "3"
    } else if d == 4 {
        "4"
    } else if d == 5 {
        "5"
    } else if d == 6 {
        "6"
    } else if d == 7 {
        "7"
    } else if d == 8 {
        "8"
    } else if d == 9 {
        "9"
    } else if d == 10 {
        "a"
    } else if d == 11 {
        "b"
    } else if d == 12 {
        "c"
    } else if d == 13 {
        "d"
    } else if d == 14 {
        "e"
    } else {
        "f"
    };
    assert(s@ =~= seq![hex_digit(d)]);
    s
}

/// A number in decimal.
pub fn decimal_text(v: u64) -> (s: String)
    ensures
        s@ == decimal(v as nat),
    decreases v,
{
    if v < 10 {
        String::from_str(digit_text(v as u8))
    } else {
        let mut s: String = decimal_text(v / 10);
        s.append(digit_text((v % 10) as u8));
        assert(s@ =~= decimal(v as nat));
        s
    }
}

/// A number in lower-case hexadecimal.
pub fn hex_text(v: u64) -> (s: String)
    ensures
        s@ == hex_number(v as nat),
    decreases v,
{
    if v < 16 {
        String::from_str(digit_text(v as u8))
    } else {
        let mut s: String = hex_text(v / 16);
        s.append(digit_text((v % 16) as u8));
        assert(s@ =~= hex_number(v as nat));
        s
    }
}

} // verus!
