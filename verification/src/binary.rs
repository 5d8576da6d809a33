use vstd::prelude::*;
use vstd::string::StringSliceAdditionalSpecFns;

verus! {

/// The binary digit of `num` at position `i`, counted from the most
/// significant bit.
pub open spec fn bit_char(num: u8, i: int) -> char {
    if (num >> ((7 - i) as u8)) & 1 == 1 {
        '1'
    } else {
        '0'
    }
}

/// The full 8-bit binary representation of a byte, most significant bit
/// first.
pub open spec fn binary_seq(num: u8) -> Seq<char> {
    Seq::new(8, |i: int| bit_char(num, i))
}

/// The lowercase hex digit for a value below 16.
pub open spec fn hex_digit(n: int) -> char {
    if n < 10 {
        (48 + n) as char
    } else {
        (87 + n) as char
    }
}

/// The lowercase hex encoding of a byte sequence: two digits per byte, high
/// nibble first, in input order.
pub open spec fn hex_seq(bytes: Seq<u8>) -> Seq<char> {
    Seq::new(
        (2 * bytes.len()) as nat,
        |i: int|
            if i % 2 == 0 {
                hex_digit(bytes[i / 2] as int / 16)
            } else {
                hex_digit(bytes[i / 2] as int % 16)
            },
    )
}

/// Relies on hex::encode: each byte becomes two lowercase hex digits, high
/// nibble first, in input order.
#[verifier::external_body]
fn hex_encode(bytes: &[u8]) -> (r: String)
    ensures
        r@ == hex_seq(bytes@),
{
    hex::encode(bytes)
}

/// The lowercase hex rendering of a string slice's UTF-8 bytes.
pub fn hex_from_string_slice(msg: &str) -> (r: String)
    ensures
        r@ == hex_seq(msg.spec_bytes()),
{
    hex_encode(msg.as_bytes())
}

/// The full 8-bit binary representation of a byte, as text.
pub fn binary_u8(num: u8) -> (s: String)
    ensures
        s@ == binary_seq(num),
{
    let mut cnt: i8 = 7;
    let mut s = String::new();
    while cnt >= 0
        invariant
            -1 <= cnt <= 7,
            s@.len() == 7 - cnt,
            forall|i: int| 0 <= i < s@.len() ==> s@[i] == bit_char(num, i),
        decreases cnt + 1,
    {
        let sh = cnt as u8;
        let tmp = num & (1u8 << sh);
        proof {
            assert(((num & (1u8 << sh)) == 0) == (((num >> sh) & 1) != 1)) by (bit_vector)
                requires
                    sh < 8,
            ;
        }
        match tmp {
            0 => s.push('0'),
            _ => s.push('1'),
        }
        cnt = cnt - 1;
    }
    assert(s@ =~= binary_seq(num));
    s
}

/// One 8-bit binary string for each byte, in input order.
pub fn binary_from_bytes(bytes: &[u8]) -> (result: Vec<String>)
    ensures
        result@.len() == bytes@.len(),
        forall|k: int| 0 <= k < bytes@.len() ==> #[trigger] result@[k]@ == binary_seq(bytes@[k]),
{
    let mut result: Vec<String> = Vec::new();
    let mut idx: usize = 0;
    while idx < bytes.len()
        invariant
            idx <= bytes@.len(),
            result@.len() == idx,
            forall|k: int| 0 <= k < idx ==> #[trigger] result@[k]@ == binary_seq(bytes@[k]),
        decreases bytes@.len() - idx,
    {
        let binary = binary_u8(bytes[idx]);
        result.push(binary);
        idx += 1;
    }
    result
}

} // verus!
