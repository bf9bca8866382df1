//! The syntax of header fields: which bytes a name and a value may hold.

use crate::bytes;
use vstd::prelude::*;
use vstd::string::StringSliceAdditionalSpecFns;

verus! {

/// The bytes of a field name: ASCII letters, digits, and `` !#$%&'*+-.^_`|~ ``.
pub open spec fn name_byte(byte: u8) -> bool {
    ||| 48 <= byte <= 57
    ||| 65 <= byte <= 90
    ||| 97 <= byte <= 122
    ||| byte == 33
    ||| 35 <= byte <= 39
    ||| byte == 42
    ||| byte == 43
    ||| byte == 45
    ||| byte == 46
    ||| byte == 94
    ||| byte == 95
    ||| byte == 96
    ||| byte == 124
    ||| byte == 126
}

/// The bytes of a field value: no control character but the tab.
pub open spec fn value_byte(byte: u8) -> bool {
    byte == bytes::HTAB || (byte >= bytes::SPACE && byte != 127)
}

/// `name` may be the name of a field.
pub open spec fn is_name(name: Seq<u8>) -> bool {
    &&& name.len() > 0
    &&& forall|i: int| 0 <= i < name.len() ==> name_byte(#[trigger] name[i])
}

/// `value` may be the value of a field.
pub open spec fn is_value(value: Seq<u8>) -> bool {
    forall|i: int| 0 <= i < value.len() ==> value_byte(#[trigger] value[i])
}

/// A header field by its name and value.
pub struct Field {
    pub name: Seq<u8>,
    pub value: Seq<u8>,
}

impl Field {
    /// The field has the name `name`, up to ASCII case.
    pub open spec fn is_named(self, name: Seq<u8>) -> bool {
        bytes::same_ignoring_case(self.name, name)
    }

    /// Name and value consist of bytes that may stand there.
    pub open spec fn is_valid(self) -> bool {
        is_name(self.name) && is_value(self.value)
    }
}

pub open spec fn content_length_name() -> Seq<u8> {
    "content-length".spec_bytes()
}

pub open spec fn transfer_encoding_name() -> Seq<u8> {
    "transfer-encoding".spec_bytes()
}

pub open spec fn connection_name() -> Seq<u8> {
    "connection".spec_bytes()
}

/// Whether `byte` may stand in a field name.
pub fn is_header_name_byte(byte: u8) -> (valid: bool)
    ensures
        valid == name_byte(byte),
{
    (48 <= byte && byte <= 57) || (65 <= byte && byte <= 90) || (97 <= byte && byte <= 122) || byte
        == 33 || (35 <= byte && byte <= 39) || byte == 42 || byte == 43 || byte == 45 || byte == 46
        || byte == 94 || byte == 95 || byte == 96 || byte == 124 || byte == 126
}

/// Whether `name` may be the name of a field.
pub fn valid_header_name(name: &[u8]) -> (valid: bool)
    ensures
        valid == is_name(name@),
{
    for i in 0..name.len()
        invariant
            forall|j: int| 0 <= j < i ==> name_byte(#[trigger] name@[j]),
    {
        if !is_header_name_byte(name[i]) {
            return false;
        }
    }
    name.len() > 0
}

/// Eight bytes in one word, the first in its lowest byte.
spec fn packed(a: u8, b: u8, c: u8, d: u8, e: u8, f: u8, g: u8, h: u8) -> u64 {
    (a as u64) | ((b as u64) << 8) | ((c as u64) << 16) | ((d as u64) << 24) | ((e as u64) << 32)
        | ((f as u64) << 40) | ((g as u64) << 48) | ((h as u64) << 56)
}

/// The high bit of each byte of `word` that may not stand in a field value:
/// those below 0x20, except HTAB, and DEL. Each byte is tested on its low seven
/// bits, so that no sum carries into the next byte.
spec fn forbidden(word: u64) -> u64 {
    let high = 0x8080_8080_8080_8080u64;
    let low = 0x7F7F_7F7F_7F7F_7F7Fu64;
    let tab = word ^ 0x0909_0909_0909_0909u64;
    let del = word ^ 0x7F7F_7F7F_7F7F_7F7Fu64;
    let below_space = !((((word & low) + 0x6060_6060_6060_6060u64) as u64) | word) & high;
    let is_tab = !((((tab & low) + low) as u64) | tab) & high;
    let is_del = !((((del & low) + low) as u64) | del) & high;
    (below_space & !is_tab) | is_del
}

/// No bit is set exactly where each of the eight bytes may stand in a value.
proof fn lemma_word_scan(a: u8, b: u8, c: u8, d: u8, e: u8, f: u8, g: u8, h: u8)
    by (bit_vector)
    ensures
        forbidden(packed(a, b, c, d, e, f, g, h)) == 0 <==> (value_byte(a) && value_byte(b)
            && value_byte(c) && value_byte(d) && value_byte(e) && value_byte(f) && value_byte(g)
            && value_byte(h)),
{
}

fn forbidden_bytes(word: u64) -> (mask: u64)
    ensures
        mask == forbidden(word),
{
    let high: u64 = 0x8080_8080_8080_8080;
    let low: u64 = 0x7F7F_7F7F_7F7F_7F7F;
    let tab: u64 = word ^ 0x0909_0909_0909_0909;
    let del: u64 = word ^ 0x7F7F_7F7F_7F7F_7F7F;
    assert(word & 0x7F7F_7F7F_7F7F_7F7Fu64 <= 0x7F7F_7F7F_7F7F_7F7Fu64) by (bit_vector);
    assert(tab & 0x7F7F_7F7F_7F7F_7F7Fu64 <= 0x7F7F_7F7F_7F7F_7F7Fu64) by (bit_vector);
    assert(del & 0x7F7F_7F7F_7F7F_7F7Fu64 <= 0x7F7F_7F7F_7F7F_7F7Fu64) by (bit_vector);
    let below_space: u64 = !(((word & low) + 0x6060_6060_6060_6060) | word) & high;
    let is_tab: u64 = !(((tab & low) + low) | tab) & high;
    let is_del: u64 = !(((del & low) + low) | del) & high;
    (below_space & !is_tab) | is_del
}

/// Whether `value` may be the value of a field. Scans a word at a time.
pub fn valid_header_value(value: &[u8]) -> (valid: bool)
    ensures
        valid == is_value(value@),
{
    let mut at: usize = 0;
    while value.len() - at >= 8
        invariant
            at <= value@.len(),
            forall|j: int| 0 <= j < at ==> value_byte(#[trigger] value@[j]),
        decreases value@.len() - at,
    {
        let word: u64 = (value[at] as u64) | ((value[at + 1] as u64) << 8) | ((value[at + 2] as u64)
            << 16) | ((value[at + 3] as u64) << 24) | ((value[at + 4] as u64) << 32) | ((value[at
            + 5] as u64) << 40) | ((value[at + 6] as u64) << 48) | ((value[at + 7] as u64) << 56);
        proof {
            lemma_word_scan(
                value@[at as int],
                value@[at + 1],
                value@[at + 2],
                value@[at + 3],
                value@[at + 4],
                value@[at + 5],
                value@[at + 6],
                value@[at + 7],
            );
        }
        if forbidden_bytes(word) != 0 {
            return false;
        }
        at = at + 8;
    }
    while at < value.len()
        invariant
            at <= value@.len(),
            forall|j: int| 0 <= j < at ==> value_byte(#[trigger] value@[j]),
        decreases value@.len() - at,
    {
        let byte = value[at];
        if !(byte == bytes::HTAB || (byte >= bytes::SPACE && byte != 127)) {
            return false;
        }
        at = at + 1;
    }
    true
}

/// Whether `name` and `value` may stand in a field.
pub fn valid_header(name: &[u8], value: &[u8]) -> (valid: bool)
    ensures
        valid == (is_name(name@) && is_value(value@)),
{
    valid_header_name(name) && valid_header_value(value)
}

} // verus!
