//! IPv4 addresses as 32-bit numbers, and their dotted-quad form.

use crate::text::{all_digits, chars_of, decimal, fields, parse_number, split_fields};
use vstd::prelude::*;

verus! {

/// The address with the four given octets, the first in the top bits.
pub open spec fn address_of(a: u8, b: u8, c: u8, d: u8) -> u32 {
    (a * 0x100_0000 + b * 0x1_0000 + c * 0x100 + d) as u32
}

/// What `s` reads as one octet of a dotted quad: one to three digits, no
/// leading zero before another digit, the value at most 255.
pub open spec fn octet_of(s: Seq<char>) -> Option<u8> {
    if 1 <= s.len() <= 3 && all_digits(s) && (s.len() > 1 ==> s[0] != '0') && decimal(s) <= 255 {
        Some(decimal(s) as u8)
    } else {
        None
    }
}

/// What `s` reads as an IPv4 address in dotted-quad form: four octets with
/// a `.` between neighbours and nothing else.
pub open spec fn ipv4_of(s: Seq<char>) -> Option<u32> {
    let parts = fields(s, '.');
    if parts.len() == 4 && octet_of(parts[0]) is Some && octet_of(parts[1]) is Some && octet_of(
        parts[2],
    ) is Some && octet_of(parts[3]) is Some {
        Some(
            address_of(
                octet_of(parts[0])->0,
                octet_of(parts[1])->0,
                octet_of(parts[2])->0,
                octet_of(parts[3])->0,
            ),
        )
    } else {
        None
    }
}

/// The address with the four given octets.
pub fn ipv4_from_octets(a: u8, b: u8, c: u8, d: u8) -> (address: u32)
    ensures
        address == address_of(a, b, c, d),
{
    a as u32 * 0x100_0000 + b as u32 * 0x1_0000 + c as u32 * 0x100 + d as u32
}

/// The four octets of an address, the top one first.
pub fn ipv4_octets(address: u32) -> (octets: (u8, u8, u8, u8))
    ensures
        octets.0 == address / 0x100_0000,
        octets.1 == (address / 0x1_0000) % 0x100,
        octets.2 == (address / 0x100) % 0x100,
        octets.3 == address % 0x100,
        address_of(octets.0, octets.1, octets.2, octets.3) == address,
{
    let a: u32 = address / 0x100_0000;
    let b: u32 = (address / 0x1_0000) % 0x100;
    let c: u32 = (address / 0x100) % 0x100;
    let d: u32 = address % 0x100;
    (a as u8, b as u8, c as u8, d as u8)
}

/// Reads one octet of a dotted quad.
fn parse_octet(field: &Vec<char>) -> (octet: Option<u8>)
    ensures
        octet == octet_of(field@),
{
    if field.len() == 0 || field.len() > 3 {
        return None;
    }
    if field.len() > 1 && field[0] == '0' {
        return None;
    }
    assert(field@.skip(0) =~= field@);
    match parse_number(field, 0, 255) {
        Some(n) => Some(n as u8),
        None => None,
    }
}

/// Reads the characters of an IPv4 address in dotted-quad form.
pub fn parse_ipv4_chars(chars: &Vec<char>) -> (address: Option<u32>)
    ensures
        address == ipv4_of(chars@),
{
    let parts = split_fields(chars, '.');
    if parts.len() != 4 {
        return None;
    }
    let a = parse_octet(&parts[0]);
    let b = parse_octet(&parts[1]);
    let c = parse_octet(&parts[2]);
    let d = parse_octet(&parts[3]);
    match (a, b, c, d) {
        (Some(a), Some(b), Some(c), Some(d)) => Some(ipv4_from_octets(a, b, c, d)),
        _ => None,
    }
}

/// Reads an IPv4 address in dotted-quad form.
pub fn parse_ipv4(text: &str) -> (address: Option<u32>)
    ensures
        address == ipv4_of(text@),
{
    let chars = chars_of(text);
    parse_ipv4_chars(&chars)
}

} // verus!
