//! The colour of a node, by which people tell nodes apart.
use vstd::prelude::*;

verus! {

/// A number from the address of a node: all its bytes, exclusively or-ed.
pub open spec fn hue_number(mac: Seq<u8>) -> u8 {
    0u8 ^ mac[0] ^ mac[1] ^ mac[2] ^ mac[3] ^ mac[4] ^ mac[5]
}

/// Mixes a byte into a number. The two halves of the byte, crossed over, have no
/// bit in common, so only the byte itself counts.
fn mixed(v: u8, b: u8) -> (r: u8)
    ensures
        r == v ^ b,
{
    let crossed: u8 = ((b << 4) & 0xf0) & ((b >> 4) & 0x0f);
    assert(crossed == 0) by (bit_vector)
        requires
            crossed == ((b << 4) & 0xf0) & ((b >> 4) & 0x0f),
    ;
    let r: u8 = v ^ b ^ crossed;
    assert(r == v ^ b) by (bit_vector)
        requires
            r == v ^ b ^ crossed,
            crossed == 0,
    ;
    r
}

/// The number of the hue of a node, from 0 to 255 for a full turn.
pub fn mac_hue(mac: &[u8; 6]) -> (r: u8)
    ensures
        r == hue_number(mac@),
{
    let mut v: u8 = 0;
    v = mixed(v, mac[0]);
    v = mixed(v, mac[1]);
    v = mixed(v, mac[2]);
    v = mixed(v, mac[3]);
    v = mixed(v, mac[4]);
    mixed(v, mac[5])
}

/// The bytes of a colour in the order in which the light takes them.
pub fn grb(r: u8, g: u8, b: u8) -> (bytes: [u8; 3])
    ensures
        bytes@ == seq![g, r, b],
{
    let bytes: [u8; 3] = [g, r, b];
    assert(bytes@ =~= seq![g, r, b]);
    bytes
}

/// Every byte of the address counts alike: putting another in its place changes the number
/// of the hue by the difference of the two, bit by bit, wherever it stands.
pub proof fn lemma_hue(mac: Seq<u8>, i: int, b: u8)
    requires
        mac.len() == 6,
        0 <= i < 6,
    ensures
        hue_number(mac.update(i, b)) == hue_number(mac) ^ mac[i] ^ b,
        hue_number(Seq::new(6, |k: int| 0u8)) == 0,
{
    let (x0, x1, x2, x3, x4, x5) = (mac[0], mac[1], mac[2], mac[3], mac[4], mac[5]);
    let h = hue_number(mac);
    assert(h ^ x0 ^ b == 0u8 ^ b ^ x1 ^ x2 ^ x3 ^ x4 ^ x5 && h ^ x1 ^ b == 0u8 ^ x0 ^ b ^ x2 ^ x3
        ^ x4 ^ x5 && h ^ x2 ^ b == 0u8 ^ x0 ^ x1 ^ b ^ x3 ^ x4 ^ x5 && h ^ x3 ^ b == 0u8 ^ x0 ^ x1
        ^ x2 ^ b ^ x4 ^ x5 && h ^ x4 ^ b == 0u8 ^ x0 ^ x1 ^ x2 ^ x3 ^ b ^ x5 && h ^ x5 ^ b == 0u8
        ^ x0 ^ x1 ^ x2 ^ x3 ^ x4 ^ b) by (bit_vector)
        requires
            h == 0u8 ^ x0 ^ x1 ^ x2 ^ x3 ^ x4 ^ x5,
    ;
    assert(0u8 ^ 0u8 ^ 0u8 ^ 0u8 ^ 0u8 ^ 0u8 ^ 0u8 == 0u8) by (bit_vector);
}

} // verus!
