//! Lanes: 64-bit words, their little-endian byte encoding and their rotation.

use vstd::prelude::*;

verus! {

/// The lane made of eight bytes, `b0` the least significant.
pub open spec fn joined(b0: u8, b1: u8, b2: u8, b3: u8, b4: u8, b5: u8, b6: u8, b7: u8) -> u64 {
    (b0 as u64) | ((b1 as u64) << 8) | ((b2 as u64) << 16) | ((b3 as u64) << 24) | ((b4 as u64)
        << 32) | ((b5 as u64) << 40) | ((b6 as u64) << 48) | ((b7 as u64) << 56)
}

/// Whether `b0` to `b7` are the bytes of `lane`, `b0` the least significant.
pub open spec fn split(
    lane: u64,
    b0: u8,
    b1: u8,
    b2: u8,
    b3: u8,
    b4: u8,
    b5: u8,
    b6: u8,
    b7: u8,
) -> bool {
    &&& b0 == lane_byte(lane, 0)
    &&& b1 == lane_byte(lane, 1)
    &&& b2 == lane_byte(lane, 2)
    &&& b3 == lane_byte(lane, 3)
    &&& b4 == lane_byte(lane, 4)
    &&& b5 == lane_byte(lane, 5)
    &&& b6 == lane_byte(lane, 6)
    &&& b7 == lane_byte(lane, 7)
}

/// The lane whose little-endian encoding is the first eight bytes of `bytes`.
pub open spec fn lane_of_bytes(bytes: Seq<u8>) -> u64
    recommends
        bytes.len() >= 8,
{
    joined(bytes[0], bytes[1], bytes[2], bytes[3], bytes[4], bytes[5], bytes[6], bytes[7])
}

/// Byte `i` (0 is the least significant) of `lane`.
pub open spec fn lane_byte(lane: u64, i: int) -> u8
    recommends
        0 <= i < 8,
{
    ((lane >> ((8 * i) as u64)) & 0xff) as u8
}

/// The eight bytes of `lane`, least significant first.
pub open spec fn bytes_of_lane(lane: u64) -> Seq<u8> {
    Seq::new(8, |i: int| lane_byte(lane, i))
}

/// `a` rotated left by `offset` bits, for an offset strictly between 0 and 64.
pub open spec fn rotl(a: u64, offset: u64) -> u64
    recommends
        0 < offset < 64,
{
    (a << offset) ^ (a >> ((64 - offset) as u64))
}

/// Encoding a lane and decoding the bytes gives the lane back.
pub proof fn lemma_lane_round_trip(lane: u64)
    ensures
        lane_of_bytes(bytes_of_lane(lane)) == lane,
{
    let b = bytes_of_lane(lane);
    let (b0, b1, b2, b3) = (b[0], b[1], b[2], b[3]);
    let (b4, b5, b6, b7) = (b[4], b[5], b[6], b[7]);
    assert(joined(b0, b1, b2, b3, b4, b5, b6, b7) == lane) by (bit_vector)
        requires
            split(lane, b0, b1, b2, b3, b4, b5, b6, b7),
    ;
}

/// Decoding eight bytes and encoding the lane gives the bytes back.
pub proof fn lemma_bytes_round_trip(bytes: Seq<u8>)
    requires
        bytes.len() == 8,
    ensures
        bytes_of_lane(lane_of_bytes(bytes)) == bytes,
{
    let (b0, b1, b2, b3) = (bytes[0], bytes[1], bytes[2], bytes[3]);
    let (b4, b5, b6, b7) = (bytes[4], bytes[5], bytes[6], bytes[7]);
    let lane = lane_of_bytes(bytes);
    assert(split(lane, b0, b1, b2, b3, b4, b5, b6, b7)) by (bit_vector)
        requires
            lane == joined(b0, b1, b2, b3, b4, b5, b6, b7),
    ;
    assert(bytes_of_lane(lane) =~= bytes);
}

/// Decodes eight bytes, least significant first, into a lane.
pub fn u8s_to_u64(bytes: &[u8; 8]) -> (lane: u64)
    ensures
        lane == lane_of_bytes(bytes@),
{
    (bytes[0] as u64) | ((bytes[1] as u64) << 8) | ((bytes[2] as u64) << 16) | ((bytes[3] as u64)
        << 24) | ((bytes[4] as u64) << 32) | ((bytes[5] as u64) << 40) | ((bytes[6] as u64) << 48)
        | ((bytes[7] as u64) << 56)
}

/// Encodes a lane as eight bytes, least significant first.
pub fn u64_to_u8s(num: u64) -> (bytes: [u8; 8])
    ensures
        bytes@ == bytes_of_lane(num),
{
    let mut bytes = [0u8; 8];
    let mut i: usize = 0;
    while i < 8
        invariant
            i <= 8,
            forall|k: int| 0 <= k < i ==> bytes@[k] == lane_byte(num, k),
        decreases 8 - i,
    {
        bytes[i] = ((num >> (i * 8)) & 0xff) as u8;
        i += 1;
    }
    assert(bytes@ =~= bytes_of_lane(num));
    bytes
}

/// Rotates `a` left by `offset` bits.
#[allow(non_snake_case)]
pub fn ROL64(a: u64, offset: u64) -> (r: u64)
    requires
        0 < offset < 64,
    ensures
        r == rotl(a, offset),
{
    (a << offset) ^ (a >> (64 - offset))
}

} // verus!
