//! The compact binary form of a level.
//!
//! Layout: `[width, height, player_hi, player_lo, wall_plane..., box_plane..., goal_plane..., crc8]`

use vstd::prelude::*;
use vstd::slice::slice_subrange;

use crate::bitplane::{bit_of, cell_count, lemma_flat, plane_bytes, BitPlane};
use crate::level::{has_box, has_goal, has_wall, LevelError, SokobanLevel};

verus! {

/// One bit of a CRC-8 with the polynomial x^8 + x^2 + x + 1.
pub open spec fn crc_bit(c: u8) -> u8 {
    if c & 0x80 != 0 {
        (c << 1) ^ 0x07
    } else {
        c << 1
    }
}

/// `n` bits of a CRC-8.
pub open spec fn crc_bits(c: u8, n: nat) -> u8
    decreases n,
{
    if n == 0 {
        c
    } else {
        crc_bit(crc_bits(c, (n - 1) as nat))
    }
}

/// The CRC-8/SMBUS of some bytes.
pub open spec fn crc_of(data: Seq<u8>) -> u8
    decreases data.len(),
{
    if data.len() == 0 {
        0
    } else {
        crc_bits(crc_of(data.drop_last()) ^ data.last(), 8)
    }
}

/// CRC-8/SMBUS: tiny and sufficient to detect corruption.
pub fn crc8(data: &[u8]) -> (r: u8)
    ensures
        r == crc_of(data@),
{
    let mut crc: u8 = 0;
    let mut k: usize = 0;
    assert(data@.take(0) =~= Seq::<u8>::empty());
    while k < data.len()
        invariant
            k <= data@.len(),
            crc == crc_of(data@.take(k as int)),
        decreases data@.len() - k,
    {
        assert(data@.take(k + 1).drop_last() =~= data@.take(k as int));
        let start: u8 = crc ^ data[k];
        crc = start;
        let mut b: usize = 0;
        while b < 8
            invariant
                b <= 8,
                crc == crc_bits(start, b as nat),
            decreases 8 - b,
        {
            crc = if crc & 0x80 != 0 {
                (crc << 1) ^ 0x07
            } else {
                crc << 1
            };
            b += 1;
        }
        k += 1;
    }
    assert(data@.take(k as int) =~= data@);
    crc
}

/// The bytes of a level without the checksum.
pub open spec fn wire_body(l: &SokobanLevel) -> Seq<u8> {
    seq![l.width, l.height, (l.player_pos / 256) as u8, (l.player_pos % 256) as u8]
        + l.walls.bytes() + l.boxes.bytes() + l.goals.bytes()
}

/// The bytes of a level.
pub open spec fn wire(l: &SokobanLevel) -> Seq<u8> {
    wire_body(l).push(crc_of(wire_body(l)))
}

/// Number of bytes of a plane, by the dimensions that the data start with.
pub open spec fn wire_plane(data: Seq<u8>) -> int {
    plane_bytes(data[0] as int, data[1] as int)
}

/// What is wrong with the data, if anything.
pub open spec fn wire_error(data: Seq<u8>) -> Option<LevelError> {
    if data.len() < 5 {
        Some(LevelError::DataTooShort)
    } else if crc_of(data.drop_last()) != data.last() {
        Some(LevelError::CrcMismatch)
    } else if data.len() - 1 < 4 + 3 * wire_plane(data) {
        Some(LevelError::DataTruncated)
    } else {
        None
    }
}

/// The level is the one that the data hold.
pub open spec fn wire_reads(data: Seq<u8>, l: &SokobanLevel) -> bool {
    let p = wire_plane(data);
    &&& l.wf()
    &&& l.width == data[0]
    &&& l.height == data[1]
    &&& l.player_pos == 256 * data[2] + data[3]
    &&& l.walls.bytes() == data.subrange(4, 4 + p)
    &&& l.boxes.bytes() == data.subrange(4 + p, 4 + 2 * p)
    &&& l.goals.bytes() == data.subrange(4 + 2 * p, 4 + 3 * p)
}

/// The plane in the given part of the data.
fn plane_at(data: &[u8], width: u8, height: u8, from: usize, to: usize) -> (r: BitPlane)
    requires
        from <= to <= data@.len(),
        to - from == plane_bytes(width as int, height as int),
    ensures
        r.wf(),
        r.width == width,
        r.height == height,
        r.bytes() == data@.subrange(from as int, to as int),
{
    let part = slice_subrange(data, from, to);
    assert(part@.take(to - from) =~= part@);
    BitPlane::from_bytes(width, height, part).unwrap()
}

impl SokobanLevel {
    /// Read a level from the bytes that `to_bytes` gives.
    pub fn from_bytes(data: &[u8]) -> (r: Result<SokobanLevel, LevelError>)
        ensures
            match r {
                Ok(l) => wire_error(data@) is None && wire_reads(data@, &l),
                Err(e) => wire_error(data@) == Some(e),
            },
    {
        if data.len() < 5 {
            return Err(LevelError::DataTooShort);
        }
        let n: usize = data.len() - 1;
        let body = slice_subrange(data, 0, n);
        assert(body@ =~= data@.drop_last());
        if crc8(body) != data[n] {
            return Err(LevelError::CrcMismatch);
        }
        let width = data[0];
        let height = data[1];
        let (hi, lo) = (data[2], data[3]);
        let player_pos: u16 = ((hi as u16) << 8) | lo as u16;
        assert(((hi as u16) << 8) | (lo as u16) == 256 * hi + lo) by (bit_vector);
        let plane: usize = (cell_count(width, height) + 7) / 8;
        let needed: usize = 4 + plane * 3;
        if n < needed {
            return Err(LevelError::DataTruncated);
        }
        let walls = plane_at(data, width, height, 4, 4 + plane);
        let boxes = plane_at(data, width, height, 4 + plane, 4 + plane * 2);
        let goals = plane_at(data, width, height, 4 + plane * 2, needed);
        Ok(SokobanLevel { width, height, walls, boxes, goals, player_pos })
    }

    /// Write the level as bytes that end with a checksum.
    pub fn to_bytes(&self) -> (out: Vec<u8>)
        ensures
            out@ == wire(self),
    {
        let pos = self.player_pos;
        let hi = (pos >> 8) as u8;
        let lo = pos as u8;
        assert((pos >> 8) as u8 == (pos / 256) as u8 && pos as u8 == (pos % 256) as u8)
            by (bit_vector);
        let mut out: Vec<u8> = Vec::new();
        out.push(self.width);
        out.push(self.height);
        out.push(hi);
        out.push(lo);
        out.extend_from_slice(self.walls.as_bytes());
        out.extend_from_slice(self.boxes.as_bytes());
        out.extend_from_slice(self.goals.as_bytes());
        assert(out@ =~= wire_body(self));
        let crc = crc8(out.as_slice());
        out.push(crc);
        out
    }
}

// ── Laws ──────────────────────────────────────────────────────────────────

/// Reading the bytes of a level gives the level back.
pub proof fn law_bytes_round_trip(l: &SokobanLevel)
    requires
        l.wf(),
    ensures
        wire_error(wire(l)) is None,
        forall|again: &SokobanLevel| #[trigger]
            wire_reads(wire(l), again) ==> again.width == l.width && again.height == l.height
                && again.player_pos == l.player_pos && again.walls.bytes() == l.walls.bytes()
                && again.boxes.bytes() == l.boxes.bytes() && again.goals.bytes()
                == l.goals.bytes(),
{
    let data = wire(l);
    let p = wire_plane(data);
    assert(data.drop_last() =~= wire_body(l));
    assert(data[0] == l.width && data[1] == l.height);
    assert(data.subrange(4, 4 + p) =~= l.walls.bytes());
    assert(data.subrange(4 + p, 4 + 2 * p) =~= l.boxes.bytes());
    assert(data.subrange(4 + 2 * p, 4 + 3 * p) =~= l.goals.bytes());
    let pos = l.player_pos;
    assert(256 * ((pos / 256) as u8) + ((pos % 256) as u8) == pos) by (bit_vector);
}

/// Different registers stay different.
proof fn lemma_crc_bits_injective(a: u8, b: u8, n: nat)
    requires
        crc_bits(a, n) == crc_bits(b, n),
    ensures
        a == b,
    decreases n,
{
    if n > 0 {
        let x = crc_bits(a, (n - 1) as nat);
        let y = crc_bits(b, (n - 1) as nat);
        assert((if x & 0x80 != 0 {
            (x << 1) ^ 0x07
        } else {
            x << 1
        }) == (if y & 0x80 != 0 {
            (y << 1) ^ 0x07
        } else {
            y << 1
        }) ==> x == y) by (bit_vector);
        lemma_crc_bits_injective(a, b, (n - 1) as nat);
    }
}

/// Data that differ in one byte have different checksums.
proof fn lemma_crc_differs(a: Seq<u8>, b: Seq<u8>, i: int)
    requires
        a.len() == b.len(),
        0 <= i < a.len(),
        a[i] != b[i],
        forall|k: int| 0 <= k < a.len() && k != i ==> a[k] == b[k],
    ensures
        crc_of(a) != crc_of(b),
    decreases a.len(),
{
    let n = a.len() - 1;
    let (p, q) = (crc_of(a.drop_last()), crc_of(b.drop_last()));
    let (x, y) = (a[n], b[n]);
    if i == n {
        assert(a.drop_last() =~= b.drop_last());
        assert(p ^ x == p ^ y ==> x == y) by (bit_vector);
    } else {
        lemma_crc_differs(a.drop_last(), b.drop_last(), i);
        assert(p ^ x == q ^ x ==> p == q) by (bit_vector);
    }
    if crc_of(a) == crc_of(b) {
        lemma_crc_bits_injective(p ^ x, q ^ y, 8);
    }
}

/// Bytes of a level with one of them changed are refused for their checksum.
pub proof fn law_corruption_is_detected(l: &SokobanLevel, data: Seq<u8>, i: int)
    requires
        l.wf(),
        data.len() == wire(l).len(),
        0 <= i < data.len(),
        data[i] != wire(l)[i],
        forall|k: int| 0 <= k < data.len() && k != i ==> data[k] == wire(l)[k],
    ensures
        wire_error(data) == Some(LevelError::CrcMismatch),
{
    let good = wire(l);
    let n = data.len() - 1;
    assert(good.drop_last() =~= wire_body(l));
    if i == n {
        assert(data.drop_last() =~= good.drop_last());
    } else {
        lemma_crc_differs(data.drop_last(), good.drop_last(), i);
    }
}

/// The bytes of a level begin with its dimensions and the player's position, the higher byte
/// first. Then the walls, the boxes and the goals follow, each row after row with eight cells to a
/// byte, the first cell in the highest bit. A checksum ends them.
pub proof fn law_bytes_are_laid_out(l: &SokobanLevel, x: int, y: int)
    requires
        l.wf(),
        0 <= x < l.width,
        0 <= y < l.height,
    ensures
        ({
            let data = wire(l);
            let plane = (l.width * l.height + 7) / 8;
            let i = y * l.width + x;
            let mask: u8 = 0x80u8 >> ((i % 8) as u8);
            &&& data.len() == 5 + 3 * plane
            &&& data[0] == l.width
            &&& data[1] == l.height
            &&& 256 * data[2] + data[3] == l.player_pos
            &&& 0 <= i / 8 < plane
            &&& data[4 + i / 8] & mask != 0 <==> has_wall(l, x, y)
            &&& data[4 + plane + i / 8] & mask != 0 <==> has_box(l, x, y)
            &&& data[4 + 2 * plane + i / 8] & mask != 0 <==> has_goal(l, x, y)
            &&& data.last() == crc_of(data.drop_last())
        }),
{
    let data = wire(l);
    let plane = plane_bytes(l.width as int, l.height as int);
    let i = y * l.width + x;
    lemma_flat(l.width as int, l.height as int, x, y);
    assert(data.drop_last() =~= wire_body(l));
    assert(data[0] == l.width && data[1] == l.height);
    let pos = l.player_pos;
    assert(256 * ((pos / 256) as u8) + ((pos % 256) as u8) == pos) by (bit_vector);
    lemma_mask(data[4 + i / 8], i % 8);
    lemma_mask(data[4 + plane + i / 8], i % 8);
    lemma_mask(data[4 + 2 * plane + i / 8], i % 8);
    assert(data[4 + i / 8] == l.walls.bytes()[i / 8]);
    assert(data[4 + plane + i / 8] == l.boxes.bytes()[i / 8]);
    assert(data[4 + 2 * plane + i / 8] == l.goals.bytes()[i / 8]);
}

/// A bit of a byte by its mask.
proof fn lemma_mask(b: u8, k: int)
    requires
        0 <= k < 8,
    ensures
        bit_of(b, k) <==> b & (0x80u8 >> (k as u8)) != 0,
{
    let t = k as u8;
    let s = (7 - k) as u8;
    assert(b & (1u8 << s) == b & (0x80u8 >> t)) by (bit_vector)
        requires
            t < 8,
            s == 7 - t,
    ;
}

/// The bits of a register that is the difference of two.
proof fn lemma_crc_bits_linear(a: u8, b: u8, n: nat)
    ensures
        crc_bits(a ^ b, n) == crc_bits(a, n) ^ crc_bits(b, n),
    decreases n,
{
    if n > 0 {
        lemma_crc_bits_linear(a, b, (n - 1) as nat);
        let x = crc_bits(a, (n - 1) as nat);
        let y = crc_bits(b, (n - 1) as nat);
        assert((if (x ^ y) & 0x80 != 0 {
            ((x ^ y) << 1) ^ 0x07
        } else {
            (x ^ y) << 1
        }) == (if x & 0x80 != 0 {
            (x << 1) ^ 0x07
        } else {
            x << 1
        }) ^ (if y & 0x80 != 0 {
            (y << 1) ^ 0x07
        } else {
            y << 1
        })) by (bit_vector);
    }
}

/// The checksum is the remainder by the generator, which is 0x107: it is 0 for data that end with
/// their own checksum and for no other end, that of the sum of two data of one length is the sum of
/// theirs, and that of a single lowest bit is what the generator has below its highest.
pub proof fn law_checksum_is_a_remainder(data: Seq<u8>, end: u8, other: Seq<u8>)
    requires
        data.len() == other.len(),
    ensures
        crc_of(data.push(end)) == 0 <==> end == crc_of(data),
        crc_of(Seq::new(data.len(), |k: int| data[k] ^ other[k])) == crc_of(data) ^ crc_of(other),
        crc_of(seq![1u8]) == 0x07,
        crc_of(seq![0u8] + data) == crc_of(data),
    decreases data.len(),
{
    let c = crc_of(data);
    assert(data.push(end).drop_last() =~= data);
    lemma_crc_of_zero();
    assert(c ^ end == 0 <==> c == end) by (bit_vector);
    if crc_of(data.push(end)) == 0 {
        lemma_crc_bits_injective(c ^ end, 0, 8);
    }
    lemma_crc_of_one();
    let both = Seq::new(data.len(), |k: int| data[k] ^ other[k]);
    if data.len() > 0 {
        law_checksum_is_a_remainder(data.drop_last(), end, other.drop_last());
        assert(both.drop_last() =~= Seq::new(
            (data.len() - 1) as nat,
            |k: int| data.drop_last()[k] ^ other.drop_last()[k],
        ));
        let (p, q) = (crc_of(data.drop_last()), crc_of(other.drop_last()));
        let (a, b) = (data.last(), other.last());
        lemma_crc_bits_linear(p ^ a, q ^ b, 8);
        assert((p ^ q) ^ (a ^ b) == (p ^ a) ^ (q ^ b)) by (bit_vector);
        assert((seq![0u8] + data).drop_last() =~= seq![0u8] + data.drop_last());
    } else {
        let zero = seq![0u8].last();
        assert(c ^ zero == 0) by (bit_vector)
            requires
                c == 0,
                zero == 0,
        ;
        assert(seq![0u8] + data =~= seq![0u8]);
        assert(seq![0u8].drop_last() =~= data);
    }
}

proof fn lemma_crc_of_zero()
    ensures
        crc_bits(0, 8) == 0,
{
    lemma_crc_zero_bits(8);
}

proof fn lemma_crc_zero_bits(n: nat)
    ensures
        crc_bits(0, n) == 0,
    decreases n,
{
    if n > 0 {
        lemma_crc_zero_bits((n - 1) as nat);
        assert(0u8 & 0x80 == 0 && 0u8 << 1 == 0) by (bit_vector);
    }
}

proof fn lemma_crc_of_one()
    ensures
        crc_of(seq![1u8]) == 0x07,
{
    let (p, q) = (crc_of(Seq::<u8>::empty()), seq![1u8].last());
    assert(seq![1u8].drop_last() =~= Seq::<u8>::empty());
    assert(p ^ q == 1) by (bit_vector)
        requires
            p == 0,
            q == 1,
    ;
    assert(1u8 & 0x80 == 0 && 1u8 << 1 == 2 && 2u8 & 0x80 == 0 && 2u8 << 1 == 4 && 4u8 & 0x80 == 0
        && 4u8 << 1 == 8 && 8u8 & 0x80 == 0 && 8u8 << 1 == 16 && 16u8 & 0x80 == 0 && 16u8 << 1
        == 32 && 32u8 & 0x80 == 0 && 32u8 << 1 == 64 && 64u8 & 0x80 == 0 && 64u8 << 1 == 128
        && 128u8 & 0x80 != 0 && (128u8 << 1) ^ 0x07 == 0x07) by (bit_vector);
    assert(crc_bits(1, 0) == 1);
    assert(crc_bits(1, 1) == 2);
    assert(crc_bits(1, 2) == 4);
    assert(crc_bits(1, 3) == 8);
    assert(crc_bits(1, 4) == 16);
    assert(crc_bits(1, 5) == 32);
    assert(crc_bits(1, 6) == 64);
    assert(crc_bits(1, 7) == 128);
    assert(crc_bits(1, 8) == 7);
}

/// Data are refused for their length, for their checksum or for lack of planes, in this order, and
/// are read in any other case. What stands between the planes and the checksum does not count.
pub proof fn law_bytes_are_refused(data: Seq<u8>)
    ensures
        wire_error(data) == Some(LevelError::DataTooShort) <==> data.len() <= 4,
        wire_error(data) == Some(LevelError::CrcMismatch) <==> data.len() > 4 && crc_of(data) != 0,
        wire_error(data) == Some(LevelError::DataTruncated) <==> data.len() > 4 && crc_of(data) == 0
            && data.len() < 5 + 3 * ((data[0] * data[1] + 7) / 8),
        wire_error(data) is None <==> data.len() > 4 && crc_of(data) == 0 && data.len() >= 5 + 3 * ((
        data[0] * data[1] + 7) / 8),
{
    if data.len() > 4 {
        law_checksum_is_a_remainder(data.drop_last(), data.last(), data.drop_last());
        assert(data.drop_last().push(data.last()) =~= data);
    }
}

} // verus!
