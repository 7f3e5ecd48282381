//! Packed bit planes over a rectangular grid of cells.

use vstd::prelude::*;

verus! {

/// Bit `k` of a byte, counted from the most significant bit.
pub open spec fn bit_of(byte: u8, k: int) -> bool {
    byte & (1u8 << ((7 - k) as u8)) != 0
}

/// The bits of a byte string, most significant bit of each byte first.
pub open spec fn unpack(bytes: Seq<u8>) -> Seq<bool> {
    Seq::new((8 * bytes.len()) as nat, |i: int| bit_of(bytes[i / 8], i % 8))
}

/// Number of bytes that hold one bit for each cell of a `w` by `h` grid.
pub open spec fn plane_bytes(w: int, h: int) -> int {
    (w * h + 7) / 8
}

/// Position of cell `(x, y)` in a row-major plane of width `w`.
pub open spec fn flat(w: int, x: int, y: int) -> int {
    y * w + x
}

/// The cells `(x, y)` of the first `n` positions of a plane of width `w` whose bit is set,
/// in row-major order.
pub open spec fn set_cells(bits: Seq<bool>, w: int, n: nat) -> Seq<(u8, u8)>
    decreases n,
{
    if n == 0 {
        Seq::empty()
    } else {
        let i = n - 1;
        let before = set_cells(bits, w, i as nat);
        if bits[i] {
            before.push(((i % w) as u8, (i / w) as u8))
        } else {
            before
        }
    }
}

/// A packed bitplane for a W×H grid.
/// Bits are stored MSB-first: bit 0 of byte 0 is cell (0,0).
#[derive(Debug, PartialEq, Eq, Hash)]
pub struct BitPlane {
    pub width: u8,
    pub height: u8,
    pub data: Vec<u8>,
}

/// Product of two grid dimensions.
pub fn cell_count(width: u8, height: u8) -> (r: usize)
    ensures
        r == width * height,
        r <= 65025,
{
    proof {
        lemma_dims(width as int, height as int);
    }
    width as usize * height as usize
}

/// Bounds of the product of two byte-sized dimensions.
pub proof fn lemma_dims(w: int, h: int)
    requires
        0 <= w <= 255,
        0 <= h <= 255,
    ensures
        0 <= w * h <= 65025,
{
    assert(0 <= w * h <= 65025) by (nonlinear_arith)
        requires
            0 <= w <= 255,
            0 <= h <= 255,
    ;
}

/// A cell of the grid lies within the first `w * h` positions, and is recovered from its
/// position by division.
pub proof fn lemma_flat(w: int, h: int, x: int, y: int)
    requires
        0 <= x < w,
        0 <= y < h,
    ensures
        0 <= flat(w, x, y) < w * h,
        flat(w, x, y) % w == x,
        flat(w, x, y) / w == y,
{
    assert(0 <= y * w + x < w * h) by (nonlinear_arith)
        requires
            0 <= x < w,
            0 <= y < h,
    ;
    vstd::arithmetic::div_mod::lemma_fundamental_div_mod_converse(flat(w, x, y), w, y, x);
}

/// Every position of the grid is the position of a cell of it.
pub proof fn lemma_unflat(w: int, h: int, i: int)
    requires
        0 < w,
        0 <= i < w * h,
    ensures
        0 <= i % w < w,
        0 <= i / w < h,
        flat(w, i % w, i / w) == i,
{
    vstd::arithmetic::div_mod::lemma_fundamental_div_mod(i, w);
    assert(0 <= i / w < h) by (nonlinear_arith)
        requires
            0 < w,
            0 <= i < w * h,
            i == w * (i / w) + i % w,
            0 <= i % w < w,
    ;
    assert(w * (i / w) == (i / w) * w) by (nonlinear_arith);
}

/// Setting a bit sets that bit and leaves the others.
proof fn lemma_set_bit(b: u8, k: u8, m: u8)
    requires
        k < 8,
        m < 8,
    ensures
        bit_of(b | (1u8 << ((7 - k) as u8)), m as int) == (m == k || bit_of(b, m as int)),
{
    let s = (7 - k) as u8;
    let t = (7 - m) as u8;
    assert(((b | (1u8 << s)) & (1u8 << t) != 0) == (s == t || b & (1u8 << t) != 0)) by (bit_vector)
        requires
            s < 8,
            t < 8,
    ;
}

/// Clearing a bit clears that bit and leaves the others.
proof fn lemma_clear_bit(b: u8, k: u8, m: u8)
    requires
        k < 8,
        m < 8,
    ensures
        bit_of(b & !(1u8 << ((7 - k) as u8)), m as int) == (m != k && bit_of(b, m as int)),
{
    let s = (7 - k) as u8;
    let t = (7 - m) as u8;
    assert(((b & !(1u8 << s)) & (1u8 << t) != 0) == (s != t && b & (1u8 << t) != 0)) by (bit_vector)
        requires
            s < 8,
            t < 8,
    ;
}

/// A byte is determined by its eight bits.
proof fn lemma_byte_ext(a: u8, b: u8)
    requires
        forall|k: int| 0 <= k < 8 ==> bit_of(a, k) == bit_of(b, k),
    ensures
        a == b,
{
    assert(bit_of(a, 0) == bit_of(b, 0));
    assert(bit_of(a, 1) == bit_of(b, 1));
    assert(bit_of(a, 2) == bit_of(b, 2));
    assert(bit_of(a, 3) == bit_of(b, 3));
    assert(bit_of(a, 4) == bit_of(b, 4));
    assert(bit_of(a, 5) == bit_of(b, 5));
    assert(bit_of(a, 6) == bit_of(b, 6));
    assert(bit_of(a, 7) == bit_of(b, 7));
    assert(a == b) by (bit_vector)
        requires
            (a & (1u8 << 7u8) != 0) == (b & (1u8 << 7u8) != 0),
            (a & (1u8 << 6u8) != 0) == (b & (1u8 << 6u8) != 0),
            (a & (1u8 << 5u8) != 0) == (b & (1u8 << 5u8) != 0),
            (a & (1u8 << 4u8) != 0) == (b & (1u8 << 4u8) != 0),
            (a & (1u8 << 3u8) != 0) == (b & (1u8 << 3u8) != 0),
            (a & (1u8 << 2u8) != 0) == (b & (1u8 << 2u8) != 0),
            (a & (1u8 << 1u8) != 0) == (b & (1u8 << 1u8) != 0),
            (a & (1u8 << 0u8) != 0) == (b & (1u8 << 0u8) != 0),
    ;
}

/// A byte string is determined by its bits.
pub proof fn lemma_unpack_injective(a: Seq<u8>, b: Seq<u8>)
    requires
        unpack(a) == unpack(b),
    ensures
        a == b,
{
    assert(unpack(a).len() == 8 * a.len());
    assert(unpack(b).len() == 8 * b.len());
    assert forall|i: int| 0 <= i < a.len() implies a[i] == b[i] by {
        assert forall|k: int| 0 <= k < 8 implies bit_of(a[i], k) == bit_of(b[i], k) by {
            let p = 8 * i + k;
            assert(p / 8 == i && p % 8 == k);
            assert(unpack(a)[p] == bit_of(a[p / 8], p % 8));
            assert(unpack(b)[p] == bit_of(b[p / 8], p % 8));
        }
        lemma_byte_ext(a[i], b[i]);
    }
    assert(a =~= b);
}

impl View for BitPlane {
    type V = Seq<bool>;

    /// One bit for each stored position; the positions past the last cell pad the last byte.
    open spec fn view(&self) -> Seq<bool> {
        unpack(self.bytes())
    }
}

impl Clone for BitPlane {
    fn clone(&self) -> (r: Self)
        ensures
            r.width == self.width,
            r.height == self.height,
            r.bytes() == self.bytes(),
    {
        let data = self.data.clone();
        assert(data@ =~= self.data@);
        BitPlane { width: self.width, height: self.height, data }
    }
}

impl BitPlane {
    /// The packed bytes.
    pub open spec fn bytes(&self) -> Seq<u8> {
        self.data@
    }

    /// The plane stores exactly the bytes that its dimensions call for.
    pub open spec fn wf(&self) -> bool {
        self.bytes().len() == plane_bytes(self.width as int, self.height as int)
    }

    /// Number of cells.
    pub open spec fn cells(&self) -> int {
        self.width * self.height
    }

    /// Bit of cell `(x, y)`.
    pub open spec fn at(&self, x: int, y: int) -> bool {
        self@[flat(self.width as int, x, y)]
    }

    /// An all-clear plane.
    pub fn new(width: u8, height: u8) -> (r: Self)
        ensures
            r.wf(),
            r.width == width,
            r.height == height,
            r@ == Seq::new((8 * plane_bytes(width as int, height as int)) as nat, |i: int| false),
    {
        let cells = cell_count(width, height);
        let n: usize = (cells + 7) / 8;
        let data: Vec<u8> = vec![0u8; n];
        let r = BitPlane { width, height, data };
        proof {
            assert forall|i: int| 0 <= i < 8 * n implies !(#[trigger] r@[i]) by {
                let t = (7 - i % 8) as u8;
                assert(data@[i / 8] == 0);
                assert(0u8 & (1u8 << t) == 0) by (bit_vector);
            }
            assert(r@ =~= Seq::new(
                (8 * plane_bytes(width as int, height as int)) as nat,
                |i: int| false,
            ));
        }
        r
    }

    fn idx(width: u8, x: u8, y: u8) -> (r: usize)
        ensures
            r == flat(width as int, x as int, y as int),
    {
        let row = cell_count(y, width);
        row + x as usize
    }

    /// Set the bit of cell `(x, y)`.
    pub fn set(&mut self, x: u8, y: u8)
        requires
            flat(old(self).width as int, x as int, y as int) < old(self)@.len(),
        ensures
            final(self).width == old(self).width,
            final(self).height == old(self).height,
            final(self).bytes().len() == old(self).bytes().len(),
            final(self)@ == old(self)@.update(
                flat(old(self).width as int, x as int, y as int),
                true,
            ),
    {
        let i = Self::idx(self.width, x, y);
        let b = self.data[i / 8];
        let v = b | (1u8 << (7 - (i % 8) as u8));
        self.data[i / 8] = v;
        proof {
            assert forall|j: int| 0 <= j < self@.len() implies self@[j] == old(self)@.update(
                i as int,
                true,
            )[j] by {
                if j / 8 == i as int / 8 {
                    lemma_set_bit(b, (i % 8) as u8, (j % 8) as u8);
                }
            }
            assert(self@ =~= old(self)@.update(i as int, true));
        }
    }

    /// Clear the bit of cell `(x, y)`.
    pub fn clear(&mut self, x: u8, y: u8)
        requires
            flat(old(self).width as int, x as int, y as int) < old(self)@.len(),
        ensures
            final(self).width == old(self).width,
            final(self).height == old(self).height,
            final(self).bytes().len() == old(self).bytes().len(),
            final(self)@ == old(self)@.update(
                flat(old(self).width as int, x as int, y as int),
                false,
            ),
    {
        let i = Self::idx(self.width, x, y);
        let b = self.data[i / 8];
        let v = b & !(1u8 << (7 - (i % 8) as u8));
        self.data[i / 8] = v;
        proof {
            assert forall|j: int| 0 <= j < self@.len() implies self@[j] == old(self)@.update(
                i as int,
                false,
            )[j] by {
                if j / 8 == i as int / 8 {
                    lemma_clear_bit(b, (i % 8) as u8, (j % 8) as u8);
                }
            }
            assert(self@ =~= old(self)@.update(i as int, false));
        }
    }

    /// Bit of cell `(x, y)`.
    pub fn get(&self, x: u8, y: u8) -> (r: bool)
        requires
            flat(self.width as int, x as int, y as int) < self@.len(),
        ensures
            r == self.at(x as int, y as int),
    {
        let i = Self::idx(self.width, x, y);
        self.get_flat(i)
    }

    /// Bit at a row-major position.
    pub fn get_flat(&self, i: usize) -> (r: bool)
        requires
            i < self@.len(),
        ensures
            r == self@[i as int],
    {
        self.data[i / 8] & (1u8 << (7 - (i % 8) as u8)) != 0
    }

    /// Number of cells.
    pub fn len(&self) -> (r: usize)
        ensures
            r == self.cells(),
    {
        cell_count(self.width, self.height)
    }

    /// The packed bytes.
    pub fn as_bytes(&self) -> (r: &[u8])
        ensures
            r@ == self.bytes(),
    {
        self.data.as_slice()
    }

    /// A plane that takes its bits from the front of `bytes`; `None` when there are too few.
    pub fn from_bytes(width: u8, height: u8, bytes: &[u8]) -> (r: Option<Self>)
        ensures
            r is None <==> bytes@.len() < plane_bytes(width as int, height as int),
            r matches Some(p) ==> {
                &&& p.wf()
                &&& p.width == width
                &&& p.height == height
                &&& p.bytes() == bytes@.take(plane_bytes(width as int, height as int))
            },
    {
        let cells = cell_count(width, height);
        let expected: usize = (cells + 7) / 8;
        if bytes.len() < expected {
            return None;
        }
        let data = vstd::slice::slice_to_vec(vstd::slice::slice_subrange(bytes, 0, expected));
        assert(data@ =~= bytes@.take(expected as int));
        Some(BitPlane { width, height, data })
    }

    /// The `(x, y)` of every set bit, in row-major order.
    pub fn iter_set_bits(&self) -> (r: Vec<(u8, u8)>)
        requires
            self.wf(),
        ensures
            r@ == set_cells(self@, self.width as int, self.cells() as nat),
    {
        let total = self.len();
        let mut out: Vec<(u8, u8)> = Vec::new();
        let mut i: usize = 0;
        while i < total
            invariant
                self.wf(),
                total == self.cells(),
                i <= total,
                out@ == set_cells(self@, self.width as int, i as nat),
            decreases total - i,
        {
            proof {
                if self.width == 0 {
                    assert(self.width * self.height == 0) by (nonlinear_arith)
                        requires
                            self.width == 0,
                    ;
                }
                lemma_unflat(self.width as int, self.height as int, i as int);
            }
            if self.get_flat(i) {
                let w = self.width as usize;
                out.push(((i % w) as u8, (i / w) as u8));
            }
            i += 1;
        }
        out
    }
}

/// The cells that are set are listed in the order of their positions, each of them once and no
/// other.
pub proof fn law_set_cells_are_in_order(bits: Seq<bool>, w: int, n: nat)
    requires
        0 < w <= 255,
        n <= bits.len(),
        n <= 255 * w,
    ensures
        forall|j: int, k: int|
            0 <= j < k < set_cells(bits, w, n).len() ==> place(
                #[trigger] set_cells(bits, w, n)[j],
                w,
            ) < place(#[trigger] set_cells(bits, w, n)[k], w),
        forall|j: int|
            0 <= j < set_cells(bits, w, n).len() ==> {
                let cell = #[trigger] set_cells(bits, w, n)[j];
                cell.0 < w && 0 <= place(cell, w) < n && bits[place(cell, w)]
            },
        forall|i: int|
            0 <= i < n && #[trigger] bits[i] ==> set_cells(bits, w, n).contains(
                ((i % w) as u8, (i / w) as u8),
            ),
    decreases n,
{
    if n > 0 {
        let i = n - 1;
        law_set_cells_are_in_order(bits, w, i as nat);
        let before = set_cells(bits, w, i as nat);
        let all = set_cells(bits, w, n);
        lemma_unflat(w, 255, i);
        let cell = ((i % w) as u8, (i / w) as u8);
        assert(place(cell, w) == i);
        assert forall|k: int| 0 <= k < n && #[trigger] bits[k] implies all.contains(
            ((k % w) as u8, (k / w) as u8),
        ) by {
            if k < i {
                let other = ((k % w) as u8, (k / w) as u8);
                assert(before.contains(other));
                let j = choose|j: int| 0 <= j < before.len() && before[j] == other;
                assert(all[j] == other);
            } else {
                assert(all.last() == cell);
            }
        }
    }
}

/// The position of a cell.
pub open spec fn place(cell: (u8, u8), w: int) -> int {
    cell.1 * w + cell.0
}

} // verus!
