//! Run-length encoding of planes.
//!
//! The cells of a plane are alternating runs, first of clear bits, then of set bits. A run is
//! written in nibbles, the higher nibble of a byte first: 15 means that 15 cells and the next
//! nibble belong to the run, anything less ends it. Each run starts with a byte of its own.

use vstd::prelude::*;
use vstd::slice::slice_subrange;

use crate::bitplane::{cell_count, plane_bytes, BitPlane};
use crate::grid::cell_of;

verus! {

/// Nibble `k` of a run.
pub open spec fn run_nibble(run: int, k: int) -> int {
    if k < run / 15 {
        15
    } else if k == run / 15 {
        run % 15
    } else {
        0
    }
}

/// The bytes of a run.
pub open spec fn run_bytes(run: int) -> Seq<u8> {
    Seq::new(
        ((run / 15 + 2) / 2) as nat,
        |j: int| (16 * run_nibble(run, 2 * j) + run_nibble(run, 2 * j + 1)) as u8,
    )
}

/// Number of bits from `i` on that equal `current`, among the first `n`.
pub open spec fn run_length(bits: Seq<bool>, i: int, n: int, current: bool) -> int
    decreases n - i,
{
    if i >= n || bits[i] != current {
        0
    } else {
        1 + run_length(bits, i + 1, n, current)
    }
}

/// The bytes of the bits from `i` to `n`, the first run being of bits `current`.
pub open spec fn encoded(bits: Seq<bool>, i: int, n: int, current: bool) -> Seq<u8>
    decreases n - i, (if i < n && bits[i] != current {
        1int
    } else {
        0
    }),
    via encoded_decreases
{
    let run = run_length(bits, i, n, current);
    if i + run < n {
        run_bytes(run) + encoded(bits, i + run, n, !current)
    } else {
        run_bytes(run)
    }
}

#[via_fn]
proof fn encoded_decreases(bits: Seq<bool>, i: int, n: int, current: bool) {
    lemma_run_length(bits, i, n, current);
}

proof fn lemma_run_length(bits: Seq<bool>, i: int, n: int, current: bool)
    ensures
        0 <= run_length(bits, i, n, current),
        i <= n ==> i + run_length(bits, i, n, current) <= n,
        forall|k: int| i <= k < i + run_length(bits, i, n, current) ==> bits[k] == current,
        i + run_length(bits, i, n, current) < n ==> bits[i + run_length(bits, i, n, current)]
            != current,
        i < n && bits[i] == current ==> run_length(bits, i, n, current) > 0,
    decreases n - i,
{
    if i < n && bits[i] == current {
        lemma_run_length(bits, i + 1, n, current);
    }
}

/// Nibble `k` of some bytes.
pub open spec fn nibble(data: Seq<u8>, k: int) -> int {
    if k % 2 == 0 {
        (data[k / 2] / 16) as int
    } else {
        (data[k / 2] % 16) as int
    }
}

/// The cells of the run from nibble `k` on, and the nibble after it. A run that the data cut
/// short ends with them.
pub open spec fn run_from(data: Seq<u8>, k: int) -> (int, int)
    decreases 2 * data.len() - k,
{
    if k >= 2 * data.len() {
        (0, k)
    } else if nibble(data, k) < 15 {
        (nibble(data, k), k + 1)
    } else {
        (15 + run_from(data, k + 1).0, run_from(data, k + 1).1)
    }
}

/// The first run of some bytes.
pub open spec fn first_run(data: Seq<u8>) -> int {
    run_from(data, 0).0
}

/// The bytes after the first run.
pub open spec fn after_run(data: Seq<u8>) -> Seq<u8> {
    data.skip((run_from(data, 0).1 + 1) / 2)
}

/// The data hold runs of `n` cells or more, and no run among them is longer than a 32-bit number
/// can say.
pub open spec fn is_complete(data: Seq<u8>, n: int) -> bool
    decreases data.len(),
{
    n <= 0 || (data.len() > 0 && first_run(data) <= u32::MAX && after_run(data).len() < data.len()
        && is_complete(after_run(data), n - first_run(data)))
}

/// The first `n` cells that the data hold, the first run being of bits `current`.
pub open spec fn decoded(data: Seq<u8>, current: bool, n: int) -> Seq<bool>
    decreases data.len(),
{
    let run = first_run(data);
    if n <= run || after_run(data).len() >= data.len() {
        Seq::new(n as nat, |i: int| current)
    } else {
        Seq::new(run as nat, |i: int| current) + decoded(after_run(data), !current, n - run)
    }
}

proof fn lemma_run_from(data: Seq<u8>, k: int)
    requires
        0 <= k,
    ensures
        0 <= run_from(data, k).0,
        k <= 2 * data.len() ==> k <= run_from(data, k).1 <= 2 * data.len(),
        k < 2 * data.len() ==> k < run_from(data, k).1,
        run_from(data, k).0 <= 15 * (run_from(data, k).1 - k),
        15 * (run_from(data, k).1 - k - 1) <= run_from(data, k).0,
    decreases 2 * data.len() - k,
{
    if k < 2 * data.len() && nibble(data, k) >= 15 {
        lemma_run_from(data, k + 1);
    }
}

/// The nibbles of a run.
fn nibbles_of(run: u32) -> (r: Vec<u8>)
    ensures
        r@.len() == run / 15 + 1,
        forall|k: int| 0 <= k < r@.len() ==> #[trigger] r@[k] == run_nibble(run as int, k),
{
    let mut r: Vec<u8> = Vec::new();
    let mut left: u32 = run;
    while left >= 15
        invariant
            left == run - 15 * r@.len(),
            forall|k: int| 0 <= k < r@.len() ==> #[trigger] r@[k] == 15,
        decreases left,
    {
        r.push(15);
        left -= 15;
    }
    r.push(left as u8);
    r
}

/// Append the bytes of a run.
pub fn encode_run(out: &mut Vec<u8>, run: u32)
    ensures
        final(out)@ == old(out)@ + run_bytes(run as int),
{
    let nibbles = nibbles_of(run);
    let ghost all = run_bytes(run as int);
    let mut j: usize = 0;
    assert(out@ =~= old(out)@ + all.take(0));
    while 2 * j < nibbles.len()
        invariant
            nibbles@.len() == run / 15 + 1,
            nibbles@.len() <= 0x1fff_ffff,
            forall|i: int|
                0 <= i < nibbles@.len() ==> #[trigger] nibbles@[i] == run_nibble(run as int, i),
            all == run_bytes(run as int),
            j <= all.len(),
            out@ == old(out)@ + all.take(j as int),
        decreases all.len() - j,
    {
        let hi = nibbles[2 * j];
        let lo = if 2 * j + 1 < nibbles.len() {
            nibbles[2 * j + 1]
        } else {
            0
        };
        assert(hi == run_nibble(run as int, 2 * j));
        assert(lo == run_nibble(run as int, 2 * j + 1));
        assert((hi << 4) | lo == 16 * hi + lo) by (bit_vector)
            requires
                hi < 16,
                lo < 16,
        ;
        out.push((hi << 4) | lo);
        j += 1;
        proof {
            assert(all.take(j as int) =~= all.take(j - 1).push(all[j - 1]));
            assert(out@ =~= old(out)@ + all.take(j as int));
        }
    }
    assert(all.take(j as int) =~= all);
}

/// The run that starts with nibble `nibble_idx`, and the nibble after it.
pub fn decode_run(data: &[u8], nibble_idx: usize) -> (r: Option<(u32, usize)>)
    requires
        run_from(data@, nibble_idx as int).0 <= u32::MAX,
        run_from(data@, nibble_idx as int).1 <= usize::MAX,
    ensures
        r matches Some(next) && next.0 == run_from(data@, nibble_idx as int).0 && next.1
            == run_from(data@, nibble_idx as int).1,
{
    let ghost d = data@;
    let ghost target = run_from(d, nibble_idx as int);
    let mut k: usize = nibble_idx;
    let mut run: u32 = 0;
    let mut ended = false;
    while !ended && k / 2 < data.len()
        invariant
            d == data@,
            target.0 <= u32::MAX,
            target.1 <= usize::MAX,
            ended ==> target == (run as int, k as int),
            !ended ==> target.0 == run + run_from(d, k as int).0 && target.1 == run_from(
                d,
                k as int,
            ).1,
        decreases 2 * d.len() - k, (if ended {
            0int
        } else {
            1
        }),
    {
        let b = data[k / 2];
        let v: u8 = if k % 2 == 0 {
            (b >> 4) & 0xF
        } else {
            b & 0xF
        };
        assert(b & 0xF == b % 16 && (b >> 4) & 0xF == b / 16) by (bit_vector);
        proof {
            assert(v == nibble(d, k as int));
            lemma_run_from(d, k as int);
            lemma_run_from(d, k + 1);
        }
        run = run + v as u32;
        k += 1;
        if v < 15 {
            ended = true;
        }
    }
    Some((run, k))
}

/// The plane holds the first cells of some bits, and nothing else.
spec fn filled(p: &BitPlane, bits: Seq<bool>, n: int) -> bool {
    forall|i: int|
        0 <= i < p@.len() ==> #[trigger] p@[i] == (i < n && bits[i])
}

impl BitPlane {
    /// The cells of the plane as alternating runs of clear and set bits.
    pub fn rle_encode(&self) -> (out: Vec<u8>)
        requires
            self.wf(),
        ensures
            out@ == encoded(self@, 0, self.cells(), false),
    {
        let total = self.len();
        let ghost n = total as int;
        proof {
            crate::bitplane::lemma_dims(self.width as int, self.height as int);
        }
        let mut out: Vec<u8> = Vec::new();
        let mut current = false;
        let mut run: u32 = 0;
        let mut i: usize = 0;
        let ghost mut start: int = 0;
        assert(out@ + encoded(self@, 0, n, false) =~= encoded(self@, 0, n, false));
        while i < total
            invariant
                self.wf(),
                total == self.cells(),
                n == total,
                total <= 65025,
                0 <= start <= i <= total,
                run == i - start,
                forall|k: int| start <= k < i ==> self@[k] == current,
                out@ + encoded(self@, start, n, current) == encoded(self@, 0, n, false),
            decreases total - i,
        {
            if self.get_flat(i) == current {
                run += 1;
            } else {
                proof {
                    lemma_run_is(self@, start, n, current, i as int);
                    assert(encoded(self@, start, n, current) == run_bytes(run as int) + encoded(
                        self@,
                        i as int,
                        n,
                        !current,
                    ));
                }
                let ghost before = out@;
                encode_run(&mut out, run);
                current = !current;
                run = 1;
                proof {
                    assert(out@ + encoded(self@, i as int, n, current) =~= before + (run_bytes(
                        i - start,
                    ) + encoded(self@, i as int, n, current)));
                    start = i as int;
                }
            }
            i += 1;
        }
        proof {
            lemma_run_is(self@, start, n, current, n);
            assert(encoded(self@, start, n, current) == run_bytes(run as int));
        }
        encode_run(&mut out, run);
        out
    }

    /// The plane of some alternating runs of clear and set bits.
    pub fn rle_decode(width: u8, height: u8, data: &[u8]) -> (r: Option<Self>)
        requires
            is_complete(data@, width * height),
        ensures
            r matches Some(p) && p.wf() && p.width == width && p.height == height && p@ == decoded(
                data@,
                false,
                width * height,
            ) + Seq::new(
                (8 * plane_bytes(width as int, height as int) - width * height) as nat,
                |i: int| false,
            ),
    {
        let total = cell_count(width, height);
        let ghost n = total as int;
        let ghost bits = decoded(data@, false, n);
        let mut plane = BitPlane::new(width, height);
        let mut current = false;
        let mut flat: usize = 0;
        let mut at: usize = 0;
        proof {
            assert(data@.skip(0) =~= data@);
            lemma_decoded_len(data@, false, n);
            assert(bits.skip(0) =~= bits);
        }
        while flat < total
            invariant
                n == total,
                total == width * height,
                flat <= total,
                at <= data@.len(),
                bits == decoded(data@, false, n),
                bits.len() == n,
                is_complete(data@.skip(at as int), n - flat),
                bits.skip(flat as int) == decoded(data@.skip(at as int), current, n - flat),
                plane.wf(),
                plane.width == width,
                plane.height == height,
                filled(&plane, bits, flat as int),
            decreases data@.len() - at,
        {
            let ghost rest = data@.skip(at as int);
            proof {
                lemma_run_from(rest, 0);
            }
            let (run, end) = match decode_run(slice_subrange(data, at, data.len()), 0) {
                Some(r) => r,
                None => {
                    return None;
                },
            };
            // The next run starts with a byte of its own.
            let next: usize = at + end / 2 + end % 2;
            let ghost start = flat as int;
            let stop: usize = if run as usize >= total - flat {
                total
            } else {
                flat + run as usize
            };
            proof {
                assert(data@.skip(next as int) =~= after_run(rest));
                let more = decoded(after_run(rest), !current, n - start - run);
                if run < n - start {
                    lemma_decoded_len(after_run(rest), !current, n - start - run);
                }
                assert forall|i: int| start <= i < stop implies #[trigger] bits[i] == current by {
                    assert(bits.skip(start)[i - start] == bits[i]);
                }
                if run >= n - start {
                    lemma_run_from(after_run(rest), 0);
                    assert(bits.skip(stop as int) =~= decoded(after_run(rest), !current, 0));
                } else {
                    assert(bits.skip(stop as int) =~= more) by {
                        assert(bits.skip(stop as int) =~= bits.skip(start).skip(run as int));
                    }
                }
            }
            while flat < stop
                invariant
                    n == total,
                    total == width * height,
                    start <= flat <= stop <= total,
                    bits.len() == n,
                    forall|i: int| start <= i < stop ==> #[trigger] bits[i] == current,
                    plane.wf(),
                    plane.width == width,
                    plane.height == height,
                    filled(&plane, bits, flat as int),
                decreases stop - flat,
            {
                if current {
                    let (x, y) = cell_of(width, height, flat);
                    plane.set(x, y);
                }
                assert(bits[flat as int] == current);
                flat += 1;
            }
            at = next;
            current = !current;
        }
        proof {
            assert(plane@ =~= bits + Seq::new(
                (8 * plane_bytes(width as int, height as int) - width * height) as nat,
                |i: int| false,
            ));
        }
        Some(plane)
    }
}

proof fn lemma_decoded_len(data: Seq<u8>, current: bool, n: int)
    requires
        0 <= n,
    ensures
        decoded(data, current, n).len() == n,
    decreases data.len(),
{
    lemma_run_from(data, 0);
    let run = first_run(data);
    if n > run && after_run(data).len() < data.len() {
        lemma_decoded_len(after_run(data), !current, n - run);
    }
}

/// The length of a run that is known to its end.
proof fn lemma_run_is(bits: Seq<bool>, i: int, n: int, current: bool, e: int)
    requires
        i <= e <= n,
        forall|k: int| i <= k < e ==> bits[k] == current,
        e < n ==> bits[e] != current,
    ensures
        run_length(bits, i, n, current) == e - i,
    decreases e - i,
{
    if i < e {
        lemma_run_is(bits, i + 1, n, current, e);
    }
}

// ── Laws ──────────────────────────────────────────────────────────────────

/// A run is read as it was written, from nibble `k` on.
proof fn lemma_run_read(run: int, rest: Seq<u8>, k: int)
    requires
        0 <= run,
        0 <= k <= run / 15,
    ensures
        run_from(run_bytes(run) + rest, k) == (run - 15 * k, run / 15 + 1),
    decreases run / 15 - k,
{
    let data = run_bytes(run) + rest;
    let b = run_bytes(run);
    assert(k / 2 < b.len());
    assert(data[k / 2] == b[k / 2]);
    assert(nibble(data, k) == run_nibble(run, k));
    if k < run / 15 {
        lemma_run_read(run, rest, k + 1);
    }
}

/// A run is read back as it was written, to the nibble, and what follows it is left.
pub proof fn law_run_is_read_back(run: int, rest: Seq<u8>)
    requires
        0 <= run,
    ensures
        run_from(run_bytes(run), 0) == (run, run / 15 + 1),
        run_from(run_bytes(run) + rest, 0) == (run, run / 15 + 1),
        first_run(run_bytes(run) + rest) == run,
        after_run(run_bytes(run) + rest) == rest,
{
    lemma_run_read(run, Seq::empty(), 0);
    assert(run_bytes(run) + Seq::<u8>::empty() =~= run_bytes(run));
    lemma_run_read(run, rest, 0);
    assert((run / 15 + 1 + 1) / 2 == run_bytes(run).len());
    assert((run_bytes(run) + rest).skip(run_bytes(run).len() as int) =~= rest);
}

proof fn lemma_decode_encoded(bits: Seq<bool>, i: int, n: int, current: bool)
    requires
        0 <= i <= n <= bits.len(),
        n <= u32::MAX,
    ensures
        is_complete(encoded(bits, i, n, current), n - i),
        decoded(encoded(bits, i, n, current), current, n - i) == bits.subrange(i, n),
    decreases n - i, (if i < n && bits[i] != current {
        1int
    } else {
        0
    }),
{
    let run = run_length(bits, i, n, current);
    lemma_run_length(bits, i, n, current);
    let data = encoded(bits, i, n, current);
    if i + run < n {
        let rest = encoded(bits, i + run, n, !current);
        law_run_is_read_back(run, rest);
        lemma_decode_encoded(bits, i + run, n, !current);
        assert(is_complete(after_run(data), n - i - run));
        assert(bits.subrange(i, n) =~= Seq::new(run as nat, |k: int| current) + bits.subrange(
            i + run,
            n,
        ));
    } else {
        assert(data + Seq::<u8>::empty() =~= data);
        law_run_is_read_back(run, Seq::empty());
        assert(is_complete(after_run(data), n - i - run));
        assert(bits.subrange(i, n) =~= Seq::new((n - i) as nat, |k: int| current));
    }
}

/// Decoding the runs of a plane gives its cells back.
pub proof fn law_rle_round_trip(p: &BitPlane)
    requires
        p.wf(),
    ensures
        is_complete(encoded(p@, 0, p.cells(), false), p.cells()),
        decoded(encoded(p@, 0, p.cells(), false), false, p.cells()) == p@.take(p.cells()),
{
    crate::bitplane::lemma_dims(p.width as int, p.height as int);
    lemma_decode_encoded(p@, 0, p.cells(), false);
    assert(p@.subrange(0, p.cells()) =~= p@.take(p.cells()));
}

/// The nibbles of a run add up to it: fifteens, and one below fifteen that ends the run. A nibble
/// that is left over is zero.
pub proof fn law_run_is_written_in_fifteens(run: int)
    requires
        0 <= run,
    ensures
        ({
            let data = run_bytes(run);
            let whole = run / 15;
            &&& forall|k: int| 0 <= k < whole ==> #[trigger] nibble(data, k) == 15
            &&& nibble(data, whole) == run - 15 * whole < 15
            &&& 2 * data.len() == whole + 1 || 2 * data.len() == whole + 2 && nibble(data, whole + 1)
                == 0
        }),
{
    let data = run_bytes(run);
    let whole = run / 15;
    assert forall|k: int| 0 <= k < 2 * data.len() implies #[trigger] nibble(data, k) == run_nibble(
        run,
        k,
    ) by {
        assert(k / 2 < data.len());
        assert(k == 2 * (k / 2) + k % 2);
    }
}

/// A plane is written run after run, clear cells first: the first run is as long as no other cell
/// comes, and the rest is written as what is left, beginning with the other kind of cell.
pub proof fn law_runs_alternate(bits: Seq<bool>, i: int, n: int, current: bool)
    requires
        0 <= i < n <= bits.len(),
    ensures
        ({
            let data = encoded(bits, i, n, current);
            let end = i + first_run(data);
            &&& i <= end <= n
            &&& forall|k: int| i <= k < end ==> #[trigger] bits[k] == current
            &&& end < n ==> bits[end] != current && after_run(data) == encoded(
                bits,
                end,
                n,
                !current,
            )
            &&& end == n ==> after_run(data).len() == 0
        }),
{
    let run = run_length(bits, i, n, current);
    lemma_run_length(bits, i, n, current);
    if i + run < n {
        law_run_is_read_back(run, encoded(bits, i + run, n, !current));
    } else {
        law_run_is_read_back(run, Seq::empty());
        assert(run_bytes(run) + Seq::<u8>::empty() =~= run_bytes(run));
    }
}

/// Data are read run after run: as many cells as the first run says are alike, and those after them
/// are what the rest of the data hold, beginning with the other kind of cell.
pub proof fn law_runs_are_read_in_turn(run: int, rest: Seq<u8>, current: bool, n: int, k: int)
    requires
        0 <= run <= u32::MAX,
        0 <= k < n,
        is_complete(run_bytes(run) + rest, n),
    ensures
        decoded(run_bytes(run) + rest, current, n).len() == n,
        k < run ==> decoded(run_bytes(run) + rest, current, n)[k] == current,
        k >= run ==> is_complete(rest, n - run) && decoded(run_bytes(run) + rest, current, n)[k]
            == decoded(rest, !current, n - run)[k - run],
{
    law_run_is_read_back(run, rest);
    lemma_decoded_len(run_bytes(run) + rest, current, n);
}

} // verus!
