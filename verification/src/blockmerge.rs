//! Partition of a set of configurations into subcubes.
use vstd::prelude::*;

use crate::bits;
use crate::contract;
use crate::order;
use crate::seqs;

verus! {

/// The configurations that have the bits of `val` wherever `mask` is set.
#[derive(Clone, Copy, Debug, PartialEq, Eq, Structural)]
pub struct Subcube {
    pub mask: u64,
    pub val: u64,
}

impl Subcube {
    /// `x` is in the subcube.
    pub open spec fn has(self, x: u64) -> bool {
        forall|i: int| 0 <= i < 64 && #[trigger] bits::bit(self.mask, i) ==> bits::bit(x, i) == bits::bit(self.val, i)
    }

    /// Whether `x` is in the subcube.
    pub fn holds(&self, x: u64) -> (r: bool)
        ensures
            r == self.has(x),
    {
        let diff: u64 = (x ^ self.val) & self.mask;
        proof {
            broadcast use bits::group_bits;

            if diff == 0 {
                assert forall|i: int| 0 <= i < 64 && #[trigger] bits::bit(self.mask, i) implies bits::bit(x, i) == bits::bit(self.val, i) by {
                    assert(!bits::bit(diff, i));
                    assert(bits::bit(diff, i) == (bits::bit(x ^ self.val, i) && bits::bit(self.mask, i)));
                }
            }
            if self.has(x) {
                assert forall|i: int| 0 <= i < 64 implies #[trigger] bits::bit(diff, i) == bits::bit(0u64, i) by {
                    if bits::bit(self.mask, i) {
                        assert(bits::bit(x, i) == bits::bit(self.val, i));
                    }
                }
                bits::lemma_bits_equal(diff, 0);
            }
        }
        diff == 0
    }
}

/// The coordinates below `i` that are free.
pub open spec fn free_below(mask: u64, i: int) -> nat
    decreases i,
{
    if i <= 0 {
        0
    } else {
        free_below(mask, i - 1) + (if bits::bit(mask, i - 1) {
            0nat
        } else {
            1nat
        })
    }
}

/// `x` is in the subcube and free at most below `i`.
spec fn point_upto(c: Subcube, i: int, x: u64) -> bool {
    &&& c.has(x)
    &&& forall|j: int| i <= j < 64 && !#[trigger] bits::bit(c.mask, j) ==> !bits::bit(x, j)
}

/// All points of a subcube over `width` coordinates: counting up the free ones.
pub fn cube_points(mask: u64, val: u64, width: usize) -> (r: Vec<u64>)
    requires
        width <= 64,
        bits::below(mask, width as int),
    ensures
        r@.no_duplicates(),
        forall|x: u64| #[trigger] r@.contains(x) <==> (bits::below(x, width as int) && (Subcube { mask, val }).has(x)),
        r@.len() == vstd::arithmetic::power2::pow2(free_below(mask, width as int)),
{
    broadcast use bits::group_bits;

    let ghost c = Subcube { mask, val };
    let base: u64 = val & mask;
    let mut pts: Vec<u64> = vec![base];
    assert(pts@ =~= seq![base]);
    let mut i: usize = 0;
    proof {
        vstd::arithmetic::power2::lemma2_to64();
        assert(pts@[0] == base);
        assert forall|x: u64| #[trigger] pts@.contains(x) <==> point_upto(c, 0, x) by {
            if pts@.contains(x) {
                assert(x == base);
            }
            if point_upto(c, 0, x) {
                assert forall|j: int| 0 <= j < 64 implies #[trigger] bits::bit(x, j) == bits::bit(base, j) by {
                    assert(bits::bit(base, j) == (bits::bit(val, j) && bits::bit(mask, j)));
                    assert(bits::bit(c.mask, j) == bits::bit(mask, j));
                }
                bits::lemma_bits_equal(x, base);
            }
        }
    }
    while i < width
        invariant
            i <= width <= 64,
            c == (Subcube { mask, val }),
            pts@.no_duplicates(),
            forall|x: u64| #[trigger] pts@.contains(x) <==> point_upto(c, i as int, x),
            pts@.len() == vstd::arithmetic::power2::pow2(free_below(mask, i as int)),
        decreases width - i,
    {
        if !bits::get_bit(mask, i) {
            let n: usize = pts.len();
            let ghost p0 = pts@;
            let mut k: usize = 0;
            while k < n
                invariant
                    i < 64,
                    k <= n == p0.len(),
                    pts@.len() == n + k,
                    !bits::bit(mask, i as int),
                    c == (Subcube { mask, val }),
                    forall|x: u64| #[trigger] p0.contains(x) <==> point_upto(c, i as int, x),
                    forall|q: int| 0 <= q < n ==> #[trigger] pts@[q] == p0[q],
                    forall|q: int| 0 <= q < k ==> sets_bit(p0[q], #[trigger] pts@[n + q], i as int),
                decreases n - k,
            {
                let p: u64 = bits::with_bit(pts[k], i);
                assert(sets_bit(p0[k as int], p, i as int));
                pts.push(p);
                k += 1;
            }
            proof {
                lemma_doubled(c, p0, pts@, i as int);
                vstd::arithmetic::power2::lemma_pow2_unfold(free_below(mask, i + 1));
            }
        } else {
            assert forall|x: u64| point_upto(c, i as int, x) <==> #[trigger] point_upto(c, i + 1, x) by {
                assert(bits::bit(c.mask, i as int));
            }
        }
        i += 1;
    }
    proof {
        assert forall|x: u64| #[trigger] pts@.contains(x) <==> (bits::below(x, width as int) && c.has(x)) by {
            if point_upto(c, width as int, x) {
                assert forall|j: int| width <= j < 64 implies !#[trigger] bits::bit(x, j) by {
                    assert(!bits::bit(c.mask, j));
                }
            }
        }
    }
    pts
}

/// `y` is `x` with coordinate `i` set.
spec fn sets_bit(x: u64, y: u64, i: int) -> bool {
    forall|j: int| 0 <= j < 64 ==> #[trigger] bits::bit(y, j) == (j == i || bits::bit(x, j))
}

proof fn lemma_doubled(c: Subcube, p0: Seq<u64>, p1: Seq<u64>, i: int)
    requires
        0 <= i < 64,
        !bits::bit(c.mask, i),
        p0.no_duplicates(),
        forall|x: u64| #[trigger] p0.contains(x) <==> point_upto(c, i, x),
        p1.len() == 2 * p0.len(),
        forall|q: int| 0 <= q < p0.len() ==> #[trigger] p1[q] == p0[q],
        forall|q: int| 0 <= q < p0.len() ==> sets_bit(p0[q], #[trigger] p1[p0.len() + q], i),
    ensures
        p1.no_duplicates(),
        forall|x: u64| #[trigger] p1.contains(x) <==> point_upto(c, i + 1, x),
{
    let n = p0.len() as int;
    assert forall|q: int| 0 <= q < n implies !bits::bit(#[trigger] p0[q], i) by {
        assert(p0.contains(p0[q]));
        assert(point_upto(c, i, p0[q]));
    }
    assert forall|x: u64| #[trigger] p1.contains(x) <==> point_upto(c, i + 1, x) by {
        if p1.contains(x) {
            let q = p1.index_of(x);
            if q < n {
                assert(p0.contains(p0[q]));
                assert(point_upto(c, i, x));
            } else {
                let y = p0[q - n];
                assert(p1[n + (q - n)] == x);
                assert(sets_bit(y, p1[n + (q - n)], i));
                assert(p0.contains(y));
                assert(point_upto(c, i, y));
                assert forall|j: int| 0 <= j < 64 && #[trigger] bits::bit(c.mask, j) implies bits::bit(x, j) == bits::bit(c.val, j) by {
                    assert(j != i);
                    assert(bits::bit(x, j) == bits::bit(y, j));
                }
                assert forall|j: int| i + 1 <= j < 64 && !#[trigger] bits::bit(c.mask, j) implies !bits::bit(x, j) by {
                    assert(bits::bit(x, j) == bits::bit(y, j));
                }
            }
        }
        if point_upto(c, i + 1, x) {
            if !bits::bit(x, i) {
                assert(point_upto(c, i, x));
                assert(p0.contains(x));
                let q = p0.index_of(x);
                assert(p1[q] == x);
            } else {
                broadcast use bits::group_bits;

                let y = x & !(1u64 << (i as u64));
                assert forall|j: int| 0 <= j < 64 implies #[trigger] bits::bit(y, j) == (bits::bit(x, j) && j != i) by {
                    assert(bits::bit(!(1u64 << (i as u64)), j) == !bits::bit(1u64 << (i as u64), j));
                }
                assert(point_upto(c, i, y)) by {
                    assert forall|j: int| 0 <= j < 64 && #[trigger] bits::bit(c.mask, j) implies bits::bit(y, j) == bits::bit(c.val, j) by {
                        assert(bits::bit(x, j) == bits::bit(c.val, j));
                    }
                    assert forall|j: int| i <= j < 64 && !#[trigger] bits::bit(c.mask, j) implies !bits::bit(y, j) by {}
                }
                assert(p0.contains(y));
                let q = p0.index_of(y);
                assert(sets_bit(p0[q], p1[n + q], i));
                assert forall|j: int| 0 <= j < 64 implies #[trigger] bits::bit(p1[n + q], j) == bits::bit(x, j) by {}
                bits::lemma_bits_equal(p1[n + q], x);
            }
        }
    }
    assert forall|a: int, b: int| 0 <= a < p1.len() && 0 <= b < p1.len() && a != b implies p1[a] != p1[b] by {
        if a < n && b < n {
            assert(p0[a] != p0[b]);
        } else if a < n {
            assert(sets_bit(p0[b - n], p1[n + (b - n)], i));
            assert(bits::bit(p1[b], i) && !bits::bit(p0[a], i));
        } else if b < n {
            assert(sets_bit(p0[a - n], p1[n + (a - n)], i));
            assert(bits::bit(p1[a], i) && !bits::bit(p0[b], i));
        } else if p1[a] == p1[b] {
            let x = p0[a - n];
            let y = p0[b - n];
            assert(sets_bit(x, p1[n + (a - n)], i));
            assert(sets_bit(y, p1[n + (b - n)], i));
            assert forall|j: int| 0 <= j < 64 implies #[trigger] bits::bit(x, j) == bits::bit(y, j) by {
                if j != i {
                    assert(bits::bit(p1[a], j) == bits::bit(x, j));
                    assert(bits::bit(p1[b], j) == bits::bit(y, j));
                }
            }
            bits::lemma_bits_equal(x, y);
        }
    }
}

/// Some of the first `upto` cubes has `x`.
pub open spec fn covered(cubes: Seq<Subcube>, upto: int, x: u64) -> bool {
    exists|k: int| 0 <= k < upto && (#[trigger] cubes[k]).has(x)
}

/// No two cubes share a point over `width` coordinates.
pub open spec fn disjoint(cubes: Seq<Subcube>, width: int) -> bool {
    forall|j: int, k: int, x: u64| 0 <= j < k < cubes.len() && bits::below(x, width) && #[trigger] cubes[j].has(x) ==> !#[trigger] cubes[k].has(x)
}

/// The cubes are disjoint and their points are exactly `configs`.
pub open spec fn partitions(configs: Seq<u64>, cubes: Seq<Subcube>, width: int) -> bool {
    &&& forall|k: int| 0 <= k < cubes.len() ==> bits::below((#[trigger] cubes[k]).mask, width)
    &&& forall|x: u64| bits::below(x, width) ==> (#[trigger] configs.contains(x) <==> covered(cubes, cubes.len() as int, x))
    &&& disjoint(cubes, width)
}

/// `x` is one of `configs` and in none of the first `upto` cubes.
pub open spec fn unclaimed(configs: Seq<u64>, cubes: Seq<Subcube>, upto: int, x: u64) -> bool {
    configs.contains(x) && !covered(cubes, upto, x)
}

/// Freeing coordinate `i` of `c` adds only unclaimed points.
pub open spec fn freeable(configs: Seq<u64>, cubes: Seq<Subcube>, upto: int, c: Subcube, width: int, i: int) -> bool {
    &&& bits::bit(c.mask, i)
    &&& forall|x: u64| bits::below(x, width) && #[trigger] (Subcube { mask: c.mask & !(1u64 << (i as u64)), val: c.val }).has(x) ==> unclaimed(configs, cubes, upto, x)
}

/// Cube `k` starts at the lowest unclaimed configuration and cannot be grown by any coordinate.
pub open spec fn maximal(configs: Seq<u64>, cubes: Seq<Subcube>, width: int, k: int) -> bool {
    &&& exists|s: int|
        {
            &&& 0 <= s < configs.len()
            &&& cubes[k].has(#[trigger] configs[s])
            &&& unclaimed(configs, cubes, k, configs[s])
            &&& forall|q: int| 0 <= q < s ==> !unclaimed(configs, cubes, k, #[trigger] configs[q])
        }
    &&& forall|i: int| 0 <= i < width ==> !#[trigger] freeable(configs, cubes, k, cubes[k], width, i)
}

/// Where `x` is in a sorted list.
fn find_config(configs: &[u64], x: u64) -> (r: Option<usize>)
    requires
        order::ascending64(configs@),
    ensures
        match r {
            Some(i) => i < configs@.len() && configs@[i as int] == x,
            None => !configs@.contains(x),
        },
{
    let mut lo: usize = 0;
    let mut hi: usize = configs.len();
    while lo < hi
        invariant
            lo <= hi <= configs@.len(),
            order::ascending64(configs@),
            forall|i: int| 0 <= i < lo ==> (#[trigger] configs@[i]) < x,
            forall|i: int| hi <= i < configs@.len() ==> (#[trigger] configs@[i]) > x,
        decreases hi - lo,
    {
        let mid: usize = lo + (hi - lo) / 2;
        if configs[mid] == x {
            return Some(mid);
        }
        if configs[mid] < x {
            lo = mid + 1;
        } else {
            hi = mid;
        }
    }
    None
}

/// `claimed` marks the configurations that the first cubes have.
spec fn marks(configs: Seq<u64>, cubes: Seq<Subcube>, claimed: Seq<bool>) -> bool {
    &&& claimed.len() == configs.len()
    &&& forall|i: int| 0 <= i < configs.len() ==> #[trigger] claimed[i] == covered(cubes, cubes.len() as int, configs[i])
}

/// Whether `x` is unclaimed.
fn is_unclaimed(configs: &[u64], claimed: &Vec<bool>, x: u64, Ghost(cubes): Ghost<Seq<Subcube>>) -> (r: bool)
    requires
        order::ascending64(configs@),
        marks(configs@, cubes, claimed@),
    ensures
        r == unclaimed(configs@, cubes, cubes.len() as int, x),
{
    match find_config(configs, x) {
        Some(i) => {
            assert(configs@.contains(configs@[i as int]));
            !claimed[i]
        },
        None => false,
    }
}

/// Whether coordinate `i` can be freed: all points of the cube, with that coordinate flipped,
/// are unclaimed.
fn can_free(configs: &[u64], claimed: &Vec<bool>, mask: u64, val: u64, width: usize, i: usize, Ghost(cubes): Ghost<Seq<Subcube>>) -> (r: bool)
    requires
        order::ascending64(configs@),
        marks(configs@, cubes, claimed@),
        i < width <= 64,
        bits::below(mask, width as int),
        forall|x: u64| bits::below(x, width as int) && #[trigger] (Subcube { mask, val }).has(x) ==> unclaimed(configs@, cubes, cubes.len() as int, x),
    ensures
        r == freeable(configs@, cubes, cubes.len() as int, Subcube { mask, val }, width as int, i as int),
{
    broadcast use bits::group_bits;

    if !bits::get_bit(mask, i) {
        return false;
    }
    let bit: u64 = 1u64 << (i as u64);
    let ghost c = Subcube { mask, val };
    let ghost g = Subcube { mask: mask & !bit, val };
    let pts = cube_points(mask, val, width);
    let mut k: usize = 0;
    proof {
        assert forall|j: int| 0 <= j < 64 implies #[trigger] bits::bit(g.mask, j) == (bits::bit(mask, j) && j != i) by {
            assert(bits::bit(!bit, j) == !bits::bit(bit, j));
        }
    }
    while k < pts.len()
        invariant
            order::ascending64(configs@),
            marks(configs@, cubes, claimed@),
            i < width <= 64,
            bit == 1u64 << (i as u64),
            c == (Subcube { mask, val }),
            g == (Subcube { mask: mask & !bit, val }),
            forall|j: int| 0 <= j < 64 ==> #[trigger] bits::bit(g.mask, j) == (bits::bit(mask, j) && j != i),
            forall|x: u64| #[trigger] pts@.contains(x) <==> (bits::below(x, width as int) && c.has(x)),
            k <= pts@.len(),
            forall|q: int| 0 <= q < k ==> unclaimed(configs@, cubes, cubes.len() as int, #[trigger] pts@[q] ^ bit),
        decreases pts.len() - k,
    {
        let p: u64 = pts[k];
        if !is_unclaimed(configs, claimed, p ^ bit, Ghost(cubes)) {
            proof {
                assert(pts@.contains(p));
                lemma_flip(c, g, p, i as int, width as int);
                assert(g.has(p ^ bit));
                if freeable(configs@, cubes, cubes.len() as int, c, width as int, i as int) {
                    assert((Subcube { mask: c.mask & !(1u64 << (i as u64)), val: c.val }).has(p ^ bit));
                }
            }
            return false;
        }
        k += 1;
    }
    proof {
        assert forall|x: u64| bits::below(x, width as int) && #[trigger] (Subcube { mask: c.mask & !(1u64 << (i as u64)), val: c.val }).has(x) implies unclaimed(configs@, cubes, cubes.len() as int, x) by {
            assert(g.has(x));
            if !c.has(x) {
                lemma_flip_back(c, g, x, i as int, width as int);
                let p = x ^ bit;
                assert(pts@.contains(p));
                let q = pts@.index_of(p);
                assert(pts@[q] ^ bit == x) by {
                    assert forall|j: int| 0 <= j < 64 implies #[trigger] bits::bit(p ^ bit, j) == bits::bit(x, j) by {
                        assert(bits::bit(p, j) == (bits::bit(x, j) != bits::bit(bit, j)));
                    }
                    bits::lemma_bits_equal(p ^ bit, x);
                }
            }
        }
    }
    true
}

proof fn lemma_flip(c: Subcube, g: Subcube, p: u64, i: int, width: int)
    requires
        0 <= i < width <= 64,
        g.val == c.val,
        forall|j: int| 0 <= j < 64 ==> #[trigger] bits::bit(g.mask, j) == (bits::bit(c.mask, j) && j != i),
        bits::below(p, width),
        c.has(p),
    ensures
        bits::below(p ^ (1u64 << (i as u64)), width),
        g.has(p ^ (1u64 << (i as u64))),
{
    broadcast use bits::group_bits;

    let y = p ^ (1u64 << (i as u64));
    assert forall|j: int| 0 <= j < 64 implies #[trigger] bits::bit(y, j) == (bits::bit(p, j) != (j == i)) by {}
    assert forall|j: int| 0 <= j < 64 && #[trigger] bits::bit(g.mask, j) implies bits::bit(y, j) == bits::bit(g.val, j) by {
        assert(bits::bit(c.mask, j));
    }
}

proof fn lemma_flip_back(c: Subcube, g: Subcube, x: u64, i: int, width: int)
    requires
        0 <= i < width <= 64,
        g.val == c.val,
        bits::bit(c.mask, i),
        forall|j: int| 0 <= j < 64 ==> #[trigger] bits::bit(g.mask, j) == (bits::bit(c.mask, j) && j != i),
        bits::below(x, width),
        g.has(x),
        !c.has(x),
    ensures
        bits::below(x ^ (1u64 << (i as u64)), width),
        c.has(x ^ (1u64 << (i as u64))),
{
    broadcast use bits::group_bits;

    let y = x ^ (1u64 << (i as u64));
    assert forall|j: int| 0 <= j < 64 implies #[trigger] bits::bit(y, j) == (bits::bit(x, j) != (j == i)) by {}
    let b = choose|b: int| 0 <= b < 64 && #[trigger] bits::bit(c.mask, b) && bits::bit(x, b) != bits::bit(c.val, b);
    assert(b == i) by {
        if b != i {
            assert(bits::bit(g.mask, b));
        }
    }
    assert forall|j: int| 0 <= j < 64 && #[trigger] bits::bit(c.mask, j) implies bits::bit(y, j) == bits::bit(c.val, j) by {
        if j != i {
            assert(bits::bit(g.mask, j));
        }
    }
}

/// Grow the cube of one configuration: free the lowest coordinate that can be freed, again and
/// again.
fn grow_cube(configs: &[u64], claimed: &Vec<bool>, seed: u64, width: usize, Ghost(cubes): Ghost<Seq<Subcube>>) -> (r: u64)
    requires
        order::ascending64(configs@),
        marks(configs@, cubes, claimed@),
        width <= 64,
        bits::below(seed, width as int),
        unclaimed(configs@, cubes, cubes.len() as int, seed),
    ensures
        bits::below(r, width as int),
        forall|x: u64| bits::below(x, width as int) && #[trigger] (Subcube { mask: r, val: seed }).has(x) ==> unclaimed(configs@, cubes, cubes.len() as int, x),
        forall|i: int| 0 <= i < width ==> !#[trigger] freeable(configs@, cubes, cubes.len() as int, Subcube { mask: r, val: seed }, width as int, i),
{
    broadcast use bits::group_bits;

    let mut mask: u64 = bits::full_mask(width);
    proof {
        let c = Subcube { mask, val: seed };
        assert forall|x: u64| bits::below(x, width as int) && #[trigger] c.has(x) implies unclaimed(configs@, cubes, cubes.len() as int, x) by {
            assert forall|j: int| 0 <= j < 64 implies #[trigger] bits::bit(x, j) == bits::bit(seed, j) by {
                if j < width {
                    assert(bits::bit(c.mask, j));
                }
            }
            bits::lemma_bits_equal(x, seed);
        }
    }
    let mut i: usize = 0;
    while i < width
        invariant
            order::ascending64(configs@),
            marks(configs@, cubes, claimed@),
            i <= width <= 64,
            bits::below(mask, width as int),
            forall|x: u64| bits::below(x, width as int) && #[trigger] (Subcube { mask, val: seed }).has(x) ==> unclaimed(configs@, cubes, cubes.len() as int, x),
            forall|q: int| 0 <= q < i ==> !#[trigger] freeable(configs@, cubes, cubes.len() as int, Subcube { mask, val: seed }, width as int, q),
        decreases bits::ones(mask), width - i,
    {
        if can_free(configs, claimed, mask, seed, width, i, Ghost(cubes)) {
            let ghost m0 = mask;
            mask = mask & !(1u64 << (i as u64));
            proof {
                broadcast use bits::group_bits;

                assert forall|j: int| 0 <= j < 64 implies #[trigger] bits::bit(mask, j) == (bits::bit(m0, j) && j != i) by {
                    assert(bits::bit(!(1u64 << (i as u64)), j) == !bits::bit(1u64 << (i as u64), j));
                }
                lemma_ones_less(mask, m0, i as int, 64);
            }
            i = 0;
        } else {
            i += 1;
        }
    }
    mask
}

pub proof fn lemma_ones_less(x: u64, y: u64, i: int, n: int)
    requires
        0 <= i < 64,
        0 <= n <= 64,
        bits::bit(y, i),
        forall|j: int| 0 <= j < 64 ==> #[trigger] bits::bit(x, j) == (bits::bit(y, j) && j != i),
    ensures
        bits::ones_upto(x, n) == bits::ones_upto(y, n) - (if i < n {
            1int
        } else {
            0int
        }),
    decreases n,
{
    if n > 0 {
        lemma_ones_less(x, y, i, n - 1);
    }
}

/// Partition `configs` into subcubes: from the lowest configuration that is not yet taken, the
/// largest cube that freeing coordinates in turn reaches.
pub fn block_merge(configs: &[u64], width: usize) -> (r: Vec<Subcube>)
    requires
        width <= 64,
        order::ascending64(configs@),
        contract::rows_below(configs@, width as int),
    ensures
        partitions(configs@, r@, width as int),
        r@.len() <= configs@.len(),
        forall|k: int| 0 <= k < r@.len() ==> #[trigger] maximal(configs@, r@, width as int, k),
        forall|k: int| 0 <= k < r@.len() ==> (#[trigger] r@[k]).val == r@[k].val & r@[k].mask,
{
    let mut claimed: Vec<bool> = Vec::new();
    while claimed.len() < configs.len()
        invariant
            claimed@.len() <= configs@.len(),
            forall|i: int| 0 <= i < claimed@.len() ==> !#[trigger] claimed@[i],
        decreases configs.len() - claimed.len(),
    {
        claimed.push(false);
    }
    let mut cubes: Vec<Subcube> = Vec::new();
    let mut s: usize = 0;
    while s < configs.len()
        invariant
            width <= 64,
            order::ascending64(configs@),
            contract::rows_below(configs@, width as int),
            s <= configs@.len(),
            cubes@.len() <= s,
            marks(configs@, cubes@, claimed@),
            forall|q: int| 0 <= q < s ==> covered(cubes@, cubes@.len() as int, #[trigger] configs@[q]),
            forall|k: int| 0 <= k < cubes@.len() ==> bits::below((#[trigger] cubes@[k]).mask, width as int),
            forall|k: int, x: u64| 0 <= k < cubes@.len() && bits::below(x, width as int) && #[trigger] cubes@[k].has(x) ==> configs@.contains(x),
            disjoint(cubes@, width as int),
            forall|k: int| 0 <= k < cubes@.len() ==> #[trigger] maximal(configs@, cubes@, width as int, k),
            forall|k: int| 0 <= k < cubes@.len() ==> (#[trigger] cubes@[k]).val == cubes@[k].val & cubes@[k].mask,
        decreases configs.len() - s,
    {
        if !claimed[s] {
            let seed: u64 = configs[s];
            let ghost c0 = cubes@;
            proof {
                assert(configs@.contains(configs@[s as int]));
                assert(bits::below(configs@[s as int], width as int));
            }
            let mask: u64 = grow_cube(configs, &claimed, seed, width, Ghost(cubes@));
            let cube = Subcube { mask, val: seed & mask };
            cubes.push(cube);
            proof {
                lemma_same_cube(mask, seed);
                assert forall|x: u64| bits::below(x, width as int) && #[trigger] cube.has(x) implies unclaimed(configs@, c0, c0.len() as int, x) by {
                    assert((Subcube { mask, val: seed }).has(x));
                }
                lemma_added(configs@, c0, cube, width as int, s as int, seed);
                assert(cubes@ =~= c0.push(cube));
            }
            let mut i: usize = 0;
            while i < configs.len()
                invariant
                    i <= configs@.len(),
                    claimed@.len() == configs@.len(),
                    cubes@ == c0.push(cube),
                    forall|q: int| 0 <= q < i ==> #[trigger] claimed@[q] == covered(cubes@, cubes@.len() as int, configs@[q]),
                    forall|q: int| i <= q < configs@.len() ==> #[trigger] claimed@[q] == covered(c0, c0.len() as int, configs@[q]),
                decreases configs.len() - i,
            {
                proof {
                    lemma_covered_push(c0, cube, configs@[i as int]);
                }
                if cube.holds(configs[i]) {
                    claimed.set(i, true);
                }
                i += 1;
            }
            proof {
                assert forall|q: int| 0 <= q < s + 1 implies covered(cubes@, cubes@.len() as int, #[trigger] configs@[q]) by {
                    lemma_covered_push(c0, cube, configs@[q]);
                    if q == s {
                        assert((Subcube { mask, val: seed }).has(seed));
                    }
                }
            }
        } else {
            assert(claimed@[s as int] == covered(cubes@, cubes@.len() as int, configs@[s as int]));
        }
        s += 1;
    }
    proof {
        assert forall|x: u64| bits::below(x, width as int) implies (#[trigger] configs@.contains(x) <==> covered(cubes@, cubes@.len() as int, x)) by {
            if configs@.contains(x) {
                let q = configs@.index_of(x);
                assert(covered(cubes@, cubes@.len() as int, configs@[q]));
            }
            if covered(cubes@, cubes@.len() as int, x) {
                let k = choose|k: int| 0 <= k < cubes@.len() && (#[trigger] cubes@[k]).has(x);
                assert(cubes@[k].has(x));
            }
        }
    }
    cubes
}

proof fn lemma_same_cube(mask: u64, val: u64)
    ensures
        forall|x: u64| (Subcube { mask, val: val & mask }).has(x) <==> #[trigger] (Subcube { mask, val }).has(x),
        val & mask == (val & mask) & mask,
{
    broadcast use bits::group_bits;

    let c = Subcube { mask, val: val & mask };
    let d = Subcube { mask, val };
    assert forall|j: int| 0 <= j < 64 && bits::bit(mask, j) implies #[trigger] bits::bit(c.val, j) == bits::bit(val, j) by {}
    assert forall|x: u64| c.has(x) <==> #[trigger] d.has(x) by {
        if c.has(x) {
            assert forall|i: int| 0 <= i < 64 && #[trigger] bits::bit(d.mask, i) implies bits::bit(x, i) == bits::bit(d.val, i) by {
                assert(bits::bit(c.mask, i));
            }
        }
        if d.has(x) {
            assert forall|i: int| 0 <= i < 64 && #[trigger] bits::bit(c.mask, i) implies bits::bit(x, i) == bits::bit(c.val, i) by {
                assert(bits::bit(d.mask, i));
            }
        }
    }
    assert forall|j: int| 0 <= j < 64 implies #[trigger] bits::bit(val & mask, j) == bits::bit((val & mask) & mask, j) by {}
    bits::lemma_bits_equal(val & mask, (val & mask) & mask);
}

proof fn lemma_covered_push(cubes: Seq<Subcube>, c: Subcube, x: u64)
    ensures
        covered(cubes.push(c), cubes.len() as int + 1, x) <==> (covered(cubes, cubes.len() as int, x) || c.has(x)),
        covered(cubes.push(c), cubes.len() as int, x) <==> covered(cubes, cubes.len() as int, x),
{
    let all = cubes.push(c);
    assert(all[cubes.len() as int] == c);
    if covered(cubes, cubes.len() as int, x) {
        let k = choose|k: int| 0 <= k < cubes.len() && (#[trigger] cubes[k]).has(x);
        assert(all[k].has(x));
    }
    if covered(all, cubes.len() as int, x) {
        let k = choose|k: int| 0 <= k < cubes.len() && (#[trigger] all[k]).has(x);
        assert(cubes[k].has(x));
    }
    if covered(all, cubes.len() as int + 1, x) {
        let k = choose|k: int| 0 <= k < cubes.len() + 1 && (#[trigger] all[k]).has(x);
        if k < cubes.len() {
            assert(cubes[k].has(x));
        }
    }
}

proof fn lemma_covered_prefix(cubes: Seq<Subcube>, c: Subcube, upto: int, x: u64)
    requires
        0 <= upto <= cubes.len(),
    ensures
        covered(cubes.push(c), upto, x) <==> covered(cubes, upto, x),
{
    let all = cubes.push(c);
    if covered(cubes, upto, x) {
        let k = choose|k: int| 0 <= k < upto && (#[trigger] cubes[k]).has(x);
        assert(all[k].has(x));
    }
    if covered(all, upto, x) {
        let k = choose|k: int| 0 <= k < upto && (#[trigger] all[k]).has(x);
        assert(cubes[k].has(x));
    }
}

proof fn lemma_added(configs: Seq<u64>, cubes: Seq<Subcube>, c: Subcube, width: int, s: int, seed: u64)
    requires
        bits::below(c.mask, width),
        0 <= s < configs.len(),
        configs[s] == seed,
        c.val == seed & c.mask,
        unclaimed(configs, cubes, cubes.len() as int, seed),
        forall|q: int| 0 <= q < s ==> covered(cubes, cubes.len() as int, #[trigger] configs[q]),
        forall|k: int| 0 <= k < cubes.len() ==> bits::below((#[trigger] cubes[k]).mask, width),
        forall|k: int, x: u64| 0 <= k < cubes.len() && bits::below(x, width) && #[trigger] cubes[k].has(x) ==> configs.contains(x),
        disjoint(cubes, width),
        forall|k: int| 0 <= k < cubes.len() ==> #[trigger] maximal(configs, cubes, width, k),
        forall|x: u64| bits::below(x, width) && #[trigger] c.has(x) ==> unclaimed(configs, cubes, cubes.len() as int, x),
        forall|i: int| 0 <= i < width ==> !#[trigger] freeable(configs, cubes, cubes.len() as int, Subcube { mask: c.mask, val: seed }, width, i),
        0 <= width <= 64,
    ensures
        forall|k: int| 0 <= k < cubes.push(c).len() ==> bits::below((#[trigger] cubes.push(c)[k]).mask, width),
        forall|k: int, x: u64| 0 <= k < cubes.push(c).len() && bits::below(x, width) && #[trigger] cubes.push(c)[k].has(x) ==> configs.contains(x),
        disjoint(cubes.push(c), width),
        forall|k: int| 0 <= k < cubes.push(c).len() ==> #[trigger] maximal(configs, cubes.push(c), width, k),
{
    let all = cubes.push(c);
    let n = cubes.len() as int;
    assert(all[n] == c);
    assert forall|k: int| 0 <= k < all.len() implies bits::below((#[trigger] all[k]).mask, width) by {
        if k < n {
            assert(all[k] == cubes[k]);
        }
    }
    assert forall|k: int, x: u64| 0 <= k < all.len() && bits::below(x, width) && #[trigger] all[k].has(x) implies configs.contains(x) by {
        if k < n {
            assert(cubes[k].has(x));
        }
    }
    assert(disjoint(all, width)) by {
        assert forall|j: int, k: int, x: u64| 0 <= j < k < all.len() && bits::below(x, width) && #[trigger] all[j].has(x) implies !#[trigger] all[k].has(x) by {
            assert(all[j] == cubes[j]);
            if k < n {
                assert(all[k] == cubes[k]);
            } else if c.has(x) {
                assert(unclaimed(configs, cubes, n, x));
                assert(cubes[j].has(x));
            }
        }
    }
    assert forall|k: int| 0 <= k < all.len() implies #[trigger] maximal(configs, all, width, k) by {
        if k < n {
            assert(maximal(configs, cubes, width, k));
            assert(all[k] == cubes[k]);
            lemma_maximal_prefix(configs, cubes, c, width, k);
        } else {
            lemma_same_cube(c.mask, seed);
            assert((Subcube { mask: c.mask, val: seed }).has(seed));
            assert(all[k].has(configs[s]));
            lemma_covered_prefix(cubes, c, n, configs[s]);
            assert forall|q: int| 0 <= q < s implies !unclaimed(configs, all, n, #[trigger] configs[q]) by {
                lemma_covered_prefix(cubes, c, n, configs[q]);
            }
            assert forall|i: int| 0 <= i < width implies !#[trigger] freeable(configs, all, n, all[n], width, i) by {
                assert(!freeable(configs, cubes, n, Subcube { mask: c.mask, val: seed }, width, i));
                if freeable(configs, all, n, c, width, i) {
                    lemma_freeable_same(configs, cubes, c, seed, width, i);
                }
            }
        }
    }
}

proof fn lemma_freeable_same(configs: Seq<u64>, cubes: Seq<Subcube>, c: Subcube, seed: u64, width: int, i: int)
    requires
        0 <= i < width <= 64,
        c.val == seed & c.mask,
        freeable(configs, cubes.push(c), cubes.len() as int, c, width, i),
    ensures
        freeable(configs, cubes, cubes.len() as int, Subcube { mask: c.mask, val: seed }, width, i),
{
    broadcast use bits::group_bits;

    let all = cubes.push(c);
    let n = cubes.len() as int;
    let m = c.mask & !(1u64 << (i as u64));
    let g = Subcube { mask: m, val: c.val };
    let h = Subcube { mask: m, val: seed };
    assert forall|x: u64| bits::below(x, width) && #[trigger] h.has(x) implies unclaimed(configs, cubes, n, x) by {
        assert(g.has(x)) by {
            assert forall|j: int| 0 <= j < 64 && #[trigger] bits::bit(g.mask, j) implies bits::bit(x, j) == bits::bit(g.val, j) by {
                assert(bits::bit(h.mask, j));
                assert(bits::bit(c.mask, j));
            }
        }
        assert((Subcube { mask: c.mask & !(1u64 << (i as u64)), val: c.val }).has(x));
        lemma_covered_prefix(cubes, c, n, x);
    }
}

proof fn lemma_maximal_prefix(configs: Seq<u64>, cubes: Seq<Subcube>, c: Subcube, width: int, k: int)
    requires
        0 <= k < cubes.len(),
        maximal(configs, cubes, width, k),
    ensures
        maximal(configs, cubes.push(c), width, k),
{
    let all = cubes.push(c);
    assert(all[k] == cubes[k]);
    let s = choose|s: int|
        {
            &&& 0 <= s < configs.len()
            &&& cubes[k].has(#[trigger] configs[s])
            &&& unclaimed(configs, cubes, k, configs[s])
            &&& forall|q: int| 0 <= q < s ==> !unclaimed(configs, cubes, k, #[trigger] configs[q])
        };
    assert(all[k].has(configs[s]));
    lemma_covered_prefix(cubes, c, k, configs[s]);
    assert forall|q: int| 0 <= q < s implies !unclaimed(configs, all, k, #[trigger] configs[q]) by {
        lemma_covered_prefix(cubes, c, k, configs[q]);
    }
    assert forall|i: int| 0 <= i < width implies !#[trigger] freeable(configs, all, k, all[k], width, i) by {
        assert(!freeable(configs, cubes, k, cubes[k], width, i));
        if freeable(configs, all, k, all[k], width, i) {
            assert forall|x: u64| bits::below(x, width) && #[trigger] (Subcube { mask: cubes[k].mask & !(1u64 << (i as u64)), val: cubes[k].val }).has(x) implies unclaimed(configs, cubes, k, x) by {
                lemma_covered_prefix(cubes, c, k, x);
                assert(unclaimed(configs, all, k, x));
            }
        }
    }
}

/// The points of a subcube as a list.
proof fn lemma_points(c: Subcube, n: int) -> (r: Seq<u64>)
    requires
        0 <= n <= 64,
    ensures
        r.no_duplicates(),
        forall|x: u64| #[trigger] r.contains(x) <==> point_upto(c, n, x),
        r.len() == vstd::arithmetic::power2::pow2(free_below(c.mask, n)),
    decreases n,
{
    broadcast use bits::group_bits;

    if n == 0 {
        vstd::arithmetic::power2::lemma2_to64();
        let base = c.val & c.mask;
        let r = seq![base];
        assert forall|x: u64| #[trigger] r.contains(x) <==> point_upto(c, 0, x) by {
            assert(r[0] == base);
            if point_upto(c, 0, x) {
                assert forall|j: int| 0 <= j < 64 implies #[trigger] bits::bit(x, j) == bits::bit(base, j) by {
                    assert(bits::bit(base, j) == (bits::bit(c.val, j) && bits::bit(c.mask, j)));
                    if bits::bit(c.mask, j) {
                        assert(bits::bit(x, j) == bits::bit(c.val, j));
                    }
                }
                bits::lemma_bits_equal(x, base);
            }
        }
        r
    } else {
        let p0 = lemma_points(c, n - 1);
        let i = n - 1;
        if bits::bit(c.mask, i) {
            assert forall|x: u64| point_upto(c, i, x) <==> #[trigger] point_upto(c, i + 1, x) by {
                assert(bits::bit(c.mask, i));
            }
            p0
        } else {
            let p1 = Seq::new(
                2 * p0.len(),
                |q: int|
                    if q < p0.len() {
                        p0[q]
                    } else {
                        p0[q - p0.len()] | (1u64 << (i as u64))
                    },
            );
            assert forall|q: int| 0 <= q < p0.len() implies sets_bit(p0[q], #[trigger] p1[p0.len() + q], i) by {
                assert(p1[p0.len() + q] == p0[q] | (1u64 << (i as u64)));
            }
            lemma_doubled(c, p0, p1, i);
            vstd::arithmetic::power2::lemma_pow2_unfold(free_below(c.mask, n));
            p1
        }
    }
}

/// How many of the first `upto` configurations the subcube has.
spec fn hits(configs: Seq<u64>, c: Subcube, upto: int) -> nat
    decreases upto,
{
    if upto <= 0 {
        0
    } else {
        hits(configs, c, upto - 1) + (if c.has(configs[upto - 1]) {
            1nat
        } else {
            0nat
        })
    }
}

/// How many of the first `upto` cubes have `x`.
pub open spec fn owners(cubes: Seq<Subcube>, x: u64, upto: int) -> nat
    decreases upto,
{
    if upto <= 0 {
        0
    } else {
        owners(cubes, x, upto - 1) + (if cubes[upto - 1].has(x) {
            1nat
        } else {
            0nat
        })
    }
}

/// The number of points of the first `upto` cubes, each counted on its own.
pub open spec fn points_of(cubes: Seq<Subcube>, width: int, upto: int) -> nat
    decreases upto,
{
    if upto <= 0 {
        0
    } else {
        points_of(cubes, width, upto - 1) + vstd::arithmetic::power2::pow2(free_below(cubes[upto - 1].mask, width))
    }
}

/// The number of hits of the first `upto` cubes among the first `n` configurations.
spec fn all_hits(configs: Seq<u64>, cubes: Seq<Subcube>, upto: int, n: int) -> nat
    decreases upto,
{
    if upto <= 0 {
        0
    } else {
        all_hits(configs, cubes, upto - 1, n) + hits(configs, cubes[upto - 1], n)
    }
}

proof fn lemma_all_hits_step(configs: Seq<u64>, cubes: Seq<Subcube>, upto: int, n: int)
    requires
        0 < n,
        0 <= upto,
    ensures
        all_hits(configs, cubes, upto, n) == all_hits(configs, cubes, upto, n - 1) + owners(cubes, configs[n - 1], upto),
    decreases upto,
{
    if upto > 0 {
        lemma_all_hits_step(configs, cubes, upto - 1, n);
    }
}

proof fn lemma_no_hits(configs: Seq<u64>, cubes: Seq<Subcube>, upto: int)
    ensures
        all_hits(configs, cubes, upto, 0) == 0,
    decreases upto,
{
    if upto > 0 {
        lemma_no_hits(configs, cubes, upto - 1);
    }
}

/// Where each configuration has one owner, the hits are the configurations.
proof fn lemma_hits_total(configs: Seq<u64>, cubes: Seq<Subcube>, n: int)
    requires
        0 <= n <= configs.len(),
        forall|q: int| 0 <= q < configs.len() ==> owners(cubes, #[trigger] configs[q], cubes.len() as int) == 1,
    ensures
        all_hits(configs, cubes, cubes.len() as int, n) == n,
    decreases n,
{
    if n > 0 {
        lemma_hits_total(configs, cubes, n - 1);
        lemma_all_hits_step(configs, cubes, cubes.len() as int, n);
        assert(owners(cubes, configs[n - 1], cubes.len() as int) == 1);
    } else {
        lemma_no_hits(configs, cubes, cubes.len() as int);
    }
}

/// The configurations that a subcube has, as a list.
proof fn lemma_hit_list(configs: Seq<u64>, c: Subcube, n: int) -> (r: Seq<u64>)
    requires
        0 <= n <= configs.len(),
        configs.no_duplicates(),
    ensures
        r.no_duplicates(),
        r.len() == hits(configs, c, n),
        forall|x: u64| #[trigger] r.contains(x) <==> (c.has(x) && configs.take(n).contains(x)),
    decreases n,
{
    if n == 0 {
        let r = Seq::<u64>::empty();
        assert forall|x: u64| #[trigger] r.contains(x) <==> (c.has(x) && configs.take(n).contains(x)) by {}
        r
    } else {
        let r0 = lemma_hit_list(configs, c, n - 1);
        let y = configs[n - 1];
        seqs::lemma_take_next(configs, n - 1);
        seqs::lemma_push_contains(configs.take(n - 1), y);
        seqs::lemma_push_contains(r0, y);
        if c.has(y) {
            assert(!r0.contains(y)) by {
                if r0.contains(y) {
                    let q = configs.take(n - 1).index_of(y);
                    assert(configs[q] == configs[n - 1]);
                }
            }
            let r = r0.push(y);
            assert(r.no_duplicates()) by {
                assert forall|a: int, b: int| 0 <= a < r.len() && 0 <= b < r.len() && a != b implies r[a] != r[b] by {
                    if a < r0.len() {
                        assert(r0.contains(r0[a]));
                    }
                    if b < r0.len() {
                        assert(r0.contains(r0[b]));
                    }
                }
            }
            r
        } else {
            r0
        }
    }
}

/// A subcube has at most its points; if it has as many, all its points are configurations.
proof fn lemma_hits_bound(configs: Seq<u64>, c: Subcube, width: int)
    requires
        0 <= width <= 64,
        bits::below(c.mask, width),
        configs.no_duplicates(),
        contract::rows_below(configs, width),
    ensures
        hits(configs, c, configs.len() as int) <= vstd::arithmetic::power2::pow2(free_below(c.mask, width)),
        hits(configs, c, configs.len() as int) == vstd::arithmetic::power2::pow2(free_below(c.mask, width)) ==> forall|x: u64| bits::below(x, width) && #[trigger] c.has(x) ==> configs.contains(x),
{
    let a = lemma_hit_list(configs, c, configs.len() as int);
    let b = lemma_points(c, width);
    seqs::lemma_take_all(configs);
    assert forall|k: int| 0 <= k < a.len() implies b.contains(#[trigger] a[k]) by {
        assert(a.contains(a[k]));
        let q = configs.index_of(a[k]);
        assert(bits::below(configs[q], width));
        assert(point_upto(c, width, a[k])) by {
            assert forall|j: int| width <= j < 64 && !#[trigger] bits::bit(c.mask, j) implies !bits::bit(a[k], j) by {}
        }
    }
    seqs::lemma_within(a, b);
    if hits(configs, c, configs.len() as int) == vstd::arithmetic::power2::pow2(free_below(c.mask, width)) {
        assert forall|x: u64| bits::below(x, width) && #[trigger] c.has(x) implies configs.contains(x) by {
            assert(point_upto(c, width, x)) by {
                assert forall|j: int| width <= j < 64 && !#[trigger] bits::bit(c.mask, j) implies !bits::bit(x, j) by {}
            }
            assert(b.contains(x));
            assert(a.contains(x));
        }
    }
}

/// Hits never exceed points, and where all agree each agrees.
proof fn lemma_hits_points(configs: Seq<u64>, cubes: Seq<Subcube>, width: int, upto: int)
    requires
        0 <= width <= 64,
        0 <= upto <= cubes.len(),
        configs.no_duplicates(),
        contract::rows_below(configs, width),
        forall|k: int| 0 <= k < cubes.len() ==> bits::below((#[trigger] cubes[k]).mask, width),
    ensures
        all_hits(configs, cubes, upto, configs.len() as int) <= points_of(cubes, width, upto),
        all_hits(configs, cubes, upto, configs.len() as int) == points_of(cubes, width, upto) <==> forall|k: int|
            0 <= k < upto ==> hits(configs, #[trigger] cubes[k], configs.len() as int) == vstd::arithmetic::power2::pow2(free_below(cubes[k].mask, width)),
    decreases upto,
{
    if upto > 0 {
        lemma_hits_points(configs, cubes, width, upto - 1);
        lemma_hits_bound(configs, cubes[upto - 1], width);
    }
}

/// Owners are one exactly if some cube has `x` and no two do.
proof fn lemma_owners(cubes: Seq<Subcube>, x: u64, upto: int)
    requires
        0 <= upto <= cubes.len(),
    ensures
        owners(cubes, x, upto) > 0 <==> covered(cubes, upto, x),
        owners(cubes, x, upto) <= 1 <==> forall|j: int, k: int| 0 <= j < k < upto && #[trigger] cubes[j].has(x) ==> !#[trigger] cubes[k].has(x),
    decreases upto,
{
    if upto > 0 {
        lemma_owners(cubes, x, upto - 1);
        if covered(cubes, upto - 1, x) {
            let k = choose|k: int| 0 <= k < upto - 1 && (#[trigger] cubes[k]).has(x);
            assert(cubes[k].has(x));
        }
        if cubes[upto - 1].has(x) {
            assert(covered(cubes, upto, x));
        }
    }
}

/// The cheap check is exact.
proof fn lemma_valid(configs: Seq<u64>, cubes: Seq<Subcube>, width: int)
    requires
        0 <= width <= 64,
        configs.no_duplicates(),
        contract::rows_below(configs, width),
        forall|k: int| 0 <= k < cubes.len() ==> bits::below((#[trigger] cubes[k]).mask, width),
    ensures
        partitions(configs, cubes, width) <==> (points_of(cubes, width, cubes.len() as int) == configs.len() && forall|q: int| 0 <= q < configs.len() ==> owners(cubes, #[trigger] configs[q], cubes.len() as int) == 1),
{
    let n = cubes.len() as int;
    lemma_hits_points(configs, cubes, width, n);
    if points_of(cubes, width, n) == configs.len() && forall|q: int| 0 <= q < configs.len() ==> owners(cubes, #[trigger] configs[q], n) == 1 {
        lemma_hits_total(configs, cubes, configs.len() as int);
        assert forall|k: int, x: u64| 0 <= k < n && bits::below(x, width) && #[trigger] cubes[k].has(x) implies configs.contains(x) by {
            assert(hits(configs, cubes[k], configs.len() as int) == vstd::arithmetic::power2::pow2(free_below(cubes[k].mask, width)));
            lemma_hits_bound(configs, cubes[k], width);
        }
        assert forall|x: u64| bits::below(x, width) implies (#[trigger] configs.contains(x) <==> covered(cubes, n, x)) by {
            if configs.contains(x) {
                let q = configs.index_of(x);
                assert(owners(cubes, configs[q], n) == 1);
                lemma_owners(cubes, x, n);
            }
            if covered(cubes, n, x) {
                let k = choose|k: int| 0 <= k < n && (#[trigger] cubes[k]).has(x);
                assert(cubes[k].has(x));
            }
        }
        assert forall|j: int, k: int, x: u64| 0 <= j < k < cubes.len() && bits::below(x, width) && #[trigger] cubes[j].has(x) implies !#[trigger] cubes[k].has(x) by {
            assert(configs.contains(x));
            let q = configs.index_of(x);
            assert(owners(cubes, configs[q], n) == 1);
            lemma_owners(cubes, x, n);
        }
    }
    if partitions(configs, cubes, width) {
        assert forall|q: int| 0 <= q < configs.len() implies owners(cubes, #[trigger] configs[q], n) == 1 by {
            let x = configs[q];
            assert(bits::below(x, width));
            assert(configs.contains(x));
            lemma_owners(cubes, x, n);
            assert(covered(cubes, n, x));
        }
        lemma_hits_total(configs, cubes, configs.len() as int);
        assert forall|k: int| 0 <= k < n implies hits(configs, #[trigger] cubes[k], configs.len() as int) == vstd::arithmetic::power2::pow2(free_below(cubes[k].mask, width)) by {
            let c = cubes[k];
            let a = lemma_hit_list(configs, c, configs.len() as int);
            let b = lemma_points(c, width);
            seqs::lemma_take_all(configs);
            lemma_hits_bound(configs, c, width);
            assert forall|i: int| 0 <= i < b.len() implies a.contains(#[trigger] b[i]) by {
                let x = b[i];
                assert(b.contains(x));
                assert(point_upto(c, width, x));
                assert(bits::below(x, width)) by {
                    assert forall|j: int| width <= j < 64 implies !#[trigger] bits::bit(x, j) by {
                        assert(!bits::bit(c.mask, j));
                    }
                }
                assert(cubes[k].has(x));
                assert(covered(cubes, n, x));
                assert(configs.contains(x));
            }
            seqs::lemma_within(b, a);
        }
    }
}

/// Whether the cubes partition the configurations, in whatever order these come: their points
/// are as many, and each configuration is in exactly one.
pub fn partition_is_valid(configs: &[u64], cubes: &[Subcube], width: usize) -> (r: bool)
    requires
        width <= 64,
        configs@.no_duplicates(),
        contract::rows_below(configs@, width as int),
        forall|k: int| 0 <= k < cubes@.len() ==> bits::below((#[trigger] cubes@[k]).mask, width as int),
    ensures
        r == partitions(configs@, cubes@, width as int),
{
    let ghost w = width as int;
    let ghost n = cubes@.len() as int;
    proof {
        lemma_valid(configs@, cubes@, w);
    }
    let mut total: u128 = 0;
    let mut k: usize = 0;
    while k < cubes.len()
        invariant
            width <= 64,
            w == width,
            k <= cubes@.len(),
            total == points_of(cubes@, w, k as int),
            total <= k * 0x1_0000_0000_0000_0000,
        decreases cubes.len() - k,
    {
        let points: u128 = points_in(cubes[k].mask, width);
        total = total + points;
        k += 1;
    }
    if total != configs.len() as u128 {
        return false;
    }
    let mut q: usize = 0;
    while q < configs.len()
        invariant
            q <= configs@.len(),
            n == cubes@.len(),
            w == width,
            total == configs@.len(),
            total == points_of(cubes@, w, n),
            partitions(configs@, cubes@, w) <==> (points_of(cubes@, w, n) == configs@.len() && forall|q: int| 0 <= q < configs@.len() ==> owners(cubes@, #[trigger] configs@[q], n) == 1),
            forall|j: int| 0 <= j < q ==> owners(cubes@, #[trigger] configs@[j], n) == 1,
        decreases configs.len() - q,
    {
        let mut count: usize = 0;
        let mut k: usize = 0;
        while k < cubes.len()
            invariant
                q < configs@.len(),
                k <= cubes@.len(),
                count <= k,
                count == owners(cubes@, configs@[q as int], k as int),
            decreases cubes.len() - k,
        {
            if cubes[k].holds(configs[q]) {
                count += 1;
            }
            k += 1;
        }
        if count != 1 {
            assert(owners(cubes@, configs@[q as int], n) != 1);
            return false;
        }
        q += 1;
    }
    true
}

/// How many points a subcube has.
fn points_in(mask: u64, width: usize) -> (r: u128)
    requires
        width <= 64,
    ensures
        r == vstd::arithmetic::power2::pow2(free_below(mask, width as int)),
        r <= 0x1_0000_0000_0000_0000,
{
    let mut r: u128 = 1;
    let mut i: usize = 0;
    proof {
        vstd::arithmetic::power2::lemma2_to64();
        vstd::arithmetic::power2::lemma2_to64_rest();
    }
    while i < width
        invariant
            i <= width <= 64,
            r == vstd::arithmetic::power2::pow2(free_below(mask, i as int)),
            r <= vstd::arithmetic::power2::pow2(i as nat) <= 0x1_0000_0000_0000_0000,
            vstd::arithmetic::power2::pow2(64) == 0x1_0000_0000_0000_0000,
        decreases width - i,
    {
        proof {
            vstd::arithmetic::power2::lemma_pow2_unfold((i + 1) as nat);
            if i + 1 < 64 {
                vstd::arithmetic::power2::lemma_pow2_strictly_increases((i + 1) as nat, 64);
            }
            vstd::arithmetic::power2::lemma_pow2_unfold((free_below(mask, i as int) + 1) as nat);
        }
        if !bits::get_bit(mask, i) {
            r = r * 2;
        }
        i += 1;
    }
    r
}

} // verus!
