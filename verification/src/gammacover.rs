//! Exact covers of a set of configurations by subcubes: the candidates among which a
//! cheapest cover is chosen, and the check of what was chosen.
use vstd::prelude::*;

use crate::bits;
use crate::blockmerge;
use crate::blockmerge::{block_merge, Subcube};
use crate::contract;
use crate::order;
use crate::order::Buckets;
use crate::seqs;

verus! {

/// Limits of a cover: how many configurations, how many candidates, and how many rounds of
/// choosing.
#[derive(Clone, Copy, Debug)]
pub struct GammaCoverLimits {
    pub max_rows: usize,
    pub pool_cap: usize,
    pub max_itr: usize,
}

impl GammaCoverLimits {
    /// The usual limits for a number of configurations.
    pub fn from_max_rows(max_rows: usize) -> (r: GammaCoverLimits)
        ensures
            r.max_rows == max_rows,
            r.pool_cap == 4096,
            r.max_itr == 20,
    {
        GammaCoverLimits { max_rows, pool_cap: 4096, max_itr: 20 }
    }
}

/// The subcube is over `width` coordinates, with no value where it is free.
pub open spec fn normal(c: Subcube, width: int) -> bool {
    &&& bits::below(c.mask, width)
    &&& forall|j: int| 0 <= j < 64 && #[trigger] bits::bit(c.val, j) ==> bits::bit(c.mask, j)
}

/// All points of the subcube are among the configurations.
pub open spec fn inside(configs: Seq<u64>, width: int, c: Subcube) -> bool {
    forall|x: u64| bits::below(x, width) && #[trigger] c.has(x) ==> configs.contains(x)
}

/// The subcube with coordinate `i` free.
pub open spec fn freed(c: Subcube, i: int) -> Subcube {
    Subcube { mask: c.mask & !(1u64 << (i as u64)), val: c.val & (c.mask & !(1u64 << (i as u64))) }
}

/// The subcube with the other value at coordinate `i`.
pub open spec fn flipped(c: Subcube, i: int) -> Subcube {
    Subcube { mask: c.mask, val: c.val ^ (1u64 << (i as u64)) }
}

/// A largest subcube among the configurations: none of its coordinates can be freed.
pub open spec fn prime(configs: Seq<u64>, width: int, c: Subcube) -> bool {
    &&& normal(c, width)
    &&& inside(configs, width, c)
    &&& forall|i: int| 0 <= i < width && #[trigger] bits::bit(c.mask, i) ==> !inside(configs, width, freed(c, i))
}

/// A subcube among the configurations with `f` free coordinates.
pub open spec fn on_level(configs: Seq<u64>, width: int, f: int, c: Subcube) -> bool {
    &&& normal(c, width)
    &&& inside(configs, width, c)
    &&& blockmerge::free_below(c.mask, width) == f
}

/// A largest subcube with fewer than `f` free coordinates.
pub open spec fn prime_below(configs: Seq<u64>, width: int, f: int, c: Subcube) -> bool {
    prime(configs, width, c) && blockmerge::free_below(c.mask, width) < f
}

/// More than `cap` subcubes are held at once when those with `f` free coordinates are reached.
pub open spec fn overflows(configs: Seq<u64>, width: int, cap: int, f: int, l: Seq<Subcube>) -> bool {
    &&& f >= 1
    &&& l.no_duplicates()
    &&& l.len() > cap
    &&& forall|k: int| 0 <= k < l.len() ==> on_level(configs, width, f, #[trigger] l[k]) || prime_below(configs, width, f, l[k])
}

/// Too many subcubes are held at once somewhere on the way.
pub open spec fn too_many_cubes(configs: Seq<u64>, width: int, cap: int) -> bool {
    exists|f: int, l: Seq<Subcube>| #[trigger] overflows(configs, width, cap, f, l)
}

proof fn lemma_freed_bits(c: Subcube, i: int)
    requires
        0 <= i < 64,
    ensures
        forall|j: int| 0 <= j < 64 ==> #[trigger] bits::bit(freed(c, i).mask, j) == (bits::bit(c.mask, j) && j != i),
        forall|j: int| 0 <= j < 64 ==> #[trigger] bits::bit(freed(c, i).val, j) == (bits::bit(c.val, j) && bits::bit(c.mask, j) && j != i),
        forall|j: int| 0 <= j < 64 ==> #[trigger] bits::bit(flipped(c, i).val, j) == (bits::bit(c.val, j) != (j == i)),
{
    broadcast use bits::group_bits;

    assert forall|j: int| 0 <= j < 64 implies #[trigger] bits::bit(freed(c, i).mask, j) == (bits::bit(c.mask, j) && j != i) by {
        assert(bits::bit(!(1u64 << (i as u64)), j) == !bits::bit(1u64 << (i as u64), j));
    }
    assert forall|j: int| 0 <= j < 64 implies #[trigger] bits::bit(flipped(c, i).val, j) == (bits::bit(c.val, j) != (j == i)) by {
        assert(bits::bit(c.val ^ (1u64 << (i as u64)), j) == (bits::bit(c.val, j) != bits::bit(1u64 << (i as u64), j)));
    }
}

proof fn lemma_same_bits(x: Subcube, y: Subcube)
    requires
        forall|j: int| 0 <= j < 64 ==> #[trigger] bits::bit(x.mask, j) == bits::bit(y.mask, j),
        forall|j: int| 0 <= j < 64 ==> #[trigger] bits::bit(x.val, j) == bits::bit(y.val, j),
    ensures
        x == y,
{
    bits::lemma_bits_equal(x.mask, y.mask);
    bits::lemma_bits_equal(x.val, y.val);
}

proof fn lemma_free_more(x: u64, y: u64, i: int, n: int)
    requires
        0 <= i < 64,
        0 <= n <= 64,
        bits::bit(y, i),
        forall|j: int| 0 <= j < 64 ==> #[trigger] bits::bit(x, j) == (bits::bit(y, j) && j != i),
    ensures
        blockmerge::free_below(x, n) == blockmerge::free_below(y, n) + (if i < n {
            1int
        } else {
            0int
        }),
    decreases n,
{
    if n > 0 {
        lemma_free_more(x, y, i, n - 1);
    }
}

proof fn lemma_free_bound(x: u64, n: int)
    requires
        0 <= n,
    ensures
        blockmerge::free_below(x, n) <= n,
    decreases n,
{
    if n > 0 {
        lemma_free_bound(x, n - 1);
    }
}

/// Freeing a coordinate joins the two halves.
proof fn lemma_halves(configs: Seq<u64>, width: int, c: Subcube, i: int)
    requires
        0 <= i < width <= 64,
        normal(c, width),
        bits::bit(c.mask, i),
    ensures
        normal(freed(c, i), width),
        normal(flipped(c, i), width),
        blockmerge::free_below(freed(c, i).mask, width) == blockmerge::free_below(c.mask, width) + 1,
        inside(configs, width, freed(c, i)) <==> inside(configs, width, c) && inside(configs, width, flipped(c, i)),
{
    let f = freed(c, i);
    let g = flipped(c, i);
    lemma_freed_bits(c, i);
    lemma_free_more(f.mask, c.mask, i, width);
    assert(normal(f, width)) by {
        assert forall|j: int| width <= j < 64 implies !#[trigger] bits::bit(f.mask, j) by {
            assert(!bits::bit(c.mask, j));
        }
    }
    assert(normal(g, width)) by {
        assert forall|j: int| 0 <= j < 64 && #[trigger] bits::bit(g.val, j) implies bits::bit(g.mask, j) by {
            if j != i {
                assert(bits::bit(c.val, j));
            }
        }
    }
    assert forall|x: u64| #[trigger] f.has(x) <==> (c.has(x) || g.has(x)) by {
        if f.has(x) {
            if bits::bit(x, i) == bits::bit(c.val, i) {
                assert forall|j: int| 0 <= j < 64 && #[trigger] bits::bit(c.mask, j) implies bits::bit(x, j) == bits::bit(c.val, j) by {
                    if j != i {
                        assert(bits::bit(f.mask, j));
                        assert(bits::bit(f.val, j) == bits::bit(c.val, j));
                    }
                }
            } else {
                assert forall|j: int| 0 <= j < 64 && #[trigger] bits::bit(g.mask, j) implies bits::bit(x, j) == bits::bit(g.val, j) by {
                    assert(bits::bit(g.val, j) == (bits::bit(c.val, j) != (j == i)));
                    if j != i {
                        assert(bits::bit(f.mask, j));
                        assert(bits::bit(f.val, j) == bits::bit(c.val, j));
                    }
                }
            }
        }
        if c.has(x) {
            assert forall|j: int| 0 <= j < 64 && #[trigger] bits::bit(f.mask, j) implies bits::bit(x, j) == bits::bit(f.val, j) by {
                assert(bits::bit(c.mask, j));
                assert(bits::bit(f.val, j) == bits::bit(c.val, j));
            }
        }
        if g.has(x) {
            assert forall|j: int| 0 <= j < 64 && #[trigger] bits::bit(f.mask, j) implies bits::bit(x, j) == bits::bit(f.val, j) by {
                assert(bits::bit(g.mask, j));
                assert(bits::bit(f.val, j) == bits::bit(c.val, j));
                assert(bits::bit(g.val, j) == bits::bit(c.val, j));
            }
        }
    }
    if inside(configs, width, f) {
        assert forall|x: u64| bits::below(x, width) && #[trigger] c.has(x) implies configs.contains(x) by {
            assert(f.has(x));
        }
        assert forall|x: u64| bits::below(x, width) && #[trigger] g.has(x) implies configs.contains(x) by {
            assert(f.has(x));
        }
    }
}

/// A subcube with a free coordinate has two halves.
proof fn lemma_half(configs: Seq<u64>, width: int, c: Subcube, i: int) -> (h: Subcube)
    requires
        0 <= i < width <= 64,
        normal(c, width),
        inside(configs, width, c),
        !bits::bit(c.mask, i),
    ensures
        normal(h, width),
        bits::bit(h.mask, i),
        freed(h, i) == c,
        inside(configs, width, h),
        inside(configs, width, flipped(h, i)),
        blockmerge::free_below(h.mask, width) == blockmerge::free_below(c.mask, width) - 1,
{
    broadcast use bits::group_bits;

    let h = Subcube { mask: c.mask | (1u64 << (i as u64)), val: c.val };
    assert forall|j: int| 0 <= j < 64 implies #[trigger] bits::bit(h.mask, j) == (bits::bit(c.mask, j) || j == i) by {}
    assert forall|j: int| width <= j < 64 implies !#[trigger] bits::bit(h.mask, j) by {
        assert(!bits::bit(c.mask, j));
    }
    assert forall|j: int| 0 <= j < 64 && #[trigger] bits::bit(h.val, j) implies bits::bit(h.mask, j) by {
        assert(bits::bit(c.val, j));
    }
    lemma_freed_bits(h, i);
    assert forall|j: int| 0 <= j < 64 implies #[trigger] bits::bit(freed(h, i).val, j) == bits::bit(c.val, j) by {
        if bits::bit(c.val, j) {
            assert(bits::bit(c.mask, j));
        }
    }
    lemma_same_bits(freed(h, i), c);
    lemma_halves(configs, width, h, i);
    h
}

/// The free coordinate of a subcube that has one.
proof fn lemma_free_at(mask: u64, n: int) -> (i: int)
    requires
        0 <= n <= 64,
        blockmerge::free_below(mask, n) > 0,
    ensures
        0 <= i < n,
        !bits::bit(mask, i),
    decreases n,
{
    if !bits::bit(mask, n - 1) {
        n - 1
    } else {
        lemma_free_at(mask, n - 1)
    }
}

/// A list of subcubes that is searched by value.
struct CubeIndex {
    cubes: Vec<Subcube>,
    index: Buckets,
}

/// The bucket of each value lists the places of the subcubes with that value.
spec fn indexed(cubes: Seq<Subcube>, m: Buckets) -> bool {
    &&& forall|k: int| 0 <= k < cubes.len() ==> order::filed(m).contains_key((#[trigger] cubes[k]).val) && order::filed(m)[cubes[k].val].contains(k as usize)
    &&& forall|key: u64, q: int| order::filed(m).contains_key(key) && 0 <= q < order::filed(m)[key].len() ==> (#[trigger] order::filed(m)[key][q]) < cubes.len()
}

impl CubeIndex {
    spec fn wf(self) -> bool {
        &&& indexed(self.cubes@, self.index)
        &&& self.cubes@.no_duplicates()
    }

    fn new() -> (r: CubeIndex)
        ensures
            r.wf(),
            r.cubes@.len() == 0,
    {
        CubeIndex { cubes: Vec::new(), index: order::buckets_new() }
    }

    fn has(&self, c: Subcube) -> (r: bool)
        requires
            self.wf(),
        ensures
            r == self.cubes@.contains(c),
    {
        match order::buckets_get(&self.index, c.val) {
            None => {
                proof {
                    if self.cubes@.contains(c) {
                        let k = self.cubes@.index_of(c);
                        assert(order::filed(self.index).contains_key(self.cubes@[k].val));
                    }
                }
                false
            },
            Some(places) => {
                let mut q: usize = 0;
                while q < places.len()
                    invariant
                        self.wf(),
                        order::filed(self.index).contains_key(c.val),
                        places@ == order::filed(self.index)[c.val],
                        q <= places@.len(),
                        forall|p: int| 0 <= p < q ==> self.cubes@[(#[trigger] places@[p]) as int] != c,
                    decreases places.len() - q,
                {
                    assert(order::filed(self.index)[c.val][q as int] < self.cubes@.len());
                    let k: usize = places[q];
                    if self.cubes[k].mask == c.mask && self.cubes[k].val == c.val {
                        assert(self.cubes@[k as int] == c);
                        return true;
                    }
                    q += 1;
                }
                proof {
                    if self.cubes@.contains(c) {
                        let k = self.cubes@.index_of(c);
                        assert(order::filed(self.index)[self.cubes@[k].val].contains(k as usize));
                        assert(self.cubes.len() == self.cubes@.len());
                        let p = places@.index_of(k as usize);
                        assert(self.cubes@[places@[p] as int] == c);
                    }
                }
                false
            },
        }
    }

    /// Append a subcube that is not there yet.
    fn push(&mut self, c: Subcube)
        requires
            old(self).wf(),
            !old(self).cubes@.contains(c),
        ensures
            final(self).wf(),
            final(self).cubes@ == old(self).cubes@.push(c),
    {
        let k: usize = self.cubes.len();
        let ghost c0 = self.cubes@;
        let ghost m0 = self.index;
        self.cubes.push(c);
        order::buckets_push(&mut self.index, c.val, k);
        proof {
            let m1 = order::filed(self.index);
            let was = if order::filed(m0).contains_key(c.val) {
                order::filed(m0)[c.val]
            } else {
                Seq::empty()
            };
            assert(m1[c.val] == was.push(k));
            assert(was.push(k)[was.len() as int] == k);
            assert(was.push(k).contains(k));
            assert forall|j: int| 0 <= j < self.cubes@.len() implies m1.contains_key((#[trigger] self.cubes@[j]).val) && m1[self.cubes@[j].val].contains(j as usize) by {
                if j < k {
                    assert(self.cubes@[j] == c0[j]);
                    assert(order::filed(m0)[c0[j].val].contains(j as usize));
                    if c0[j].val == c.val {
                        let p = was.index_of(j as usize);
                        assert(was.push(k)[p] == j as usize);
                    }
                }
            }
            assert forall|key: u64, q: int| m1.contains_key(key) && 0 <= q < m1[key].len() implies (#[trigger] m1[key][q]) < self.cubes@.len() by {
                if key == c.val {
                    if q < was.len() {
                        assert(order::filed(m0)[key][q] < c0.len());
                    }
                } else {
                    assert(order::filed(m0)[key][q] < c0.len());
                }
            }
            assert(self.cubes@.no_duplicates()) by {
                assert forall|a: int, b: int| 0 <= a < self.cubes@.len() && 0 <= b < self.cubes@.len() && a != b implies self.cubes@[a] != self.cubes@[b] by {
                    if a < k && b < k {
                        assert(c0[a] != c0[b]);
                    } else if a < k {
                        assert(c0.contains(c0[a]));
                    } else {
                        assert(c0.contains(c0[b]));
                    }
                }
            }
        }
    }
}

/// `c` joins one of the first `k` subcubes with its neighbour on the level.
spec fn joined(cubes: Seq<Subcube>, width: int, k: int, c: Subcube) -> bool {
    exists|q: int, i: int| 0 <= q < k && joins_at(cubes, width, q, i, c)
}

#[verifier::opaque]
spec fn joins_at(cubes: Seq<Subcube>, width: int, q: int, i: int, c: Subcube) -> bool {
    &&& 0 <= i < width
    &&& bits::bit(cubes[q].mask, i)
    &&& cubes.contains(flipped(cubes[q], i))
    &&& c == freed(cubes[q], i)
}

/// Subcube `q` has a neighbour on the level along a coordinate below `upto`.
spec fn has_neighbour(cubes: Seq<Subcube>, upto: int, q: int) -> bool {
    exists|i: int| 0 <= i < upto && #[trigger] bits::bit(cubes[q].mask, i) && cubes.contains(flipped(cubes[q], i))
}

/// The next level: for each subcube whether it has a neighbour, and all joins.
fn join_level(level: &CubeIndex, width: usize) -> (r: (Vec<bool>, CubeIndex))
    requires
        level.wf(),
        width <= 64,
        forall|k: int| 0 <= k < level.cubes@.len() ==> normal(#[trigger] level.cubes@[k], width as int),
    ensures
        r.0@.len() == level.cubes@.len(),
        forall|k: int| 0 <= k < level.cubes@.len() ==> #[trigger] r.0@[k] == has_neighbour(level.cubes@, width as int, k),
        r.1.wf(),
        forall|c: Subcube| #[trigger] r.1.cubes@.contains(c) <==> joined(level.cubes@, width as int, level.cubes@.len() as int, c),
{
    let ghost cs = level.cubes@;
    let mut used: Vec<bool> = Vec::new();
    let mut next = CubeIndex::new();
    let mut k: usize = 0;
    proof {
        assert forall|c: Subcube| #[trigger] next.cubes@.contains(c) <==> joined(cs, width as int, 0, c) by {}
    }
    while k < level.cubes.len()
        invariant
            level.wf(),
            width <= 64,
            cs == level.cubes@,
            forall|k: int| 0 <= k < cs.len() ==> normal(#[trigger] cs[k], width as int),
            k <= cs.len(),
            used@.len() == k,
            forall|q: int| 0 <= q < k ==> #[trigger] used@[q] == has_neighbour(cs, width as int, q),
            next.wf(),
            forall|c: Subcube| #[trigger] next.cubes@.contains(c) <==> joined(cs, width as int, k as int, c),
        decreases level.cubes.len() - k,
    {
        let cube = level.cubes[k];
        let mut merged = false;
        let mut i: usize = 0;
        let ghost n0 = next.cubes@;
        while i < width
            invariant
                level.wf(),
                width <= 64,
                cs == level.cubes@,
                k < cs.len(),
                cube == cs[k as int],
                i <= width,
                merged == has_neighbour(cs, i as int, k as int),
                next.wf(),
                forall|c: Subcube| #[trigger] next.cubes@.contains(c) <==> (n0.contains(c) || joins_below(cs, width as int, k as int, i as int, c)),
            decreases width - i,
        {
            let ghost n1 = next.cubes@;
            let mut joined_here = false;
            if bits::get_bit(cube.mask, i) {
                let bit: u64 = 1u64 << (i as u64);
                let other = Subcube { mask: cube.mask, val: cube.val ^ bit };
                assert(other == flipped(cube, i as int));
                if level.has(other) {
                    merged = true;
                    joined_here = true;
                    let nmask: u64 = cube.mask & !bit;
                    let join = Subcube { mask: nmask, val: cube.val & nmask };
                    assert(join == freed(cube, i as int));
                    if !next.has(join) {
                        next.push(join);
                        proof {
                            seqs::lemma_push_contains(n1, join);
                        }
                    }
                    assert forall|c: Subcube| #[trigger] next.cubes@.contains(c) <==> (n1.contains(c) || c == join) by {}
                }
            }
            proof {
                assert forall|c: Subcube| #[trigger] next.cubes@.contains(c) <==> (n0.contains(c) || joins_below(cs, width as int, k as int, i + 1, c)) by {
                    reveal(joins_at);
                    assert(joins_below(cs, width as int, k as int, i + 1, c) <==> (joins_below(cs, width as int, k as int, i as int, c) || joins_at(cs, width as int, k as int, i as int, c)));
                    assert(n1.contains(c) <==> (n0.contains(c) || joins_below(cs, width as int, k as int, i as int, c)));
                }
                assert(has_neighbour(cs, i + 1, k as int) == (has_neighbour(cs, i as int, k as int) || joined_here)) by {
                    if has_neighbour(cs, i as int, k as int) {
                        let a = choose|a: int| 0 <= a < i && #[trigger] bits::bit(cs[k as int].mask, a) && cs.contains(flipped(cs[k as int], a));
                        assert(bits::bit(cs[k as int].mask, a));
                    }
                    if joined_here {
                        assert(bits::bit(cs[k as int].mask, i as int));
                    }
                }
            }
            i += 1;
        }
        used.push(merged);
        proof {
            assert forall|c: Subcube| #[trigger] next.cubes@.contains(c) <==> joined(cs, width as int, k + 1, c) by {
                reveal(joins_at);
                if joined(cs, width as int, k + 1, c) {
                    let (q, a) = choose|q: int, a: int| 0 <= q < k + 1 && joins_at(cs, width as int, q, a, c);
                    if q == k {
                        assert(joins_below(cs, width as int, k as int, width as int, c));
                    } else {
                        assert(joined(cs, width as int, k as int, c));
                    }
                }
                if joins_below(cs, width as int, k as int, width as int, c) {
                    let a = choose|a: int| 0 <= a < width && #[trigger] joins_at(cs, width as int, k as int, a, c);
                    assert(joins_at(cs, width as int, k as int, a, c));
                }
                if joined(cs, width as int, k as int, c) {
                    let (q, a) = choose|q: int, a: int| 0 <= q < k && joins_at(cs, width as int, q, a, c);
                    assert(joins_at(cs, width as int, q, a, c));
                }
            }
        }
        k += 1;
    }
    (used, next)
}

spec fn joins_below(cubes: Seq<Subcube>, width: int, q: int, upto: int, c: Subcube) -> bool {
    exists|i: int| 0 <= i < upto && #[trigger] joins_at(cubes, width, q, i, c)
}

/// What the next level holds, and which subcubes of a level are largest.
proof fn lemma_next_level(configs: Seq<u64>, width: int, f: int, cs: Seq<Subcube>)
    requires
        0 <= width <= 64,
        0 <= f,
        forall|c: Subcube| #[trigger] cs.contains(c) <==> on_level(configs, width, f, c),
    ensures
        forall|c: Subcube| #[trigger] joined(cs, width, cs.len() as int, c) <==> on_level(configs, width, f + 1, c),
        forall|k: int| 0 <= k < cs.len() ==> (prime(configs, width, #[trigger] cs[k]) <==> !has_neighbour(cs, width, k)),
{
    reveal(joins_at);
    assert forall|c: Subcube| #[trigger] joined(cs, width, cs.len() as int, c) <==> on_level(configs, width, f + 1, c) by {
        if joined(cs, width, cs.len() as int, c) {
            let (q, i) = choose|q: int, i: int| 0 <= q < cs.len() && joins_at(cs, width, q, i, c);
            assert(cs.contains(cs[q]));
            lemma_halves(configs, width, cs[q], i);
            assert(on_level(configs, width, f, flipped(cs[q], i)));
        }
        if on_level(configs, width, f + 1, c) {
            let i = lemma_free_at(c.mask, width);
            let h = lemma_half(configs, width, c, i);
            assert(on_level(configs, width, f, h));
            assert(cs.contains(h));
            let q = cs.index_of(h);
            lemma_halves(configs, width, h, i);
            assert(on_level(configs, width, f, flipped(h, i)));
            assert(cs.contains(flipped(h, i)));
            assert(joins_at(cs, width, q, i, c));
        }
    }
    assert forall|k: int| 0 <= k < cs.len() implies (prime(configs, width, #[trigger] cs[k]) <==> !has_neighbour(cs, width, k)) by {
        let c = cs[k];
        assert(cs.contains(c));
        assert(on_level(configs, width, f, c));
        if has_neighbour(cs, width, k) {
            let i = choose|i: int| 0 <= i < width && #[trigger] bits::bit(cs[k].mask, i) && cs.contains(flipped(cs[k], i));
            assert(on_level(configs, width, f, flipped(c, i)));
            lemma_halves(configs, width, c, i);
            assert(bits::bit(c.mask, i));
        } else {
            assert forall|i: int| 0 <= i < width && #[trigger] bits::bit(c.mask, i) implies !inside(configs, width, freed(c, i)) by {
                lemma_halves(configs, width, c, i);
                if inside(configs, width, freed(c, i)) {
                    assert(on_level(configs, width, f, flipped(c, i)));
                    assert(cs.contains(flipped(cs[k], i)));
                }
            }
        }
    }
}

/// All largest subcubes among the configurations, by joining neighbours level by level. `None`
/// where more than `cap` would be held at once.
fn prime_implicants(configs: &[u64], width: usize, cap: usize) -> (r: Option<Vec<Subcube>>)
    requires
        width <= 64,
        order::ascending64(configs@),
        contract::rows_below(configs@, width as int),
    ensures
        match r {
            Some(p) => {
                &&& p@.no_duplicates()
                &&& forall|c: Subcube| #[trigger] p@.contains(c) <==> prime(configs@, width as int, c)
                &&& !too_many_cubes(configs@, width as int, cap as int)
            },
            None => too_many_cubes(configs@, width as int, cap as int),
        },
{
    let full: u64 = bits::full_mask(width);
    let ghost w = width as int;
    let ghost s = configs@;
    let mut level = CubeIndex::new();
    let mut k: usize = 0;
    while k < configs.len()
        invariant
            width <= 64,
            w == width,
            s == configs@,
            order::ascending64(s),
            contract::rows_below(s, w),
            forall|j: int| 0 <= j < 64 ==> #[trigger] bits::bit(full, j) == (j < width),
            k <= s.len(),
            level.wf(),
            level.cubes@.len() == k,
            forall|q: int| 0 <= q < k ==> #[trigger] level.cubes@[q] == (Subcube { mask: full, val: s[q] }),
        decreases configs.len() - k,
    {
        proof {
            lemma_and_full(s[k as int], full, w);
            assert(!level.cubes@.contains(Subcube { mask: full, val: s[k as int] })) by {
                if level.cubes@.contains(Subcube { mask: full, val: s[k as int] }) {
                    let q = level.cubes@.index_of(Subcube { mask: full, val: s[k as int] });
                    assert(s[q] < s[k as int]);
                }
            }
        }
        level.push(Subcube { mask: full, val: configs[k] & full });
        k += 1;
    }
    proof {
        assert forall|c: Subcube| #[trigger] level.cubes@.contains(c) <==> on_level(s, w, 0, c) by {
            lemma_singletons(s, w, full, level.cubes@, c);
        }
    }
    let mut primes: Vec<Subcube> = Vec::new();
    let mut f: usize = 0;
    loop
        invariant_except_break
            forall|c: Subcube| #[trigger] primes@.contains(c) <==> prime_below(s, w, f as int, c),
        invariant
            width <= 64,
            w == width,
            s == configs@,
            f <= width,
            level.wf(),
            forall|c: Subcube| #[trigger] level.cubes@.contains(c) <==> on_level(s, w, f as int, c),
            primes@.no_duplicates(),
            forall|g: int, l: Seq<Subcube>| g <= f ==> !#[trigger] overflows(s, w, cap as int, g, l),
        ensures
            primes@.no_duplicates(),
            forall|c: Subcube| #[trigger] primes@.contains(c) <==> prime(s, w, c),
            forall|c: Subcube| !#[trigger] on_level(s, w, f + 1, c),
            forall|c: Subcube| #[trigger] primes@.contains(c) <==> prime_below(s, w, f + 1, c),
            forall|g: int, l: Seq<Subcube>| g <= f ==> !#[trigger] overflows(s, w, cap as int, g, l),
        decreases width - f,
    {
        let ghost cs = level.cubes@;
        proof {
            assert forall|q: int| 0 <= q < cs.len() implies normal(#[trigger] cs[q], w) by {
                assert(cs.contains(cs[q]));
            }
            lemma_next_level(s, w, f as int, cs);
        }
        let (used, next) = join_level(&level, width);
        let mut q: usize = 0;
        let ghost p0 = primes@;
        while q < level.cubes.len()
            invariant
                cs == level.cubes@,
                cs.no_duplicates(),
                q <= cs.len(),
                used@.len() == cs.len(),
                forall|k: int| 0 <= k < cs.len() ==> #[trigger] used@[k] == has_neighbour(cs, w, k),
                forall|k: int| 0 <= k < cs.len() ==> (prime(s, w, #[trigger] cs[k]) <==> !has_neighbour(cs, w, k)),
                forall|c: Subcube| #[trigger] cs.contains(c) <==> on_level(s, w, f as int, c),
                forall|c: Subcube| #[trigger] p0.contains(c) <==> prime_below(s, w, f as int, c),
                primes@.no_duplicates(),
                forall|c: Subcube| #[trigger] primes@.contains(c) <==> (p0.contains(c) || (cs.take(q as int).contains(c) && prime(s, w, c))),
            decreases level.cubes.len() - q,
        {
            let ghost p1 = primes@;
            let ghost c = cs[q as int];
            let cube = level.cubes[q];
            proof {
                seqs::lemma_take_next(cs, q as int);
                seqs::lemma_push_contains(cs.take(q as int), c);
                assert(cs.contains(c));
                assert(on_level(s, w, f as int, c));
                lemma_masked_val(c, w);
            }
            if !used[q] {
                proof {
                    assert(!p1.contains(c)) by {
                        if cs.take(q as int).contains(c) {
                            let a = cs.take(q as int).index_of(c);
                            assert(cs[a] == cs[q as int]);
                        }
                    }
                    seqs::lemma_push_contains(p1, c);
                }
                primes.push(Subcube { mask: cube.mask, val: cube.val & cube.mask });
                proof {
                    assert(primes@ =~= p1.push(c));
                    assert(primes@.no_duplicates()) by {
                        assert forall|a: int, b: int| 0 <= a < primes@.len() && 0 <= b < primes@.len() && a != b implies primes@[a] != primes@[b] by {
                            if a < p1.len() {
                                assert(p1.contains(p1[a]));
                            }
                            if b < p1.len() {
                                assert(p1.contains(p1[b]));
                            }
                        }
                    }
                }
            }
            proof {
                assert forall|x: Subcube| #[trigger] primes@.contains(x) <==> (p0.contains(x) || (cs.take(q + 1).contains(x) && prime(s, w, x))) by {
                    assert(cs.take(q + 1).contains(x) <==> (cs.take(q as int).contains(x) || x == c));
                    assert(p1.contains(x) <==> (p0.contains(x) || (cs.take(q as int).contains(x) && prime(s, w, x))));
                }
            }
            q += 1;
        }
        proof {
            seqs::lemma_take_all(cs);
            assert forall|c: Subcube| #[trigger] primes@.contains(c) <==> prime_below(s, w, f + 1, c) by {
                if prime_below(s, w, f + 1, c) && !prime_below(s, w, f as int, c) {
                    assert(on_level(s, w, f as int, c));
                    assert(cs.contains(c));
                }
                assert(p0.contains(c) <==> prime_below(s, w, f as int, c));
                if cs.contains(c) {
                    assert(on_level(s, w, f as int, c));
                }
            }
            assert forall|c: Subcube| #[trigger] next.cubes@.contains(c) <==> on_level(s, w, f + 1, c) by {
                assert(joined(cs, w, cs.len() as int, c) <==> on_level(s, w, f + 1, c));
            }
        }
        if next.cubes.len() == 0 {
            proof {
                assert forall|c: Subcube| !#[trigger] on_level(s, w, f + 1, c) by {
                    assert(!next.cubes@.contains(c));
                }
                assert forall|c: Subcube| #[trigger] primes@.contains(c) <==> prime(s, w, c) by {
                    if prime(s, w, c) && !prime_below(s, w, f + 1, c) {
                        lemma_level_below(s, w, f + 1, c);
                    }
                }
            }
            break;
        }
        proof {
            assert(next.cubes@.contains(next.cubes@[0]));
            assert(on_level(s, w, f + 1, next.cubes@[0]));
            lemma_free_bound(next.cubes@[0].mask, w);
        }
        level = next;
        proof {
            lemma_held(s, w, cap as int, f + 1, level.cubes@, primes@);
        }
        if level.cubes.len() > cap || primes.len() > cap - level.cubes.len() {
            return None;
        }
        f += 1;
    }
    proof {
        let none = Seq::<Subcube>::empty();
        assert forall|c: Subcube| #[trigger] none.contains(c) <==> on_level(s, w, f + 1, c) by {}
        lemma_held(s, w, cap as int, f + 1, none, primes@);
        if primes@.len() <= cap {
            assert forall|g: int, l: Seq<Subcube>| !#[trigger] overflows(s, w, cap as int, g, l) by {
                if overflows(s, w, cap as int, g, l) {
                    assert(overflows(s, w, cap as int, f + 1, l)) by {
                        assert forall|k: int| 0 <= k < l.len() implies on_level(s, w, f + 1, #[trigger] l[k]) || prime_below(s, w, f + 1, l[k]) by {
                            assert(on_level(s, w, g, l[k]) || prime_below(s, w, g, l[k]));
                            if on_level(s, w, g, l[k]) && g > f {
                                lemma_level_below(s, w, f + 1, l[k]);
                            }
                            if prime_below(s, w, g, l[k]) {
                                assert(prime(s, w, l[k]));
                                assert(primes@.contains(l[k]));
                            }
                        }
                    }
                }
            }
        }
    }
    if primes.len() > cap {
        return None;
    }
    Some(primes)
}

/// Where no subcube has `f` free coordinates, none has more.
proof fn lemma_level_below(s: Seq<u64>, w: int, f: int, c: Subcube)
    requires
        0 <= w <= 64,
        0 <= f,
        normal(c, w),
        inside(s, w, c),
        forall|c: Subcube| !#[trigger] on_level(s, w, f, c),
    ensures
        blockmerge::free_below(c.mask, w) < f,
    decreases blockmerge::free_below(c.mask, w),
{
    if blockmerge::free_below(c.mask, w) >= f {
        if blockmerge::free_below(c.mask, w) == f {
            assert(on_level(s, w, f, c));
        } else {
            let i = lemma_free_at(c.mask, w);
            let h = lemma_half(s, w, c, i);
            lemma_level_below(s, w, f, h);
        }
    }
}

/// What is held when a level is reached: too much exactly if the two lists are too long.
proof fn lemma_held(s: Seq<u64>, w: int, cap: int, f: int, level: Seq<Subcube>, primes: Seq<Subcube>)
    requires
        f >= 1,
        level.no_duplicates(),
        primes.no_duplicates(),
        forall|c: Subcube| #[trigger] level.contains(c) <==> on_level(s, w, f, c),
        forall|c: Subcube| #[trigger] primes.contains(c) <==> prime_below(s, w, f, c),
    ensures
        level.len() + primes.len() > cap ==> too_many_cubes(s, w, cap),
        level.len() + primes.len() <= cap ==> forall|l: Seq<Subcube>| !#[trigger] overflows(s, w, cap, f, l),
{
    let all = level + primes;
    assert forall|k: int| 0 <= k < all.len() implies on_level(s, w, f, #[trigger] all[k]) || prime_below(s, w, f, all[k]) by {
        if k < level.len() {
            assert(level.contains(level[k]));
        } else {
            assert(primes.contains(primes[k - level.len()]));
        }
    }
    assert(all.no_duplicates()) by {
        assert forall|a: int, b: int| 0 <= a < all.len() && 0 <= b < all.len() && a != b implies all[a] != all[b] by {
            if a < level.len() {
                assert(level.contains(level[a]));
            } else {
                assert(primes.contains(primes[a - level.len()]));
            }
            if b < level.len() {
                assert(level.contains(level[b]));
            } else {
                assert(primes.contains(primes[b - level.len()]));
            }
        }
    }
    if all.len() > cap {
        assert(overflows(s, w, cap, f, all));
    } else {
        assert forall|l: Seq<Subcube>| !#[trigger] overflows(s, w, cap, f, l) by {
            if overflows(s, w, cap, f, l) {
                assert forall|k: int| 0 <= k < l.len() implies all.contains(#[trigger] l[k]) by {
                    if on_level(s, w, f, l[k]) {
                        let q = level.index_of(l[k]);
                        assert(level.contains(l[k]));
                        assert(all[q] == l[k]);
                    } else {
                        assert(primes.contains(l[k]));
                        let q = primes.index_of(l[k]);
                        assert(all[level.len() + q] == l[k]);
                    }
                }
                seqs::lemma_within(l, all);
            }
        }
    }
}

proof fn lemma_and_full(x: u64, full: u64, w: int)
    requires
        0 <= w <= 64,
        bits::below(x, w),
        forall|j: int| 0 <= j < 64 ==> #[trigger] bits::bit(full, j) == (j < w),
    ensures
        x & full == x,
{
    broadcast use bits::group_bits;

    assert forall|j: int| 0 <= j < 64 implies #[trigger] bits::bit(x & full, j) == bits::bit(x, j) by {
        if j >= w {
            assert(!bits::bit(x, j));
        }
    }
    bits::lemma_bits_equal(x & full, x);
}

proof fn lemma_masked_val(c: Subcube, w: int)
    requires
        normal(c, w),
    ensures
        c.val & c.mask == c.val,
{
    broadcast use bits::group_bits;

    assert forall|j: int| 0 <= j < 64 implies #[trigger] bits::bit(c.val & c.mask, j) == bits::bit(c.val, j) by {
        if bits::bit(c.val, j) {
            assert(bits::bit(c.mask, j));
        }
    }
    bits::lemma_bits_equal(c.val & c.mask, c.val);
}

/// The lowest level is the configurations.
proof fn lemma_singletons(s: Seq<u64>, w: int, full: u64, cubes: Seq<Subcube>, c: Subcube)
    requires
        0 <= w <= 64,
        contract::rows_below(s, w),
        forall|j: int| 0 <= j < 64 ==> #[trigger] bits::bit(full, j) == (j < w),
        cubes.len() == s.len(),
        forall|q: int| 0 <= q < s.len() ==> #[trigger] cubes[q] == (Subcube { mask: full, val: s[q] }),
    ensures
        cubes.contains(c) <==> on_level(s, w, 0, c),
{
    if cubes.contains(c) {
        let q = cubes.index_of(c);
        assert(cubes[q] == (Subcube { mask: full, val: s[q] }));
        assert(bits::below(s[q], w));
        lemma_full_free(full, w, w);
        assert(normal(c, w)) by {
            assert forall|j: int| 0 <= j < 64 && #[trigger] bits::bit(c.val, j) implies bits::bit(c.mask, j) by {
                if j >= w {
                    assert(!bits::bit(s[q], j));
                }
            }
        }
        assert forall|x: u64| bits::below(x, w) && #[trigger] c.has(x) implies s.contains(x) by {
            assert forall|j: int| 0 <= j < 64 implies #[trigger] bits::bit(x, j) == bits::bit(s[q], j) by {
                if j < w {
                    assert(bits::bit(c.mask, j));
                } else {
                    assert(!bits::bit(s[q], j));
                    assert(!bits::bit(x, j));
                }
            }
            bits::lemma_bits_equal(x, s[q]);
        }
    }
    if on_level(s, w, 0, c) {
        assert forall|j: int| 0 <= j < 64 implies #[trigger] bits::bit(c.mask, j) == bits::bit(full, j) by {
            if j < w {
                lemma_none_free(c.mask, w, j);
            } else {
                assert(!bits::bit(c.mask, j));
            }
        }
        bits::lemma_bits_equal(c.mask, full);
        assert(bits::below(c.val, w)) by {
            assert forall|j: int| w <= j < 64 implies !#[trigger] bits::bit(c.val, j) by {
                if bits::bit(c.val, j) {
                    assert(bits::bit(c.mask, j));
                }
            }
        }
        assert(c.has(c.val));
        assert(s.contains(c.val));
        let q = s.index_of(c.val);
        assert(cubes[q] == c);
    }
}

proof fn lemma_full_free(full: u64, w: int, n: int)
    requires
        0 <= n <= w <= 64,
        forall|j: int| 0 <= j < 64 ==> #[trigger] bits::bit(full, j) == (j < w),
    ensures
        blockmerge::free_below(full, n) == 0,
    decreases n,
{
    if n > 0 {
        lemma_full_free(full, w, n - 1);
        assert(bits::bit(full, n - 1));
    }
}

proof fn lemma_none_free(mask: u64, n: int, j: int)
    requires
        0 <= j < n <= 64,
        blockmerge::free_below(mask, n) == 0,
    ensures
        bits::bit(mask, j),
    decreases n,
{
    if j < n - 1 {
        lemma_none_free(mask, n - 1, j);
    }
}

/// The subcube is one configuration.
pub open spec fn single(configs: Seq<u64>, width: int, c: Subcube) -> bool {
    on_level(configs, width, 0, c)
}

/// A candidate: a largest subcube, or a single configuration.
pub open spec fn candidate(configs: Seq<u64>, width: int, c: Subcube) -> bool {
    prime(configs, width, c) || single(configs, width, c)
}

/// There are more than `cap` candidates.
pub open spec fn too_many_candidates(configs: Seq<u64>, width: int, cap: int) -> bool {
    exists|l: Seq<Subcube>| #[trigger] l.no_duplicates() && l.len() > cap && forall|k: int| 0 <= k < l.len() ==> candidate(configs, width, #[trigger] l[k])
}

/// The candidates: the largest subcubes, and the single configurations that are none.
fn candidate_pool(configs: &[u64], width: usize, primes: Vec<Subcube>) -> (r: Vec<Subcube>)
    requires
        width <= 64,
        order::ascending64(configs@),
        contract::rows_below(configs@, width as int),
        primes@.no_duplicates(),
        forall|c: Subcube| #[trigger] primes@.contains(c) <==> prime(configs@, width as int, c),
    ensures
        r@.no_duplicates(),
        forall|c: Subcube| #[trigger] r@.contains(c) <==> candidate(configs@, width as int, c),
{
    let full: u64 = bits::full_mask(width);
    let ghost s = configs@;
    let ghost w = width as int;
    let ghost singles = Seq::new(s.len(), |q: int| Subcube { mask: full, val: s[q] });
    proof {
        assert forall|c: Subcube| #[trigger] singles.contains(c) <==> single(s, w, c) by {
            lemma_singletons(s, w, full, singles, c);
        }
    }
    let mut pool = CubeIndex::new();
    let mut k: usize = 0;
    while k < primes.len()
        invariant
            k <= primes@.len(),
            primes@.no_duplicates(),
            pool.wf(),
            pool.cubes@ == primes@.take(k as int),
        decreases primes.len() - k,
    {
        proof {
            seqs::lemma_take_next(primes@, k as int);
            assert(!pool.cubes@.contains(primes@[k as int])) by {
                if pool.cubes@.contains(primes@[k as int]) {
                    let q = pool.cubes@.index_of(primes@[k as int]);
                    assert(primes@[q] == primes@[k as int]);
                }
            }
        }
        pool.push(primes[k]);
        k += 1;
    }
    proof {
        seqs::lemma_take_all(primes@);
    }
    let mut k: usize = 0;
    while k < configs.len()
        invariant
            width <= 64,
            s == configs@,
            w == width,
            contract::rows_below(s, w),
            forall|j: int| 0 <= j < 64 ==> #[trigger] bits::bit(full, j) == (j < width),
            singles == Seq::new(s.len(), |q: int| Subcube { mask: full, val: s[q] }),
            k <= s.len(),
            pool.wf(),
            forall|c: Subcube| #[trigger] pool.cubes@.contains(c) <==> (primes@.contains(c) || singles.take(k as int).contains(c)),
        decreases configs.len() - k,
    {
        let ghost p0 = pool.cubes@;
        proof {
            lemma_and_full(s[k as int], full, w);
            seqs::lemma_take_next(singles, k as int);
            seqs::lemma_push_contains(singles.take(k as int), singles[k as int]);
        }
        let c = Subcube { mask: full, val: configs[k] & full };
        assert(c == singles[k as int]);
        if !pool.has(c) {
            pool.push(c);
            proof {
                seqs::lemma_push_contains(p0, c);
            }
        }
        proof {
            assert forall|x: Subcube| #[trigger] pool.cubes@.contains(x) <==> (primes@.contains(x) || singles.take(k + 1).contains(x)) by {
                assert(singles.take(k + 1).contains(x) <==> (singles.take(k as int).contains(x) || x == c));
                assert(p0.contains(x) <==> (primes@.contains(x) || singles.take(k as int).contains(x)));
            }
        }
        k += 1;
    }
    proof {
        seqs::lemma_take_all(singles);
    }
    pool.cubes
}

/// What is known before anything is chosen.
pub enum CoverPlan {
    /// The cover is settled: none or one subcube, or, where a limit is exceeded, the greedy
    /// partition.
    Settled { cubes: Vec<Subcube>, fell_back: bool },
    /// A cover is to be chosen among the candidates. `by_config` lists for each configuration
    /// the candidates that have it.
    Choose { configs: Vec<u64>, pool: Vec<Subcube>, by_config: Vec<Vec<usize>> },
}

/// A limit is exceeded.
pub open spec fn over_limits(configs: Seq<u64>, width: int, limits: GammaCoverLimits) -> bool {
    configs.len() > limits.max_rows || too_many_cubes(configs, width, limits.pool_cap as int) || too_many_candidates(configs, width, limits.pool_cap as int)
}

/// The greedy partition.
pub open spec fn greedy(configs: Seq<u64>, width: int, cubes: Seq<Subcube>) -> bool {
    &&& blockmerge::partitions(configs, cubes, width)
    &&& forall|k: int| 0 <= k < cubes.len() ==> #[trigger] blockmerge::maximal(configs, cubes, width, k)
}

/// The subcube has all configurations.
pub open spec fn has_all(configs: Seq<u64>, c: Subcube) -> bool {
    forall|q: int| 0 <= q < configs.len() ==> c.has(#[trigger] configs[q])
}

/// The places of the candidates with a configuration, in order.
pub open spec fn places_of(pool: Seq<Subcube>, x: u64, upto: int) -> Seq<usize>
    decreases upto,
{
    if upto <= 0 {
        Seq::empty()
    } else if pool[upto - 1].has(x) {
        places_of(pool, x, upto - 1).push((upto - 1) as usize)
    } else {
        places_of(pool, x, upto - 1)
    }
}

/// What a plan says of sorted configurations.
pub open spec fn planned(s: Seq<u64>, width: int, limits: GammaCoverLimits, plan: CoverPlan) -> bool {
    match plan {
        CoverPlan::Settled { cubes, fell_back } => {
            &&& blockmerge::partitions(s, cubes@, width)
            &&& fell_back <==> s.len() > 0 && over_limits(s, width, limits)
            &&& fell_back ==> greedy(s, width, cubes@)
            &&& s.len() == 0 ==> cubes@.len() == 0
            &&& s.len() > 0 && !fell_back ==> cubes@.len() == 1 && candidate(s, width, cubes@[0]) && has_all(s, cubes@[0])
        },
        CoverPlan::Choose { configs, pool, by_config } => {
            &&& configs@ == s
            &&& s.len() > 0
            &&& !over_limits(s, width, limits)
            &&& pool@.no_duplicates()
            &&& forall|c: Subcube| #[trigger] pool@.contains(c) <==> candidate(s, width, c)
            &&& forall|k: int| 0 <= k < pool@.len() ==> !has_all(s, #[trigger] pool@[k])
            &&& by_config@.len() == s.len()
            &&& forall|q: int| 0 <= q < s.len() ==> (#[trigger] by_config@[q])@ == places_of(pool@, s[q], pool@.len() as int)
        },
    }
}

/// Sort the configurations and prepare the choice of a cover.
pub fn gamma_cover_plan(configs: &[u64], width: usize, limits: &GammaCoverLimits) -> (r: CoverPlan)
    requires
        width <= 64,
        contract::rows_below(configs@, width as int),
    ensures
        exists|s: Seq<u64>| #[trigger] order::ascending64(s) && (forall|x: u64| #[trigger] s.contains(x) <==> configs@.contains(x)) && planned(s, width as int, *limits, r),
{
    let ghost w = width as int;
    let mut all: Vec<u64> = Vec::new();
    let mut i: usize = 0;
    while i < configs.len()
        invariant
            i <= configs@.len(),
            all@ == configs@.take(i as int),
        decreases configs.len() - i,
    {
        all.push(configs[i]);
        proof {
            seqs::lemma_take_next(configs@, i as int);
        }
        i += 1;
    }
    proof {
        seqs::lemma_take_all(configs@);
    }
    let s = order::sort_dedup_rows(all);
    proof {
        assert(contract::rows_below(s@, w)) by {
            assert forall|k: int| 0 <= k < s@.len() implies bits::below(#[trigger] s@[k], w) by {
                assert(s@.contains(s@[k]));
                let q = configs@.index_of(s@[k]);
                assert(bits::below(configs@[q], w));
            }
        }
    }
    if s.len() == 0 {
        let cubes: Vec<Subcube> = Vec::new();
        proof {
            assert(blockmerge::partitions(s@, cubes@, w));
        }
        return CoverPlan::Settled { cubes, fell_back: false };
    }
    if s.len() > limits.max_rows {
        return CoverPlan::Settled { cubes: block_merge(s.as_slice(), width), fell_back: true };
    }
    match prime_implicants(s.as_slice(), width, limits.pool_cap) {
        None => CoverPlan::Settled { cubes: block_merge(s.as_slice(), width), fell_back: true },
        Some(primes) => {
            let pool = candidate_pool(s.as_slice(), width, primes);
            proof {
                if pool@.len() > limits.pool_cap {
                    assert forall|k: int| 0 <= k < pool@.len() implies candidate(s@, w, #[trigger] pool@[k]) by {
                        assert(pool@.contains(pool@[k]));
                    }
                    assert(pool@.no_duplicates());
                } else {
                    assert forall|l: Seq<Subcube>| #[trigger] l.no_duplicates() && (forall|k: int| 0 <= k < l.len() ==> candidate(s@, w, #[trigger] l[k])) implies l.len() <= limits.pool_cap by {
                        assert forall|k: int| 0 <= k < l.len() implies pool@.contains(#[trigger] l[k]) by {
                            assert(candidate(s@, w, l[k]));
                        }
                        seqs::lemma_within(l, pool@);
                    }
                }
            }
            if pool.len() > limits.pool_cap {
                return CoverPlan::Settled { cubes: block_merge(s.as_slice(), width), fell_back: true };
            }
            assert(!over_limits(s@, w, *limits));
            let mut k: usize = 0;
            while k < pool.len()
                invariant
                    k <= pool@.len(),
                    w == width,
                    order::ascending64(s@),
                    forall|x: u64| #[trigger] s@.contains(x) <==> configs@.contains(x),
                    s@.len() > 0,
                    !over_limits(s@, w, *limits),
                    forall|c: Subcube| #[trigger] pool@.contains(c) <==> candidate(s@, w, c),
                    forall|j: int| 0 <= j < k ==> !has_all(s@, #[trigger] pool@[j]),
                decreases pool.len() - k,
            {
                if cube_has_all(&pool[k], &s) {
                    let cubes: Vec<Subcube> = vec![pool[k]];
                    proof {
                        let c = pool@[k as int];
                        assert(pool@.contains(c));
                        assert(cubes@ =~= seq![c]);
                        assert(inside(s@, w, c) && normal(c, w));
                        assert forall|x: u64| bits::below(x, w) implies (#[trigger] s@.contains(x) <==> blockmerge::covered(cubes@, cubes@.len() as int, x)) by {
                            if s@.contains(x) {
                                let q = s@.index_of(x);
                                assert(c.has(s@[q]));
                                assert(cubes@[0].has(x));
                            }
                            if blockmerge::covered(cubes@, cubes@.len() as int, x) {
                                assert(c.has(x));
                            }
                        }
                        assert(blockmerge::partitions(s@, cubes@, w));
                    }
                    return CoverPlan::Settled { cubes, fell_back: false };
                }
                k += 1;
            }
            let mut by_config: Vec<Vec<usize>> = Vec::new();
            let mut q: usize = 0;
            while q < s.len()
                invariant
                    q <= s@.len(),
                    by_config@.len() == q,
                    forall|j: int| 0 <= j < q ==> (#[trigger] by_config@[j])@ == places_of(pool@, s@[j], pool@.len() as int),
                decreases s.len() - q,
            {
                let x: u64 = s[q];
                let mut places: Vec<usize> = Vec::new();
                let mut k: usize = 0;
                while k < pool.len()
                    invariant
                        k <= pool@.len(),
                        places@ == places_of(pool@, x, k as int),
                    decreases pool.len() - k,
                {
                    if pool[k].holds(x) {
                        places.push(k);
                    }
                    k += 1;
                }
                by_config.push(places);
                q += 1;
            }
            CoverPlan::Choose { configs: s, pool, by_config }
        },
    }
}

/// Whether the subcube has all configurations.
fn cube_has_all(c: &Subcube, s: &Vec<u64>) -> (r: bool)
    ensures
        r == has_all(s@, *c),
{
    let mut q: usize = 0;
    while q < s.len()
        invariant
            q <= s@.len(),
            forall|j: int| 0 <= j < q ==> c.has(#[trigger] s@[j]),
        decreases s.len() - q,
    {
        if !c.holds(s[q]) {
            assert(!c.has(s@[q as int]));
            return false;
        }
        q += 1;
    }
    true
}

/// Turn a choice among the candidates into a cover: `None` where the chosen subcubes do not
/// partition the configurations.
pub fn gamma_cover_finish(configs: &[u64], width: usize, pool: &[Subcube], chosen: &[usize]) -> (r: Option<Vec<Subcube>>)
    requires
        width <= 64,
        order::ascending64(configs@),
        contract::rows_below(configs@, width as int),
        forall|k: int| 0 <= k < pool@.len() ==> bits::below((#[trigger] pool@[k]).mask, width as int),
        forall|k: int| 0 <= k < chosen@.len() ==> (#[trigger] chosen@[k]) < pool@.len(),
    ensures
        match r {
            Some(cubes) => cubes@ == chosen_cubes(pool@, chosen@) && blockmerge::partitions(configs@, cubes@, width as int),
            None => !blockmerge::partitions(configs@, chosen_cubes(pool@, chosen@), width as int),
        },
{
    let mut cubes: Vec<Subcube> = Vec::new();
    let mut k: usize = 0;
    while k < chosen.len()
        invariant
            k <= chosen@.len(),
            cubes@.len() == k,
            forall|j: int| 0 <= j < chosen@.len() ==> (#[trigger] chosen@[j]) < pool@.len(),
            forall|j: int| 0 <= j < k ==> #[trigger] cubes@[j] == pool@[chosen@[j] as int],
        decreases chosen.len() - k,
    {
        cubes.push(pool[chosen[k]]);
        k += 1;
    }
    proof {
        assert(cubes@ =~= chosen_cubes(pool@, chosen@));
        assert forall|j: int| 0 <= j < cubes@.len() implies bits::below((#[trigger] cubes@[j]).mask, width as int) by {
            assert(chosen@[j] < pool@.len());
            assert(bits::below(pool@[chosen@[j] as int].mask, width as int));
        }
    }
    if blockmerge::partition_is_valid(configs, cubes.as_slice(), width) {
        Some(cubes)
    } else {
        None
    }
}

/// The chosen subcubes.
pub open spec fn chosen_cubes(pool: Seq<Subcube>, chosen: Seq<usize>) -> Seq<Subcube> {
    Seq::new(chosen.len(), |k: int| pool[chosen[k] as int])
}

} // verus!
