//! The progressive scheduler: a pseudo-random, exhaustive, repeatable
//! visitation order over all pixels of a render target, the per-pixel sample
//! cache it drives, and the eager color-propagation pass.
//!
//! One full pass visits every pixel exactly once; wrapping past the last
//! scheduled pixel increments the full-pass counter and restarts the order.

use vstd::prelude::*;

verus! {

use crate::pixel::CopyNearPixel;
use crate::pixel::GenerationStatus;
use crate::pixel::PixelCache;
use crate::pixel::PixelCachePosition;
use crate::pixel::PixelPosition;
use crate::pixel::PixelRenderer;
use crate::pixel::RawLight;
use crate::rng::shuffle;
use crate::rng::SeededRng;
use vstd::arithmetic::div_mod::lemma_fundamental_div_mod_converse;
use vstd::arithmetic::div_mod::lemma_multiply_divide_lt;
use vstd::pervasive::VecAdditionalExecFns;

/// The pixel of row-major index `i` on a target `width` pixels wide.
pub open spec fn pos_of(i: int, width: int) -> PixelCachePosition
    recommends
        width >= 1,
        i >= 0,
{
    PixelCachePosition { x: (i % width) as usize, y: (i / width) as usize, index: i as usize }
}

/// `p` lies on the target and carries its own row-major index.
pub open spec fn pos_ok(p: PixelCachePosition, width: int, height: int) -> bool {
    &&& p.x < width
    &&& p.y < height
    &&& p.index == p.y * width + p.x
}

/// `s` schedules every pixel of a `width x height` target exactly once.
pub open spec fn is_full_order(s: Seq<PixelCachePosition>, width: int, height: int) -> bool {
    &&& s.len() == width * height
    &&& (forall|k: int| 0 <= k < s.len() ==> pos_ok(#[trigger] s[k], width, height))
    &&& (forall|i: int|
        0 <= i < width * height ==> #[trigger] s.to_multiset().count(pos_of(i, width)) == 1)
}

/// A valid position indexes into a cache of `width * height` entries.
pub proof fn lemma_pos_index_bound(p: PixelCachePosition, width: int, height: int)
    requires
        pos_ok(p, width, height),
    ensures
        p.index < width * height,
{
    assert(p.y * width + p.x < width * height) by (nonlinear_arith)
        requires
            p.x < width,
            p.y < height,
            0 <= p.x,
            0 <= p.y,
    ;
}

/// Radius of the eager color-propagation window.
pub const PROPAGATE_RADIUS: usize = 3;

/// Pixel `dst` lies in the propagation window of pixel `src` (both
/// row-major indices on a target `width` pixels wide): the half-open window
/// extends `PROPAGATE_RADIUS` before each coordinate of `src` and
/// `PROPAGATE_RADIUS - 1` after it, and does not contain `src` itself.
pub open spec fn covers(src: int, dst: int, width: int) -> bool
    recommends
        width >= 1,
{
    let sx = src % width;
    let sy = src / width;
    let dx = dst % width;
    let dy = dst / width;
    &&& dst != src
    &&& sx - PROPAGATE_RADIUS <= dx < sx + PROPAGATE_RADIUS
    &&& sy - PROPAGATE_RADIUS <= dy < sy + PROPAGATE_RADIUS
}

/// Rectilinear distance between two row-major pixel indices.
pub open spec fn rect_distance(src: int, dst: int, width: int) -> int
    recommends
        width >= 1,
{
    (vstd::math::abs(src % width - dst % width) as int) + (vstd::math::abs(
        src / width - dst / width,
    ) as int)
}

/// A pixel whose resolved color may be copied onto untouched neighbors: one
/// that holds a real sample.
pub open spec fn is_propagation_source(c: PixelCache) -> bool {
    c.status is Unstable || c.status is Final
}

/// An eager copy at distance `d` onto pixel `dst` is backed by an actual
/// source pixel of the pass' starting state.
pub open spec fn copy_justified(before: Seq<PixelCache>, dst: int, d: int, width: int) -> bool {
    exists|src: int|
        0 <= src < before.len() && is_propagation_source(#[trigger] before[src]) && covers(
            src,
            dst,
            width,
        ) && rect_distance(src, dst, width) == d
}

/// Some source pixel of the pass' starting state covers `dst`.
pub open spec fn has_source_cover(before: Seq<PixelCache>, dst: int, width: int) -> bool {
    exists|src: int|
        0 <= src < before.len() && is_propagation_source(#[trigger] before[src]) && covers(
            src,
            dst,
            width,
        )
}

/// How one propagation pass may change pixel `i`, coverage aside: sampled
/// data and resolved colors are never touched; pixels holding real samples
/// keep their status; an untouched pixel may gain (and a previously painted
/// pixel may improve to) an eager copy whose distance is backed by a real
/// source, with a strictly closer source required to overwrite an existing
/// copy.
pub open spec fn propagate_entry_safe(
    before: Seq<PixelCache>,
    after: Seq<PixelCache>,
    i: int,
    width: int,
) -> bool
    recommends
        0 <= i < before.len(),
        before.len() == after.len(),
{
    let b = before[i];
    let a = after[i];
    &&& a.last_color == b.last_color
    &&& a.incremental_raw_light == b.incremental_raw_light
    &&& a.nb_samples == b.nb_samples
    &&& a.same_color_count == b.same_color_count
    &&& (is_propagation_source(b) ==> a.status == b.status)
    &&& (b.status is NotStarted ==> (a.status is NotStarted || (a.status matches
    GenerationStatus::CopyNearPixel(cp) && copy_justified(before, i, cp.distance as int, width))))
    &&& (b.status matches GenerationStatus::CopyNearPixel(cp0) ==> (a.status matches
    GenerationStatus::CopyNearPixel(cp) && cp.distance <= cp0.distance && (cp.distance
        < cp0.distance ==> copy_justified(before, i, cp.distance as int, width))))
}

/// Pixel `d` of `cur` holds an eager copy recorded at distance `dist` or
/// closer.
pub open spec fn copy_at_most(cur: Seq<PixelCache>, d: int, dist: int) -> bool
    recommends
        0 <= d < cur.len(),
{
    cur[d].status matches GenerationStatus::CopyNearPixel(cp) && cp.distance <= dist
}

/// How one propagation pass may change pixel `i`: the safety clauses of
/// [`propagate_entry_safe`], and in addition an untouched pixel covered by
/// some source does not stay untouched.
pub open spec fn propagate_entry_rel(
    before: Seq<PixelCache>,
    after: Seq<PixelCache>,
    i: int,
    width: int,
) -> bool
    recommends
        0 <= i < before.len(),
        before.len() == after.len(),
{
    &&& propagate_entry_safe(before, after, i, width)
    &&& ((before[i].status is NotStarted && has_source_cover(before, i, width))
        ==> after[i].status is CopyNearPixel)
}

/// One advance of the scheduler cursor through an order of length `len`:
/// step within the pass, or wrap to the start and count a completed pass.
pub open spec fn step_state(cursor: nat, passes: nat, len: nat) -> (nat, nat) {
    if cursor + 1 < len {
        ((cursor + 1) as nat, passes)
    } else {
        (0nat, (passes + 1) as nat)
    }
}

/// The scheduler's state: pass counter, cursor, the per-pixel cache, the
/// visitation order, and the target size.
pub struct GeneratorData {
    pub full_render_count: u64,
    pub index: usize,
    pub pixel_cache: Vec<PixelCache>,
    pub pixels_order: Vec<PixelCachePosition>,
    pub width: usize,
    pub height: usize,
}

/// A scheduler whose visitation order is a freshly shuffled permutation of
/// all pixel indices.
pub struct RandomGenerator {
    data: GeneratorData,
}

/// Every pixel of a `width x height` target, in a pseudo-random order that
/// contains each exactly once.
fn get_random_positions(width: usize, height: usize, rng: &mut SeededRng) -> (r: Vec<
    PixelCachePosition,
>)
    requires
        width >= 1,
        height >= 1,
        width * height <= usize::MAX,
    ensures
        is_full_order(r@, width as int, height as int),
{
    let mut positions: Vec<PixelCachePosition> = Vec::new();
    let mut index: usize = 0;
    let mut y: usize = 0;
    while y < height
        invariant
            width >= 1,
            height >= 1,
            width * height <= usize::MAX,
            y <= height,
            index == y * width,
            positions@.len() == index,
            forall|k: int|
                0 <= k < positions@.len() ==> pos_ok(#[trigger] positions@[k], width as int, height as int)
                    && positions@[k] == pos_of(k, width as int),
        decreases height - y,
    {
        let mut x: usize = 0;
        proof {
            assert((y + 1) * width <= height * width) by (nonlinear_arith)
                requires
                    y < height,
                    0 <= width,
            ;
            assert(y * width + width == (y + 1) * width) by (nonlinear_arith);
        }
        while x < width
            invariant
                width >= 1,
                height >= 1,
                width * height <= usize::MAX,
                y < height,
                x <= width,
                index == y * width + x,
                y * width + width <= usize::MAX,
                positions@.len() == index,
                forall|k: int|
                    0 <= k < positions@.len() ==> pos_ok(
                        #[trigger] positions@[k],
                        width as int,
                        height as int,
                    ) && positions@[k] == pos_of(k, width as int),
            decreases width - x,
        {
            positions.push(PixelCachePosition { x, y, index });
            proof {
                lemma_fundamental_div_mod_converse(
                    index as int,
                    width as int,
                    y as int,
                    x as int,
                );
            }
            index = index + 1;
            x = x + 1;
        }
        y = y + 1;
    }
    proof {
        assert(height * width == width * height) by (nonlinear_arith);
        assert(positions@.no_duplicates()) by {
            assert(forall|k1: int, k2: int|
                0 <= k1 < positions@.len() && 0 <= k2 < positions@.len() && k1 != k2
                    ==> #[trigger] positions@[k1].index != #[trigger] positions@[k2].index);
        }
        positions@.lemma_multiset_has_no_duplicates();
        broadcast use vstd::seq_lib::group_to_multiset_ensures;

        assert forall|i: int| 0 <= i < width * height implies #[trigger] positions@.to_multiset()
            .count(pos_of(i, width as int)) == 1 by {
            assert(positions@[i] == pos_of(i, width as int));
            assert(positions@.contains(pos_of(i, width as int)));
        }
    }
    shuffle(&mut positions, rng);
    proof {
        broadcast use vstd::seq_lib::group_to_multiset_ensures;

        assert forall|k: int| 0 <= k < positions@.len() implies pos_ok(
            #[trigger] positions@[k],
            width as int,
            height as int,
        ) by {
            assert(positions@.contains(positions@[k]));
            assert(positions@.to_multiset().count(positions@[k]) > 0);
        }
    }
    positions
}

/// Squared distance between two coordinates along one axis.
pub open spec fn sq_offset(a: int, b: int) -> int {
    (a - b) * (a - b)
}

/// Every pixel within the window of radius `radius` around `(x, y)` whose
/// squared distance from the center is under `radius * radius`, in a
/// pseudo-random order: the disc a host schedules first to refine the image
/// around a point of interest.
#[verifier::loop_isolation(false)]
#[verifier::rlimit(30)]
pub fn get_positions_around(
    width: usize,
    height: usize,
    rng: &mut SeededRng,
    x: usize,
    y: usize,
    radius: usize,
) -> (r: Vec<PixelCachePosition>)
    requires
        width >= 1,
        height >= 1,
        width * height <= usize::MAX,
        x < width,
        y < height,
        radius * radius * 2 <= usize::MAX,
    ensures
        forall|k: int|
            0 <= k < r@.len() ==> pos_ok(#[trigger] r@[k], width as int, height as int)
                && sq_offset(r@[k].x as int, x as int) + sq_offset(r@[k].y as int, y as int)
                < radius * radius,
        forall|px: int, py: int|
            0 <= px < width && 0 <= py < height && x - radius <= px < x + radius && y - radius
                <= py < y + radius && #[trigger] sq_offset(px, x as int) + #[trigger] sq_offset(
                py,
                y as int,
            ) < radius * radius ==> exists|k: int|
                0 <= k < r@.len() && (#[trigger] r@[k]).x == px && r@[k].y == py,
{
    let mut positions: Vec<PixelCachePosition> = Vec::new();
    let y0 = if y >= radius {
        y - radius
    } else {
        0
    };
    let y1 = if height - y > radius {
        y + radius
    } else {
        height
    };
    let x0 = if x >= radius {
        x - radius
    } else {
        0
    };
    let x1 = if width - x > radius {
        x + radius
    } else {
        width
    };
    let mut ny = y0;
    while ny < y1
        invariant
            y0 <= ny <= y1,
            forall|k: int|
                0 <= k < positions@.len() ==> pos_ok(
                    #[trigger] positions@[k],
                    width as int,
                    height as int,
                ) && sq_offset(positions@[k].x as int, x as int) + sq_offset(
                    positions@[k].y as int,
                    y as int,
                ) < radius * radius,
            forall|px: int, py: int|
                x0 <= px < x1 && y0 <= py < ny && #[trigger] sq_offset(px, x as int)
                    + #[trigger] sq_offset(py, y as int) < radius * radius ==> exists|k: int|
                    0 <= k < positions@.len() && (#[trigger] positions@[k]).x == px
                        && positions@[k].y == py,
        decreases y1 - ny,
    {
        let mut nx = x0;
        while nx < x1
            invariant
                y0 <= ny < y1,
                x0 <= nx <= x1,
                forall|k: int|
                    0 <= k < positions@.len() ==> pos_ok(
                        #[trigger] positions@[k],
                        width as int,
                        height as int,
                    ) && sq_offset(positions@[k].x as int, x as int) + sq_offset(
                        positions@[k].y as int,
                        y as int,
                    ) < radius * radius,
                forall|px: int, py: int|
                    x0 <= px < x1 && y0 <= py < ny && #[trigger] sq_offset(px, x as int)
                        + #[trigger] sq_offset(py, y as int) < radius * radius ==> exists|k: int|
                        0 <= k < positions@.len() && (#[trigger] positions@[k]).x == px
                            && positions@[k].y == py,
                forall|px: int|
                    x0 <= px < nx && #[trigger] sq_offset(px, x as int) + sq_offset(
                        ny as int,
                        y as int,
                    ) < radius * radius ==> exists|k: int|
                        0 <= k < positions@.len() && (#[trigger] positions@[k]).x == px
                            && positions@[k].y == ny,
            decreases x1 - nx,
        {
            let ghost entry_snap = positions@;
            let dy = if ny >= y {
                ny - y
            } else {
                y - ny
            };
            let dx = if nx >= x {
                nx - x
            } else {
                x - nx
            };
            proof {
                assert(dx * dx <= radius * radius) by (nonlinear_arith)
                    requires
                        dx <= radius,
                ;
                assert(dy * dy <= radius * radius) by (nonlinear_arith)
                    requires
                        dy <= radius,
                ;
                assert(sq_offset(nx as int, x as int) == (dx as int) * (dx as int))
                    by (nonlinear_arith)
                    requires
                        dx == nx - x || dx == x - nx,
                ;
                assert(sq_offset(ny as int, y as int) == (dy as int) * (dy as int))
                    by (nonlinear_arith)
                    requires
                        dy == ny - y || dy == y - ny,
                ;
            }
            let sq = dy * dy + dx * dx;
            if sq < radius * radius {
                proof {
                    assert(ny * width + nx < height * width) by (nonlinear_arith)
                        requires
                            ny < height,
                            nx < width,
                            0 <= ny,
                            0 <= nx,
                    ;
                    assert(height * width == width * height) by (nonlinear_arith);
                }
                let ni = nx + ny * width;
                positions.push(PixelCachePosition { x: nx, y: ny, index: ni });
            }
            proof {
                assert forall|px: int, py: int|
                    x0 <= px < x1 && y0 <= py < ny && #[trigger] sq_offset(px, x as int)
                        + #[trigger] sq_offset(py, y as int) < radius * radius implies exists|
                    k: int,
                |
                    0 <= k < positions@.len() && (#[trigger] positions@[k]).x == px
                        && positions@[k].y == py by {
                    let k = choose|k: int|
                        0 <= k < entry_snap.len() && (#[trigger] entry_snap[k]).x == px
                            && entry_snap[k].y == py;
                    assert(positions@[k] == entry_snap[k]);
                }
                assert forall|px: int|
                    x0 <= px < nx + 1 && #[trigger] sq_offset(px, x as int) + sq_offset(
                        ny as int,
                        y as int,
                    ) < radius * radius implies exists|k: int|
                    0 <= k < positions@.len() && (#[trigger] positions@[k]).x == px
                        && positions@[k].y == ny by {
                    if px == nx {
                        assert(positions@[positions@.len() - 1].x == nx && positions@[positions@.len()
                            - 1].y == ny);
                    } else {
                        let k = choose|k: int|
                            0 <= k < entry_snap.len() && (#[trigger] entry_snap[k]).x == px
                                && entry_snap[k].y == ny;
                        assert(positions@[k] == entry_snap[k]);
                    }
                }
            }
            nx = nx + 1;
        }
        ny = ny + 1;
    }
    let ghost pre = positions@;
    shuffle(&mut positions, rng);
    proof {
        broadcast use vstd::seq_lib::group_to_multiset_ensures;

        assert forall|k: int| 0 <= k < positions@.len() implies pos_ok(
            #[trigger] positions@[k],
            width as int,
            height as int,
        ) && sq_offset(positions@[k].x as int, x as int) + sq_offset(
            positions@[k].y as int,
            y as int,
        ) < radius * radius by {
            assert(positions@.contains(positions@[k]));
            assert(positions@.to_multiset().count(positions@[k]) > 0);
            assert(pre.contains(positions@[k]));
        }
        assert forall|px: int, py: int|
            0 <= px < width && 0 <= py < height && x - radius <= px < x + radius && y - radius
                <= py < y + radius && #[trigger] sq_offset(px, x as int) + #[trigger] sq_offset(
                py,
                y as int,
            ) < radius * radius implies exists|k: int|
                0 <= k < positions@.len() && (#[trigger] positions@[k]).x == px && positions@[k].y
                    == py by {
            let j = choose|j: int| 0 <= j < pre.len() && (#[trigger] pre[j]).x == px && pre[j].y
                == py;
            assert(pre.contains(pre[j]));
            assert(positions@.to_multiset().count(pre[j]) > 0);
            assert(positions@.contains(pre[j]));
            let k = choose|k: int| 0 <= k < positions@.len() && positions@[k] == pre[j];
            assert(0 <= k < positions@.len() && (positions@[k]).x == px && positions@[k].y == py);
        }
    }
    positions
}

/// A fresh cache of `n` untouched pixels.
fn fresh_pixel_cache(n: usize) -> (r: Vec<PixelCache>)
    ensures
        r@.len() == n,
        forall|i: int| 0 <= i < n ==> #[trigger] r@[i] == PixelCache::spec_fresh(),
{
    let mut cache: Vec<PixelCache> = Vec::new();
    let mut i: usize = 0;
    while i < n
        invariant
            i <= n,
            cache@.len() == i,
            forall|k: int| 0 <= k < i ==> #[trigger] cache@[k] == PixelCache::spec_fresh(),
        decreases n - i,
    {
        cache.push(PixelCache::fresh());
        i = i + 1;
    }
    cache
}

impl RandomGenerator {
    /// Target width in pixels.
    pub closed spec fn width(self) -> int {
        self.data.width as int
    }

    /// Target height in pixels.
    pub closed spec fn height(self) -> int {
        self.data.height as int
    }

    /// Position of the cursor within the current visitation order.
    pub closed spec fn cursor(self) -> int {
        self.data.index as int
    }

    /// How many full passes over the order have completed.
    pub closed spec fn passes(self) -> int {
        self.data.full_render_count as int
    }

    /// The per-pixel cache, row-major.
    pub closed spec fn cache(self) -> Seq<PixelCache> {
        self.data.pixel_cache@
    }

    /// The current visitation order.
    pub closed spec fn order(self) -> Seq<PixelCachePosition> {
        self.data.pixels_order@
    }

    /// Structural consistency: the cache covers the target, every scheduled
    /// position lies on the target, the cursor is in range, and every cache
    /// entry is internally consistent.
    pub open spec fn wf(self) -> bool {
        &&& self.width() >= 1
        &&& self.height() >= 1
        &&& self.width() * self.height() <= usize::MAX
        &&& self.cache().len() == self.width() * self.height()
        &&& (forall|k: int|
            0 <= k < self.order().len() ==> pos_ok(
                #[trigger] self.order()[k],
                self.width(),
                self.height(),
            ))
        &&& self.order().len() <= usize::MAX
        &&& (self.cursor() < self.order().len() || self.cursor() == 0)
        &&& (forall|i: int| 0 <= i < self.cache().len() ==> (#[trigger] self.cache()[i]).wf())
    }

    /// The scheduler as freshly built or invalidated: nothing visited,
    /// nothing cached, and a full pseudo-random order installed.
    pub open spec fn is_reset(self, width: int, height: int) -> bool {
        &&& self.width() == width
        &&& self.height() == height
        &&& self.cursor() == 0
        &&& self.passes() == 0
        &&& self.cache().len() == width * height
        &&& (forall|i: int|
            0 <= i < self.cache().len() ==> #[trigger] self.cache()[i]
                == PixelCache::spec_fresh())
        &&& is_full_order(self.order(), width, height)
    }

    /// A scheduler for a `width x height` target with a freshly shuffled
    /// visitation order.
    pub fn new(width: usize, height: usize, random: &mut SeededRng) -> (g: RandomGenerator)
        requires
            width >= 1,
            height >= 1,
            width * height <= usize::MAX,
        ensures
            g.wf(),
            g.is_reset(width as int, height as int),
    {
        let order = get_random_positions(width, height, random);
        let cache = fresh_pixel_cache(width * height);
        RandomGenerator {
            data: GeneratorData {
                full_render_count: 0,
                index: 0,
                pixel_cache: cache,
                pixels_order: order,
                width,
                height,
            },
        }
    }

    /// Forget everything: fresh cache, fresh order, counters to zero,
    /// possibly for a new target size.
    pub fn invalidate_pixels(&mut self, width: usize, height: usize, random: &mut SeededRng)
        requires
            width >= 1,
            height >= 1,
            width * height <= usize::MAX,
        ensures
            final(self).wf(),
            final(self).is_reset(width as int, height as int),
    {
        let order = get_random_positions(width, height, random);
        let cache = fresh_pixel_cache(width * height);
        self.data.index = 0;
        self.data.full_render_count = 0;
        self.data.pixel_cache = cache;
        self.data.pixels_order = order;
        self.data.width = width;
        self.data.height = height;
    }

    /// Install a caller-chosen visitation order (for example a disc around
    /// the mouse) and restart the pass counters; the cache is kept.
    pub fn set_pixels_order(
        &mut self,
        width: usize,
        height: usize,
        positions: Vec<PixelCachePosition>,
    )
        requires
            old(self).wf(),
            forall|k: int|
                0 <= k < positions@.len() ==> pos_ok(
                    #[trigger] positions@[k],
                    old(self).width(),
                    old(self).height(),
                ),
        ensures
            final(self).wf(),
            final(self).order() == positions@,
            final(self).cursor() == 0,
            final(self).passes() == 0,
            final(self).cache() == old(self).cache(),
            final(self).width() == old(self).width(),
            final(self).height() == old(self).height(),
    {
        // The target size itself is unchanged; the size parameters mirror
        // the other entry points. The call keeps the order's length within
        // address range.
        let _ = width;
        let _ = height;
        let _len = positions.len();
        self.data.index = 0;
        self.data.full_render_count = 0;
        self.data.pixels_order = positions;
    }

    /// The position the cursor currently rests on, `None` when nothing is
    /// scheduled.
    pub fn get_pixel(&self) -> (r: Option<PixelCachePosition>)
        requires
            self.wf(),
        ensures
            self.order().len() == 0 ==> r is None,
            self.order().len() > 0 ==> r == Some(self.order()[self.cursor()]),
    {
        if self.data.pixels_order.len() == 0 {
            return None;
        }
        Some(self.data.pixels_order[self.data.index])
    }

    /// Advance the cursor; wrapping past the end of the order returns `None`,
    /// resets the cursor and counts one completed full pass.
    pub fn next(&mut self) -> (r: Option<()>)
        requires
            old(self).wf(),
            old(self).passes() < u64::MAX,
        ensures
            final(self).wf(),
            final(self).cache() == old(self).cache(),
            final(self).order() == old(self).order(),
            final(self).width() == old(self).width(),
            final(self).height() == old(self).height(),
            old(self).cursor() + 1 < old(self).order().len() ==> {
                &&& final(self).cursor() == old(self).cursor() + 1
                &&& final(self).passes() == old(self).passes()
                &&& r is Some
            },
            !(old(self).cursor() + 1 < old(self).order().len()) ==> {
                &&& final(self).cursor() == 0
                &&& final(self).passes() == old(self).passes() + 1
                &&& r is None
            },
            (final(self).cursor() as nat, final(self).passes() as nat) == step_state(
                old(self).cursor() as nat,
                old(self).passes() as nat,
                old(self).order().len() as nat,
            ),
    {
        self.data.index = self.data.index + 1;
        if self.data.index >= self.data.pixels_order.len() {
            self.data.index = 0;
            self.data.full_render_count = self.data.full_render_count + 1;
            None
        } else {
            Some(())
        }
    }

    /// The completed-pass counter and the cursor.
    pub fn get_index(&self) -> (r: (u64, usize))
        ensures
            r.0 == self.passes(),
            r.1 == self.cursor(),
    {
        (self.data.full_render_count, self.data.index)
    }

    /// The cached state of the pixel at row-major index `index`.
    pub fn pixel_cache_at(&self, index: usize) -> (c: PixelCache)
        requires
            index < self.cache().len(),
        ensures
            c == self.cache()[index as int],
    {
        self.data.pixel_cache[index]
    }

    /// Fold freshly traced samples for the pixel under the cursor into its
    /// cache entry and push the resolved color to the sink. A pixel already
    /// marked Final is left untouched (its samples are never re-taken);
    /// `None` only when nothing is scheduled at all.
    pub fn generate_pixel<S: PixelRenderer>(
        &mut self,
        sample_sum: RawLight,
        samples: u64,
        renderer: &mut S,
    ) -> (r: Option<()>)
        requires
            old(self).wf(),
            samples >= 1,
            old(self).order().len() > 0 ==> {
                let p = old(self).order()[old(self).cursor()];
                let c = old(self).cache()[p.index as int];
                !(c.status is Final) ==> {
                    &&& c.raw_or_zero().r + sample_sum.r <= u64::MAX
                    &&& c.raw_or_zero().g + sample_sum.g <= u64::MAX
                    &&& c.raw_or_zero().b + sample_sum.b <= u64::MAX
                    &&& c.nb_samples + samples <= u64::MAX
                }
            },
        ensures
            final(self).wf(),
            final(self).order() == old(self).order(),
            final(self).cursor() == old(self).cursor(),
            final(self).passes() == old(self).passes(),
            final(self).width() == old(self).width(),
            final(self).height() == old(self).height(),
            old(self).order().len() == 0 ==> {
                &&& r is None
                &&& final(self).cache() == old(self).cache()
            },
            old(self).order().len() > 0 ==> {
                let p = old(self).order()[old(self).cursor()];
                let c = old(self).cache()[p.index as int];
                &&& r is Some
                &&& (c.status is Final ==> final(self).cache() == old(self).cache())
                &&& (!(c.status is Final) ==> final(self).cache() == old(self).cache().update(
                    p.index as int,
                    c.spec_accumulate(sample_sum, samples),
                ))
            },
    {
        if self.data.pixels_order.len() == 0 {
            return None;
        }
        let pos = self.data.pixels_order[self.data.index];
        proof {
            lemma_pos_index_bound(pos, self.width(), self.height());
        }
        let i = pos.index;
        if matches!(self.data.pixel_cache[i].status, GenerationStatus::Final) {
            return Some(());
        }
        let entry = &mut self.data.pixel_cache[i];
        let color = entry.accumulate(sample_sum, samples);
        renderer.set_pixel(PixelPosition { x: pos.x, y: pos.y }, color);
        Some(())
    }

    /// Every unchanged-frame fact the propagation pass maintains: the
    /// scheduler's counters, order and size are untouched, every entry stays
    /// consistent, and every entry respects the pass' safety clauses.
    spec fn propagate_frame(pre: RandomGenerator, cur: RandomGenerator) -> bool {
        &&& cur.wf()
        &&& cur.order() == pre.order()
        &&& cur.cursor() == pre.cursor()
        &&& cur.passes() == pre.passes()
        &&& cur.width() == pre.width()
        &&& cur.height() == pre.height()
        &&& cur.cache().len() == pre.cache().len()
        &&& forall|i: int|
            0 <= i < pre.cache().len() ==> propagate_entry_safe(
                pre.cache(),
                cur.cache(),
                i,
                pre.width(),
            )
    }

    /// Spread resolved colors onto nearby untouched pixels: every pixel that
    /// holds a real sample paints the untouched pixels of its window with
    /// its last resolved color, a strictly closer source overwriting a
    /// farther one's eager guess but never a real sample. Afterwards the
    /// recorded distance of a painted pixel is exact: some covering source
    /// sits at that distance, and no covering source sits closer.
    #[verifier::loop_isolation(false)]
    #[verifier::rlimit(60)]
    pub fn propagate_pixels<S: PixelRenderer>(&mut self, renderer: &mut S)
        requires
            old(self).wf(),
        ensures
            final(self).wf(),
            final(self).order() == old(self).order(),
            final(self).cursor() == old(self).cursor(),
            final(self).passes() == old(self).passes(),
            final(self).width() == old(self).width(),
            final(self).height() == old(self).height(),
            final(self).cache().len() == old(self).cache().len(),
            forall|i: int|
                0 <= i < old(self).cache().len() ==> propagate_entry_rel(
                    old(self).cache(),
                    final(self).cache(),
                    i,
                    old(self).width(),
                ),
            forall|j: int, i: int|
                0 <= j < old(self).cache().len() && 0 <= i < old(self).cache().len()
                    && is_propagation_source(old(self).cache()[j]) && !is_propagation_source(
                    old(self).cache()[i],
                ) && #[trigger] covers(j, i, old(self).width()) ==> copy_at_most(
                    final(self).cache(),
                    i,
                    rect_distance(j, i, old(self).width()),
                ),
    {
        let w = self.data.width;
        let h = self.data.height;
        let n = self.data.pixel_cache.len();
        let mut src: usize = 0;
        while src < n
            invariant
                Self::propagate_frame(*old(self), *self),
                src <= n,
                forall|j: int, d: int|
                    0 <= j < src && 0 <= d < n && is_propagation_source(old(self).cache()[j])
                        && !is_propagation_source(old(self).cache()[d]) && #[trigger] covers(
                        j,
                        d,
                        w as int,
                    ) ==> copy_at_most(self.cache(), d, rect_distance(j, d, w as int)),
            decreases n - src,
        {
            let entry = self.data.pixel_cache[src];
            let is_source = matches!(
                entry.status,
                GenerationStatus::Unstable | GenerationStatus::Final
            );
            if is_source {
                {
                    proof {
                        assert(propagate_entry_safe(
                            old(self).cache(),
                            self.cache(),
                            src as int,
                            w as int,
                        ));
                        lemma_multiply_divide_lt(src as int, w as int, h as int);
                    }
                    let color = entry.last_color.unwrap();
                    let sx = src % w;
                    let sy = src / w;
                    let x0 = if sx >= PROPAGATE_RADIUS {
                        sx - PROPAGATE_RADIUS
                    } else {
                        0
                    };
                    let x1 = if w - sx > PROPAGATE_RADIUS {
                        sx + PROPAGATE_RADIUS
                    } else {
                        w
                    };
                    let y0 = if sy >= PROPAGATE_RADIUS {
                        sy - PROPAGATE_RADIUS
                    } else {
                        0
                    };
                    let y1 = if h - sy > PROPAGATE_RADIUS {
                        sy + PROPAGATE_RADIUS
                    } else {
                        h
                    };
                    let mut y = y0;
                    while y < y1
                        invariant
                            Self::propagate_frame(*old(self), *self),
                            y0 <= y <= y1,
                            forall|j: int, d: int|
                                0 <= j < src && 0 <= d < n && is_propagation_source(
                                    old(self).cache()[j],
                                ) && !is_propagation_source(old(self).cache()[d])
                                    && #[trigger] covers(j, d, w as int) ==> copy_at_most(
                                    self.cache(),
                                    d,
                                    rect_distance(j, d, w as int),
                                ),
                            forall|d: int|
                                0 <= d < n && #[trigger] covers(src as int, d, w as int)
                                    && !is_propagation_source(old(self).cache()[d]) && d / (
                                w as int) < y ==> copy_at_most(
                                    self.cache(),
                                    d,
                                    rect_distance(src as int, d, w as int),
                                ),
                        decreases y1 - y,
                    {
                        let mut x = x0;
                        while x < x1
                            invariant
                                Self::propagate_frame(*old(self), *self),
                                y0 <= y < y1,
                                x0 <= x <= x1,
                                forall|j: int, d: int|
                                    0 <= j < src && 0 <= d < n && is_propagation_source(
                                        old(self).cache()[j],
                                    ) && !is_propagation_source(old(self).cache()[d])
                                        && #[trigger] covers(j, d, w as int) ==> copy_at_most(
                                        self.cache(),
                                        d,
                                        rect_distance(j, d, w as int),
                                    ),
                                forall|d: int|
                                    0 <= d < n && #[trigger] covers(src as int, d, w as int)
                                        && !is_propagation_source(old(self).cache()[d]) && (d / (
                                    w as int) < y || (d / (w as int) == y && d % (w as int) < x))
                                        ==> copy_at_most(
                                        self.cache(),
                                        d,
                                        rect_distance(src as int, d, w as int),
                                    ),
                            decreases x1 - x,
                        {
                            proof {
                                assert(y * w + x < h * w) by (nonlinear_arith)
                                    requires
                                        y < h,
                                        x < w,
                                        0 <= y,
                                        0 <= x,
                                ;
                                assert(h * w == w * h) by (nonlinear_arith);
                            }
                            let ni = y * w + x;
                            proof {
                                lemma_fundamental_div_mod_converse(
                                    ni as int,
                                    w as int,
                                    y as int,
                                    x as int,
                                );
                            }
                            if ni != src {
                                let near = self.data.pixel_cache[ni];
                                let dx = if sx >= x {
                                    sx - x
                                } else {
                                    x - sx
                                };
                                let dy = if sy >= y {
                                    sy - y
                                } else {
                                    y - sy
                                };
                                let distance = dx + dy;
                                proof {
                                    assert(covers(src as int, ni as int, w as int));
                                    assert(rect_distance(src as int, ni as int, w as int)
                                        == distance);
                                }
                                let do_write: bool = match near.status {
                                    GenerationStatus::NotStarted => true,
                                    GenerationStatus::CopyNearPixel(copy) => copy.distance
                                        > distance,
                                    _ => false,
                                };
                                if do_write {
                                    proof {
                                        assert(propagate_entry_safe(
                                            old(self).cache(),
                                            self.cache(),
                                            ni as int,
                                            w as int,
                                        ));
                                        assert(copy_justified(
                                            old(self).cache(),
                                            ni as int,
                                            distance as int,
                                            w as int,
                                        )) by {
                                            assert(is_propagation_source(
                                                old(self).cache()[src as int],
                                            ) && covers(src as int, ni as int, w as int)
                                                && rect_distance(src as int, ni as int, w as int)
                                                == distance);
                                        }
                                    }
                                    let ghost pre_write = self.cache();
                                    let updated = PixelCache {
                                        last_color: near.last_color,
                                        incremental_raw_light: near.incremental_raw_light,
                                        status: GenerationStatus::CopyNearPixel(
                                            CopyNearPixel { distance },
                                        ),
                                        same_color_count: near.same_color_count,
                                        nb_samples: near.nb_samples,
                                    };
                                    self.data.pixel_cache.set(ni, updated);
                                    renderer.set_pixel(PixelPosition { x, y }, color);
                                    proof {
                                        assert forall|i: int|
                                            0 <= i < old(self).cache().len() implies
                                            propagate_entry_safe(
                                            old(self).cache(),
                                            self.cache(),
                                            i,
                                            w as int,
                                        ) by {
                                            if i != ni {
                                                assert(self.cache()[i] == pre_write[i]);
                                                assert(propagate_entry_safe(
                                                    old(self).cache(),
                                                    pre_write,
                                                    i,
                                                    w as int,
                                                ));
                                            } else {
                                                assert(propagate_entry_safe(
                                                    old(self).cache(),
                                                    pre_write,
                                                    ni as int,
                                                    w as int,
                                                ));
                                                assert(near == pre_write[ni as int]);
                                                assert(self.cache()[ni as int] == updated);
                                            }
                                        }
                                        assert(pre_write[ni as int].wf());
                                        assert(self.cache()[ni as int].wf());
                                        assert(copy_at_most(self.cache(), ni as int, distance as int));
                                    }
                                }
                                proof {
                                    let wi = w as int;
                                    assert forall|d: int|
                                        0 <= d < n && #[trigger] covers(src as int, d, wi)
                                            && !is_propagation_source(old(self).cache()[d]) && (d
                                            / wi < y || (d / wi == y && d % wi < x + 1)) implies
                                        copy_at_most(
                                        self.cache(),
                                        d,
                                        rect_distance(src as int, d, wi),
                                    ) by {
                                        vstd::arithmetic::div_mod::lemma_fundamental_div_mod(
                                            d,
                                            wi,
                                        );
                                        assert(propagate_entry_safe(
                                            old(self).cache(),
                                            self.cache(),
                                            d,
                                            wi,
                                        ));
                                        if d / wi == y && d % wi == x {
                                            assert(wi * y == y * wi) by (nonlinear_arith);
                                            assert(d == y * wi + x);
                                            assert(d == ni);
                                        }
                                    }
                                }
                            } else {
                                proof {
                                    let wi = w as int;
                                    assert forall|d: int|
                                        0 <= d < n && #[trigger] covers(src as int, d, wi)
                                            && !is_propagation_source(old(self).cache()[d]) && (d
                                            / wi < y || (d / wi == y && d % wi < x + 1)) implies
                                        copy_at_most(
                                        self.cache(),
                                        d,
                                        rect_distance(src as int, d, wi),
                                    ) by {
                                        vstd::arithmetic::div_mod::lemma_fundamental_div_mod(
                                            d,
                                            wi,
                                        );
                                        if d / wi == y && d % wi == x {
                                            assert(wi * y == y * wi) by (nonlinear_arith);
                                            assert(d == y * wi + x);
                                            assert(d == ni);
                                        }
                                    }
                                }
                            }
                            x = x + 1;
                        }
                        proof {
                            assert forall|d: int|
                                0 <= d < n && #[trigger] covers(src as int, d, w as int)
                                    && !is_propagation_source(old(self).cache()[d]) && d / (
                            w as int) < y + 1 implies copy_at_most(
                                self.cache(),
                                d,
                                rect_distance(src as int, d, w as int),
                            ) by {
                                if d / (w as int) == y {
                                    assert(d % (w as int) < w as int);
                                }
                            }
                        }
                        y = y + 1;
                    }
                    proof {
                        assert forall|j: int, d: int|
                            0 <= j < src + 1 && 0 <= d < n && is_propagation_source(
                                old(self).cache()[j],
                            ) && !is_propagation_source(old(self).cache()[d]) && #[trigger] covers(
                            j,
                            d,
                            w as int,
                        ) implies copy_at_most(self.cache(), d, rect_distance(j, d, w as int)) by {
                            if j == src {
                                lemma_multiply_divide_lt(d, w as int, h as int);
                                assert(d % (w as int) < w as int);
                                assert(d / (w as int) < y1);
                            }
                        }
                    }
                }
            } else {
                proof {
                    assert(propagate_entry_safe(
                        old(self).cache(),
                        self.cache(),
                        src as int,
                        w as int,
                    ));
                    assert(!is_propagation_source(old(self).cache()[src as int]));
                }
            }
            src = src + 1;
        }
        proof {
            assert(w as int == old(self).width());
            assert forall|i: int| 0 <= i < old(self).cache().len() implies propagate_entry_rel(
                old(self).cache(),
                self.cache(),
                i,
                old(self).width(),
            ) by {
                if old(self).cache()[i].status is NotStarted && has_source_cover(
                    old(self).cache(),
                    i,
                    w as int,
                ) {
                    let j = choose|j: int|
                        0 <= j < old(self).cache().len() && is_propagation_source(
                            #[trigger] old(self).cache()[j],
                        ) && covers(j, i, w as int);
                    assert(copy_at_most(self.cache(), i, rect_distance(j, i, w as int)));
                    assert(self.cache()[i].status is CopyNearPixel);
                }
            }
        }
    }
}

} // verus!
