use vstd::prelude::*;
use crate::geom::arith::div_floor_ceil;
use crate::geom::rect::IntRect;
use crate::geom::x_segment::XSegment;
use crate::segm::count::WindingCount;
use crate::segm::segment::Segment;
use crate::solver::{lemma_pow2_monotonic, pow2};
use crate::split::fragment::Fragment;

verus! {

/// The least depth of an interval tree.
pub const MIN_POWER: usize = 2;

/// The greatest depth of an interval tree.
pub const MAX_POWER: usize = 12;

/// The least height of a working set for which a tree is built.
pub const MIN_HEIGHT: usize = 4;

/// How an interval tree over a working set is laid out.
#[derive(Clone, Copy, Debug, PartialEq, Eq, Structural)]
pub struct SpaceLayout {
    /// The depth of the tree.
    pub power: usize,
    /// The height of a leaf: segments whose width and height both exceed
    /// it are worth breaking into fragments.
    pub min_size: u64,
}

/// The exponent that a search for the binary logarithm of `v` returns when
/// it has reached the exponent `e` and the power `p`: the search goes on
/// while twice the power does not exceed `v`.
pub open spec fn log2_from(v: int, e: nat, p: int) -> nat
    decreases v - p,
{
    if p >= 1 && 2 * p <= v {
        log2_from(v, e + 1, 2 * p)
    } else {
        e
    }
}

/// The binary logarithm of `v`, rounded down; 0 for `v == 0`.
pub open spec fn spec_log2(v: int) -> nat {
    log2_from(v, 0, 1)
}

/// The greatest `e` with `pow2(e) <= v`, and 0 for `v == 0`.
pub fn log2_floor(v: usize) -> (e: usize)
    ensures
        e == spec_log2(v as int),
        e < 64,
        v > 0 ==> pow2(e as nat) <= v,
        v > 0 ==> v < 2 * pow2(e as nat),
        v == 0 ==> e == 0,
{
    let mut e: usize = 0;
    let mut p: u128 = 1;
    let w: u128 = v as u128;
    while p * 2 <= w
        invariant
            p == pow2(e as nat),
            1 <= p,
            p <= w || w == 0,
            w == v,
            e < 64,
            w == 0 ==> e == 0,
            log2_from(v as int, e as nat, p as int) == spec_log2(v as int),
        decreases w - p,
    {
        proof {
            if e + 1 >= 64 {
                lemma_pow2_64();
                lemma_pow2_monotonic(64, (e + 1) as nat);
            }
        }
        p = p * 2;
        e += 1;
    }
    e
}

/// Two to the power 63 and 64.
pub proof fn lemma_pow2_64()
    ensures
        pow2(63) == 0x8000_0000_0000_0000,
        pow2(64) == 0x1_0000_0000_0000_0000,
        pow2(12) == 4096,
{
    reveal_with_fuel(pow2, 65);
}

/// Two to the power `e`.
pub fn pow2_of(e: usize) -> (r: u64)
    requires
        e <= 62,
    ensures
        r == pow2(e as nat),
        r >= 1,
{
    let mut r: u64 = 1;
    let mut k: usize = 0;
    while k < e
        invariant
            k <= e <= 62,
            r == pow2(k as nat),
            r >= 1,
        decreases e - k,
    {
        proof {
            lemma_pow2_monotonic((k + 1) as nat, 63);
            lemma_pow2_64();
        }
        r = r * 2;
        k += 1;
    }
    r
}

impl SpaceLayout {
    /// The layout for a working set of the given height and number of
    /// segments. The depth is one less than the binary logarithm of the
    /// height, but no more than half the binary logarithm of the number, and
    /// within the limits `MIN_POWER` and `MAX_POWER`; the height of a leaf is
    /// the height of the set divided by two to the power of the depth.
    pub open spec fn spec_new(height: usize, count: usize) -> SpaceLayout {
        let log_height = spec_log2(height as int);
        let max_power_range = if log_height > 0 {
            (log_height - 1) as nat
        } else {
            0
        };
        let max_power_count = spec_log2(count as int) / 2;
        let wanted_power = if max_power_range < max_power_count {
            max_power_range
        } else {
            max_power_count
        };
        let power = if wanted_power < MIN_POWER {
            MIN_POWER as nat
        } else if wanted_power > MAX_POWER {
            MAX_POWER as nat
        } else {
            wanted_power
        };
        SpaceLayout { power: power as usize, min_size: (height as int / pow2(power)) as u64 }
    }

    /// The layout for a working set of the given height and number of
    /// segments.
    pub fn new(height: usize, count: usize) -> (r: SpaceLayout)
        ensures
            r == Self::spec_new(height, count),
            MIN_POWER <= r.power <= MAX_POWER,
    {
        let log_height: usize = log2_floor(height);
        let max_power_range: usize = if log_height > 0 {
            log_height - 1
        } else {
            0
        };
        let max_power_count: usize = log2_floor(count) / 2;
        let wanted_power: usize = if max_power_range < max_power_count {
            max_power_range
        } else {
            max_power_count
        };
        let power: usize = if wanted_power < MIN_POWER {
            MIN_POWER
        } else if wanted_power > MAX_POWER {
            MAX_POWER
        } else {
            wanted_power
        };
        let cell: u64 = pow2_of(power);
        let min_size: u64 = (height as u64) / cell;
        SpaceLayout { power, min_size }
    }

    /// Whether the bounding rectangle of `s` is both wider and higher than a
    /// leaf.
    pub open spec fn spec_is_fragmentation_required(self, s: XSegment) -> bool {
        let r = s.spec_rect();
        r.max_x - r.min_x > self.min_size && r.max_y - r.min_y > self.min_size
    }

    /// Whether the bounding rectangle of `s` is both wider and higher than a
    /// leaf.
    pub fn is_fragmentation_required(&self, s: XSegment) -> (r: bool)
        ensures
            r == self.spec_is_fragmentation_required(s),
    {
        let rect: IntRect = s.rect();
        let dx: i64 = rect.max_x as i64 - rect.min_x as i64;
        let dy: i64 = rect.max_y as i64 - rect.min_y as i64;
        dx as u64 > self.min_size && dy as u64 > self.min_size
    }

    /// How many of the first `n` segments are worth breaking.
    pub open spec fn count_required<C: WindingCount>(self, edges: Seq<Segment<C>>, n: int) -> int
        decreases n,
    {
        if n <= 0 {
            0
        } else {
            self.count_required(edges, n - 1) + if self.spec_is_fragmentation_required(
                edges[n - 1].x_segment,
            ) {
                1int
            } else {
                0int
            }
        }
    }

    /// Whether more than one segment in twenty is worth breaking.
    pub fn is_fragmentation_required_for_edges<C: WindingCount>(&self, edges: &Vec<Segment<C>>) -> (r: bool)
        ensures
            r == (self.count_required(edges@, edges.len() as int) * 20 > edges.len()),
    {
        let n: usize = edges.len();
        let mut count: usize = 0;
        let mut i: usize = 0;
        while i < n
            invariant
                n == edges.len(),
                i <= n,
                count <= i,
                count == self.count_required(edges@, i as int),
            decreases n - i,
        {
            if self.is_fragmentation_required(edges[i].x_segment) {
                count += 1;
            }
            i += 1;
        }
        (count as u128) * 20 > n as u128
    }

    /// The fragment of the part of a segment between the heights `t0` and
    /// `t1` above its lesser end, where the part starts at the first
    /// coordinate `x0`. The rectangle reaches to the first coordinate of the
    /// segment at height `t1`, rounded up.
    pub open spec fn part(rect: IntRect, is_up: bool, index: usize, s: XSegment, t0: int, t1: int, x0: int) -> Fragment {
        let dx = rect.max_x - rect.min_x;
        let dy = rect.max_y - rect.min_y;
        let up = (dx * t1 + dy - 1) / dy;
        Fragment {
            index,
            rect: IntRect {
                min_x: x0 as i32,
                max_x: (rect.min_x + up) as i32,
                min_y: (if is_up {
                    rect.min_y + t0
                } else {
                    rect.max_y - t1
                }) as i32,
                max_y: (if is_up {
                    rect.min_y + t1
                } else {
                    rect.max_y - t0
                }) as i32,
            },
            x_segment: s,
        }
    }

    /// The fragments of a segment from the height `t0` on, each at most
    /// `step` high.
    pub open spec fn parts_from(
        step: int,
        rect: IntRect,
        is_up: bool,
        index: usize,
        s: XSegment,
        t0: int,
        x0: int,
    ) -> Seq<Fragment>
        decreases rect.max_y - rect.min_y - t0,
    {
        let dx = rect.max_x - rect.min_x;
        let dy = rect.max_y - rect.min_y;
        if t0 >= dy || step <= 0 {
            Seq::empty()
        } else {
            let t1 = if dy - t0 > step {
                t0 + step
            } else {
                dy
            };
            seq![Self::part(rect, is_up, index, s, t0, t1, x0)] + Self::parts_from(
                step,
                rect,
                is_up,
                index,
                s,
                t1,
                rect.min_x + dx * t1 / dy,
            )
        }
    }

    /// The fragments of segment `s`: the whole segment where it is not worth
    /// breaking, and else parts whose height is at most that of a leaf. The
    /// rectangle of a part holds every point of the segment whose second
    /// coordinate lies in the part's vertical range.
    pub open spec fn spec_broken(self, index: usize, s: XSegment) -> Seq<Fragment> {
        if !self.spec_is_fragmentation_required(s) || self.min_size == 0 {
            seq![Fragment::spec_with_index_and_segment(index, s)]
        } else {
            Self::parts_from(
                self.min_size as int,
                s.spec_rect(),
                s.a.y <= s.b.y,
                index,
                s,
                0,
                s.spec_rect().min_x as int,
            )
        }
    }

    /// Appends the fragments of segment `s` to `buffer`.
    pub fn break_into_fragments(&self, index: usize, s: XSegment, buffer: &mut Vec<Fragment>)
        ensures
            final(buffer)@ == old(buffer)@ + self.spec_broken(index, s),
    {
        if !self.is_fragmentation_required(s) || self.min_size == 0 {
            buffer.push(Fragment::with_index_and_segment(index, s));
            return ;
        }
        let rect: IntRect = s.rect();
        let dx: u64 = (rect.max_x as i64 - rect.min_x as i64) as u64;
        let dy: u64 = (rect.max_y as i64 - rect.min_y as i64) as u64;
        let is_up: bool = s.a.y <= s.b.y;
        let step: u64 = self.min_size;
        // `t` walks the height of the segment from its lesser end.
        let mut t0: u64 = 0;
        let mut x0: i64 = rect.min_x as i64;
        while t0 < dy
            invariant
                step > 0,
                t0 <= dy,
                dy <= 0xffff_ffff,
                dx <= 0xffff_ffff,
                dx == rect.max_x - rect.min_x,
                dy == rect.max_y - rect.min_y,
                rect.min_x <= x0 <= rect.max_x,
                rect == s.spec_rect(),
                buffer@ + Self::parts_from(step as int, rect, is_up, index, s, t0 as int, x0 as int) == old(
                    buffer,
                )@ + Self::parts_from(step as int, rect, is_up, index, s, 0, rect.min_x as int),
            decreases dy - t0,
        {
            let t1: u64 = if dy - t0 > step {
                t0 + step
            } else {
                dy
            };
            // The first coordinate at height `t1`, rounded down and up.
            assert(dx * t1 <= dy * dx && dy * dx <= 0xffff_ffff * 0xffff_ffff) by (nonlinear_arith)
                requires
                    dx <= 0xffff_ffff,
                    dy <= 0xffff_ffff,
                    t1 <= dy,
            ;
            let (down, up): (u64, u64) = div_floor_ceil(dx * t1, dy, dx);
            let x1_up: i64 = rect.min_x as i64 + up as i64;
            let x1_down: i64 = rect.min_x as i64 + down as i64;
            let (y_low, y_high): (i64, i64) = if is_up {
                (rect.min_y as i64 + t0 as i64, rect.min_y as i64 + t1 as i64)
            } else {
                (rect.max_y as i64 - t1 as i64, rect.max_y as i64 - t0 as i64)
            };
            let part: IntRect = IntRect {
                min_x: x0 as i32,
                max_x: x1_up as i32,
                min_y: y_low as i32,
                max_y: y_high as i32,
            };
            buffer.push(Fragment { index, rect: part, x_segment: s });
            x0 = x1_down;
            t0 = t1;
        }
    }

    /// The fragments of the first `n` segments of a working set.
    pub open spec fn all_broken<C: WindingCount>(self, edges: Seq<Segment<C>>, n: int) -> Seq<Fragment>
        decreases n,
    {
        if n <= 0 {
            Seq::empty()
        } else {
            self.all_broken(edges, n - 1) + self.spec_broken((n - 1) as usize, edges[n - 1].x_segment)
        }
    }
}

} // verus!
