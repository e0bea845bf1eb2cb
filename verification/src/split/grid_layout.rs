use vstd::prelude::*;
use crate::geom::arith::div_floor_ceil;
use crate::geom::rect::IntRect;
use crate::geom::x_segment::XSegment;
use crate::segm::count::WindingCount;
use crate::segm::segment::Segment;
use crate::solver::{lemma_pow2_monotonic, pow2};
use crate::split::fragment::{Fragment, IdSegment};

verus! {

/// The least extent, in either direction, of a working set for which a grid
/// is laid out.
pub const MIN_EXTENT: i64 = 4;

/// The number of segments that a column is meant to hold.
pub const SEGMENTS_PER_COLUMN: usize = 16;

/// The greatest number of columns.
pub const MAX_COLUMNS: usize = 0x1_0000;

/// A grid of columns of equal width over the horizontal extent of a working
/// set. Column `i` reaches from `min_x + i * width` to
/// `min_x + (i + 1) * width`.
#[derive(Clone, Copy, Debug, PartialEq, Eq, Structural)]
pub struct GridLayout {
    pub min_x: i32,
    pub max_x: i32,
    /// The width of a column, a power of two.
    pub width: u64,
    /// The number of columns.
    pub count: usize,
}

impl GridLayout {
    /// Whether the layout is well formed: the columns cover the extent.
    pub open spec fn wf(self) -> bool {
        &&& self.min_x <= self.max_x
        &&& 1 <= self.width <= 0x1_0000_0000
        &&& 1 <= self.count <= MAX_COLUMNS
        &&& self.count == (self.max_x - self.min_x) / (self.width as int) + 1
    }

    /// The column that holds `x`.
    pub open spec fn spec_index(self, x: i32) -> int {
        (x - self.min_x) / (self.width as int)
    }

    /// The column that holds `x`.
    pub fn index(&self, x: i32) -> (i: usize)
        requires
            self.wf(),
            self.min_x <= x <= self.max_x,
        ensures
            i == self.spec_index(x),
            i < self.count,
    {
        let d: u64 = (x as i64 - self.min_x as i64) as u64;
        let i: u64 = d / self.width;
        assert(i < self.count) by (nonlinear_arith)
            requires
                i == d as int / self.width as int,
                self.count == (self.max_x - self.min_x) / (self.width as int) + 1,
                d == x - self.min_x,
                x <= self.max_x,
                self.width >= 1,
                d >= 0,
        {
            assert(d as int / self.width as int <= (self.max_x - self.min_x) / (self.width as int));
        }
        i as usize
    }

    /// The first coordinate of the right border of column `index`.
    pub open spec fn spec_pos(self, index: usize) -> int {
        self.min_x + (index + 1) * self.width
    }

    /// The first coordinate of the right border of column `index`.
    pub fn pos(&self, index: usize) -> (x: i64)
        requires
            self.wf(),
            index < self.count,
        ensures
            x == self.spec_pos(index),
            self.min_x < x <= self.min_x + 0x1_0001_0000_0000,
    {
        assert((index + 1) * self.width <= 0x1_0000 * 0x1_0000_0000) by (nonlinear_arith)
            requires
                index + 1 <= 0x1_0000,
                self.width <= 0x1_0000_0000,
        ;
        assert((index + 1) * self.width >= 1) by (nonlinear_arith)
            requires
                index + 1 >= 1,
                self.width >= 1,
        ;
        self.min_x as i64 + ((index as u64 + 1) * self.width) as i64
    }

    /// The least power of two, from `width` on, that suits as the width of a
    /// column: it gives at most `limit` columns over the extent `dx`, and the
    /// segments, whose widths add up to `total`, span at most `span_limit`
    /// columns. The search ends at two to the power 32 at the latest.
    pub open spec fn width_from(dx: int, total: int, limit: int, span_limit: int, power: nat, width: int) -> int
        decreases 32 - power,
    {
        if power < 32 && width >= 1 && (dx / width + 1 > limit || total / width > span_limit) {
            Self::width_from(dx, total, limit, span_limit, power + 1, 2 * width)
        } else {
            width
        }
    }

    /// The grid for a working set, or none where the set has fewer than two
    /// segments or an extent below `MIN_EXTENT` in either direction.
    ///
    /// The width of a column is the least power of two for which there are
    /// at most `MAX_COLUMNS` columns, at most one column for every
    /// `SEGMENTS_PER_COLUMN` segments, and the segments together span at most
    /// three times as many columns as there are segments.
    pub open spec fn spec_new<C: WindingCount>(segments: Seq<Segment<C>>) -> Option<GridLayout> {
        if segments.len() < 2 {
            None
        } else {
            let e = extent(segments, segments.len() as int);
            let dx = e.rect.max_x - e.rect.min_x;
            let dy = e.rect.max_y - e.rect.min_y;
            if dx < MIN_EXTENT || dy < MIN_EXTENT {
                None
            } else {
                let by_count = segments.len() / (SEGMENTS_PER_COLUMN as nat);
                let limit: int = if by_count < 1 {
                    1
                } else if by_count > MAX_COLUMNS {
                    MAX_COLUMNS as int
                } else {
                    by_count as int
                };
                let width = Self::width_from(dx, e.total, limit, 3 * (segments.len() as int), 0, 1);
                Some(
                    GridLayout {
                        min_x: e.rect.min_x,
                        max_x: e.rect.max_x,
                        width: width as u64,
                        count: (dx / width + 1) as usize,
                    },
                )
            }
        }
    }

    /// Lays out a grid for a working set; see `spec_new`.
    pub fn new<C: WindingCount>(segments: &Vec<Segment<C>>) -> (r: Option<GridLayout>)
        ensures
            r == Self::spec_new(segments@),
            r matches Some(layout) ==> layout.wf() && (forall|i: int|
                0 <= i < segments.len() ==> layout.min_x <= (#[trigger] segments@[i]).x_segment.spec_rect().min_x
                    && segments@[i].x_segment.spec_rect().max_x <= layout.max_x),
    {
        let n: usize = segments.len();
        if n < 2 {
            return None;
        }
        let first: IntRect = segments[0].x_segment.rect();
        let mut min_x: i32 = first.min_x;
        let mut max_x: i32 = first.max_x;
        let mut min_y: i32 = first.min_y;
        let mut max_y: i32 = first.max_y;
        let mut total: u128 = 0;
        let mut i: usize = 0;
        while i < n
            invariant
                n == segments.len(),
                n >= 2,
                i <= n,
                min_x <= max_x,
                total <= i * 0x1_0000_0000,
                extent(segments@, i as int) == (Extent {
                    rect: IntRect { min_x, max_x, min_y, max_y },
                    total: total as int,
                }),
                forall|k: int|
                    0 <= k < i ==> min_x <= (#[trigger] segments@[k]).x_segment.spec_rect().min_x
                        && segments@[k].x_segment.spec_rect().max_x <= max_x,
            decreases n - i,
        {
            let r: IntRect = segments[i].x_segment.rect();
            if r.min_x < min_x {
                min_x = r.min_x;
            }
            if r.max_x > max_x {
                max_x = r.max_x;
            }
            if r.min_y < min_y {
                min_y = r.min_y;
            }
            if r.max_y > max_y {
                max_y = r.max_y;
            }
            total = total + (r.max_x as i64 - r.min_x as i64) as u128;
            i += 1;
        }
        let dx: i64 = max_x as i64 - min_x as i64;
        let dy: i64 = max_y as i64 - min_y as i64;
        if dx < MIN_EXTENT || dy < MIN_EXTENT {
            return None;
        }
        let by_count: usize = n / SEGMENTS_PER_COLUMN;
        let limit: u64 = if by_count < 1 {
            1
        } else if by_count > MAX_COLUMNS {
            MAX_COLUMNS as u64
        } else {
            by_count as u64
        };
        let span_limit: u128 = 3 * (n as u128);
        let mut power: usize = 0;
        let mut width: u64 = 1;
        while power < 32 && ((dx as u64) / width + 1 > limit || total / (width as u128) > span_limit)
            invariant
                power <= 32,
                width == pow2(power as nat),
                1 <= width <= 0x1_0000_0000,
                0 <= dx <= 0xffff_ffff,
                1 <= limit <= MAX_COLUMNS,
                Self::width_from(
                    dx as int,
                    total as int,
                    limit as int,
                    span_limit as int,
                    power as nat,
                    width as int,
                ) == Self::width_from(dx as int, total as int, limit as int, span_limit as int, 0, 1),
            decreases 32 - power,
        {
            proof {
                lemma_pow2_monotonic((power + 1) as nat, 32);
                lemma_pow2_32();
            }
            width = width * 2;
            power += 1;
        }
        let columns: u64 = (dx as u64) / width + 1;
        if columns > limit {
            // Only a width of 2^32 is left, and it gives a single column.
            assert(power == 32);
            proof {
                lemma_pow2_32();
            }
            assert(width == 0x1_0000_0000);
            assert((dx as u64) / width == 0) by (nonlinear_arith)
                requires
                    0 <= dx <= 0xffff_ffff,
                    width == 0x1_0000_0000,
            ;
            assert(columns == 1);
        }
        Some(GridLayout { min_x, max_x, width, count: columns as usize })
    }
}

/// The extent of a working set and the sum of the widths of its segments.
pub struct Extent {
    pub rect: IntRect,
    pub total: int,
}

/// The rectangle that bounds the first segment and the first `n` segments
/// of a working set, and the sum of the widths of the first `n`.
pub open spec fn extent<C: WindingCount>(segments: Seq<Segment<C>>, n: int) -> Extent
    decreases n,
{
    if n <= 0 {
        Extent { rect: segments[0].x_segment.spec_rect(), total: 0 }
    } else {
        let prev = extent(segments, n - 1);
        let r = segments[n - 1].x_segment.spec_rect();
        Extent {
            rect: IntRect {
                min_x: if r.min_x < prev.rect.min_x {
                    r.min_x
                } else {
                    prev.rect.min_x
                },
                max_x: if r.max_x > prev.rect.max_x {
                    r.max_x
                } else {
                    prev.rect.max_x
                },
                min_y: if r.min_y < prev.rect.min_y {
                    r.min_y
                } else {
                    prev.rect.min_y
                },
                max_y: if r.max_y > prev.rect.max_y {
                    r.max_y
                } else {
                    prev.rect.max_y
                },
            },
            total: prev.total + (r.max_x - r.min_x),
        }
    }
}

/// Two to the power 32.
pub proof fn lemma_pow2_32()
    ensures
        pow2(32) == 0x1_0000_0000,
{
    reveal_with_fuel(pow2, 33);
}

/// The contents of a list of lists.
pub open spec fn views<T>(lists: Seq<Vec<T>>) -> Seq<Seq<T>> {
    Seq::new(lists.len(), |i: int| lists[i]@)
}

/// A list of `count` empty lists.
pub open spec fn empties<T>(count: nat) -> Seq<Seq<T>> {
    Seq::new(count, |i: int| Seq::<T>::empty())
}

/// What a segment leaves in one column, and where it goes on.
pub struct ColumnStep {
    /// The rectangle that bounds the part of the segment in the column.
    pub part: IntRect,
    /// Whether the segment ends in the column.
    pub is_last: bool,
    /// The first coordinate at which the next column starts.
    pub x1: int,
    /// The second coordinate at `x1`, rounded towards the start of the
    /// segment.
    pub y1: int,
}

/// Whether a segment rises from its left end to its right end.
pub open spec fn rises(s: XSegment) -> bool {
    if s.a.x <= s.b.x {
        s.a.y <= s.b.y
    } else {
        s.b.y <= s.a.y
    }
}

/// What the segment with bounding rectangle `rect` leaves in column `c`,
/// which it enters at the point `(x0, y0)`; `c1` is the last column of the
/// segment.
pub open spec fn column_step(layout: GridLayout, rect: IntRect, is_up: bool, c: usize, c1: usize, x0: int, y0: int) -> ColumnStep {
    let dx = rect.max_x - rect.min_x;
    let dy = rect.max_y - rect.min_y;
    let left_y: int = if is_up {
        rect.min_y as int
    } else {
        rect.max_y as int
    };
    let right_y: int = if is_up {
        rect.max_y as int
    } else {
        rect.min_y as int
    };
    let border = layout.spec_pos(c);
    let is_last = c == c1 || border >= rect.max_x;
    let x1: int = if is_last {
        rect.max_x as int
    } else if border < x0 {
        x0
    } else {
        border
    };
    let t = x1 - rect.min_x;
    let down = dy * t / dx;
    let up = (dy * t + dx - 1) / dx;
    let near: int = if is_last {
        right_y
    } else if x1 <= x0 {
        y0
    } else if is_up {
        left_y + down
    } else {
        left_y - down
    };
    let far: int = if is_last {
        right_y
    } else if x1 <= x0 {
        y0
    } else if is_up {
        left_y + up
    } else {
        left_y - up
    };
    ColumnStep {
        part: if is_up {
            IntRect { min_x: x0 as i32, max_x: x1 as i32, min_y: y0 as i32, max_y: far as i32 }
        } else {
            IntRect { min_x: x0 as i32, max_x: x1 as i32, min_y: far as i32, max_y: y0 as i32 }
        },
        is_last,
        x1,
        y1: near,
    }
}

/// The columns after a segment that is not vertical has left its fragments
/// in the columns from `c` to `c1`.
pub open spec fn spread(
    groups: Seq<Seq<Fragment>>,
    layout: GridLayout,
    index: usize,
    s: XSegment,
    c: usize,
    c1: usize,
    x0: int,
    y0: int,
) -> Seq<Seq<Fragment>>
    decreases c1 + 1 - c,
{
    if c > c1 || c >= groups.len() {
        groups
    } else {
        let step = column_step(layout, s.spec_rect(), rises(s), c, c1, x0, y0);
        let next = groups.update(c as int, groups[c as int].push(Fragment { index, rect: step.part, x_segment: s }));
        if step.is_last {
            next
        } else {
            spread(next, layout, index, s, (c + 1) as usize, c1, step.x1, step.y1)
        }
    }
}

/// The last column of a segment with the given bounding rectangle that is
/// not vertical: the column that holds its right end, or the column to the
/// left of it where the right end lies on a border.
pub open spec fn last_column(layout: GridLayout, rect: IntRect) -> int {
    let c0 = layout.spec_index(rect.min_x);
    let last = layout.spec_index(rect.max_x);
    if (rect.max_x - layout.min_x) % (layout.width as int) == 0 && last > c0 {
        last - 1
    } else {
        last
    }
}

/// The columns after segment `s` has been sorted into them.
pub open spec fn added_groups(groups: Seq<Seq<Fragment>>, layout: GridLayout, index: usize, s: XSegment) -> Seq<
    Seq<Fragment>,
> {
    let rect = s.spec_rect();
    let c0 = layout.spec_index(rect.min_x);
    if rect.min_x == rect.max_x {
        groups.update(c0, groups[c0].push(Fragment { index, rect, x_segment: s }))
    } else {
        let left_y: int = if rises(s) {
            rect.min_y as int
        } else {
            rect.max_y as int
        };
        spread(groups, layout, index, s, c0 as usize, last_column(layout, rect) as usize, rect.min_x as int, left_y)
    }
}

/// The lists of vertical segments on borders after segment `s` has been
/// sorted in.
pub open spec fn added_borders(borders: Seq<Seq<IdSegment>>, layout: GridLayout, index: usize, s: XSegment) -> Seq<
    Seq<IdSegment>,
> {
    let rect = s.spec_rect();
    let c0 = layout.spec_index(rect.min_x);
    if rect.min_x == rect.max_x && c0 > 0 && (rect.min_x - layout.min_x) % (layout.width as int) == 0 {
        borders.update(c0 - 1, borders[c0 - 1].push(IdSegment { id: index, x_segment: s }))
    } else {
        borders
    }
}

/// The columns after the first `n` segments of a working set have been
/// sorted into an empty grid.
pub open spec fn filled_groups<C: WindingCount>(layout: GridLayout, segments: Seq<Segment<C>>, n: int) -> Seq<
    Seq<Fragment>,
>
    decreases n,
{
    if n <= 0 {
        empties(layout.count as nat)
    } else {
        added_groups(filled_groups(layout, segments, n - 1), layout, (n - 1) as usize, segments[n - 1].x_segment)
    }
}

/// The lists of vertical segments on borders after the first `n` segments of
/// a working set have been sorted into an empty grid.
pub open spec fn filled_borders<C: WindingCount>(layout: GridLayout, segments: Seq<Segment<C>>, n: int) -> Seq<
    Seq<IdSegment>,
>
    decreases n,
{
    if n <= 0 {
        empties(layout.count as nat)
    } else {
        added_borders(filled_borders(layout, segments, n - 1), layout, (n - 1) as usize, segments[n - 1].x_segment)
    }
}

/// The fragments of a working set, sorted into the columns of a grid.
#[derive(Debug)]
pub struct FragmentBuffer {
    pub layout: GridLayout,
    /// For every column, the parts of the segments that pass through it.
    pub groups: Vec<Vec<Fragment>>,
    /// For every column, the vertical segments that lie on its right border.
    pub on_border: Vec<Vec<IdSegment>>,
}

impl FragmentBuffer {
    /// Whether the buffer is well formed: it has an entry for every column.
    pub open spec fn wf(&self) -> bool {
        &&& self.layout.wf()
        &&& self.groups.len() == self.layout.count
        &&& self.on_border.len() == self.layout.count
    }

    /// An empty buffer for the given layout.
    pub fn new(layout: GridLayout) -> (r: FragmentBuffer)
        requires
            layout.wf(),
        ensures
            r.wf(),
            r.layout == layout,
            views(r.groups@) == empties::<Fragment>(layout.count as nat),
            views(r.on_border@) == empties::<IdSegment>(layout.count as nat),
    {
        let mut groups: Vec<Vec<Fragment>> = Vec::new();
        let mut on_border: Vec<Vec<IdSegment>> = Vec::new();
        let mut i: usize = 0;
        while i < layout.count
            invariant
                i <= layout.count,
                groups.len() == i,
                on_border.len() == i,
                forall|k: int| 0 <= k < i ==> (#[trigger] groups@[k])@ == Seq::<Fragment>::empty(),
                forall|k: int| 0 <= k < i ==> (#[trigger] on_border@[k])@ == Seq::<IdSegment>::empty(),
            decreases layout.count - i,
        {
            groups.push(Vec::new());
            on_border.push(Vec::new());
            i += 1;
        }
        proof {
            assert(views(groups@) =~= empties::<Fragment>(layout.count as nat));
            assert(views(on_border@) =~= empties::<IdSegment>(layout.count as nat));
        }
        FragmentBuffer { layout, groups, on_border }
    }

    /// Empties the buffer.
    pub fn clear(&mut self)
        requires
            old(self).wf(),
        ensures
            final(self).wf(),
            final(self).layout == old(self).layout,
            views(final(self).groups@) == empties::<Fragment>(old(self).layout.count as nat),
            views(final(self).on_border@) == empties::<IdSegment>(old(self).layout.count as nat),
    {
        let n: usize = self.groups.len();
        let mut i: usize = 0;
        while i < n
            invariant
                self.wf(),
                self.layout == old(self).layout,
                n == self.groups.len(),
                i <= n,
                forall|k: int| 0 <= k < i ==> (#[trigger] self.groups@[k])@ == Seq::<Fragment>::empty(),
                forall|k: int| 0 <= k < i ==> (#[trigger] self.on_border@[k])@ == Seq::<IdSegment>::empty(),
            decreases n - i,
        {
            self.groups[i].clear();
            self.on_border[i].clear();
            i += 1;
        }
        proof {
            assert(views(self.groups@) =~= empties::<Fragment>(old(self).layout.count as nat));
            assert(views(self.on_border@) =~= empties::<IdSegment>(old(self).layout.count as nat));
        }
    }

    /// Whether a segment lies within the extent of the grid.
    pub open spec fn holds(&self, s: XSegment) -> bool {
        &&& self.layout.min_x <= s.spec_rect().min_x
        &&& s.spec_rect().max_x <= self.layout.max_x
    }

    /// What the segment leaves in column `c`; see `column_step`.
    fn step(layout: &GridLayout, rect: IntRect, is_up: bool, c: usize, c1: usize, x0: i64, y0: i64) -> (r: (
        IntRect,
        bool,
        i64,
        i64,
    ))
        requires
            layout.wf(),
            c < layout.count,
            rect.min_x < rect.max_x,
            rect.min_y <= rect.max_y,
            rect.min_x <= x0 <= rect.max_x,
            rect.min_y <= y0 <= rect.max_y,
        ensures
            ({
                let step = column_step(*layout, rect, is_up, c, c1, x0 as int, y0 as int);
                &&& r.0 == step.part
                &&& r.1 == step.is_last
                &&& r.2 == step.x1
                &&& r.3 == step.y1
            }),
            rect.min_x <= r.2 <= rect.max_x,
            rect.min_y <= r.3 <= rect.max_y,
    {
        let dx: u64 = (rect.max_x as i64 - rect.min_x as i64) as u64;
        let dy: u64 = (rect.max_y as i64 - rect.min_y as i64) as u64;
        let left_y: i64 = if is_up {
            rect.min_y as i64
        } else {
            rect.max_y as i64
        };
        let right_y: i64 = if is_up {
            rect.max_y as i64
        } else {
            rect.min_y as i64
        };
        let border: i64 = layout.pos(c);
        let is_last: bool = c == c1 || border >= rect.max_x as i64;
        let x1: i64 = if is_last {
            rect.max_x as i64
        } else if border < x0 {
            x0
        } else {
            border
        };
        let t: u64 = (x1 - rect.min_x as i64) as u64;
        assert(dy * t <= dx * dy && dx * dy <= 0xffff_ffff * 0xffff_ffff) by (nonlinear_arith)
            requires
                t <= dx,
                dx <= 0xffff_ffff,
                dy <= 0xffff_ffff,
        ;
        let (down, up): (u64, u64) = div_floor_ceil(dy * t, dx, dy);
        let near: i64 = if is_last {
            right_y
        } else if x1 <= x0 {
            y0
        } else if is_up {
            left_y + down as i64
        } else {
            left_y - down as i64
        };
        let far: i64 = if is_last {
            right_y
        } else if x1 <= x0 {
            y0
        } else if is_up {
            left_y + up as i64
        } else {
            left_y - up as i64
        };
        let part: IntRect = if is_up {
            IntRect { min_x: x0 as i32, max_x: x1 as i32, min_y: y0 as i32, max_y: far as i32 }
        } else {
            IntRect { min_x: x0 as i32, max_x: x1 as i32, min_y: far as i32, max_y: y0 as i32 }
        };
        (part, is_last, x1, near)
    }

    /// Sorts segment `s`, which has index `index` in the working set, into
    /// the columns.
    ///
    /// A vertical segment goes whole into the column that holds it, and is
    /// noted as lying on the border of the column to its left where it lies
    /// on that border. Any other segment leaves a fragment in every column
    /// that it passes through: one that ends on a border counts for the
    /// column to the left of the border. The rectangle of a fragment bounds
    /// the part of the segment in its column.
    pub fn add_segment(&mut self, index: usize, s: XSegment)
        requires
            old(self).wf(),
            old(self).holds(s),
        ensures
            final(self).wf(),
            final(self).layout == old(self).layout,
            views(final(self).groups@) == added_groups(views(old(self).groups@), old(self).layout, index, s),
            views(final(self).on_border@) == added_borders(
                views(old(self).on_border@),
                old(self).layout,
                index,
                s,
            ),
    {
        let rect: IntRect = s.rect();
        let width: u64 = self.layout.width;
        let c0: usize = self.layout.index(rect.min_x);
        if rect.min_x == rect.max_x {
            self.groups[c0].push(Fragment { index, rect, x_segment: s });
            let d: u64 = (rect.min_x as i64 - self.layout.min_x as i64) as u64;
            if c0 > 0 && d % width == 0 {
                self.on_border[c0 - 1].push(IdSegment { id: index, x_segment: s });
            }
            proof {
                assert(views(self.groups@) =~= added_groups(views(old(self).groups@), old(self).layout, index, s));
                assert(views(self.on_border@) =~= added_borders(
                    views(old(self).on_border@),
                    old(self).layout,
                    index,
                    s,
                ));
            }
            return ;
        }
        let last: usize = self.layout.index(rect.max_x);
        let d_end: u64 = (rect.max_x as i64 - self.layout.min_x as i64) as u64;
        let c1: usize = if d_end % width == 0 && last > c0 {
            (last - 1) as usize
        } else {
            last
        };
        let is_up: bool = if s.a.x <= s.b.x {
            s.a.y <= s.b.y
        } else {
            s.b.y <= s.a.y
        };
        let mut c: usize = c0;
        let mut x0: i64 = rect.min_x as i64;
        let mut y0: i64 = if is_up {
            rect.min_y as i64
        } else {
            rect.max_y as i64
        };
        let mut done: bool = false;
        let ghost layout: GridLayout = self.layout;
        let ghost goal: Seq<Seq<Fragment>> = added_groups(views(old(self).groups@), layout, index, s);
        while !done && c <= c1
            invariant
                self.wf(),
                self.layout == layout,
                layout == old(self).layout,
                self.on_border == old(self).on_border,
                c0 <= c,
                c1 < layout.count,
                rect == s.spec_rect(),
                is_up == rises(s),
                rect.min_x < rect.max_x,
                rect.min_x <= x0 <= rect.max_x,
                rect.min_y <= y0 <= rect.max_y,
                done ==> views(self.groups@) == goal,
                !done ==> spread(views(self.groups@), layout, index, s, c, c1, x0 as int, y0 as int) == goal,
            decreases c1 + 1 - c + (if done { 0int } else { 1int }),
        {
            let (part, is_last, x1, y1): (IntRect, bool, i64, i64) = Self::step(
                &self.layout,
                rect,
                is_up,
                c,
                c1,
                x0,
                y0,
            );
            let ghost before: Seq<Seq<Fragment>> = views(self.groups@);
            self.groups[c].push(Fragment { index, rect: part, x_segment: s });
            proof {
                assert(views(self.groups@) =~= before.update(
                    c as int,
                    before[c as int].push(Fragment { index, rect: part, x_segment: s }),
                ));
            }
            if is_last {
                done = true;
            } else {
                x0 = x1;
                y0 = y1;
                c += 1;
            }
        }
        proof {
            assert(views(self.on_border@) =~= added_borders(views(old(self).on_border@), layout, index, s));
        }
    }
}

} // verus!
