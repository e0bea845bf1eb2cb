use vstd::prelude::*;
use crate::geom::x_segment::XSegment;
use crate::split::cross_laws::{lemma_div_at_least, lemma_div_at_most};
use crate::split::fragment::Fragment;
use crate::segm::count::WindingCount;
use crate::segm::segment::{all_wf, Segment};
use crate::split::grid_layout::{added_groups, column_step, filled_groups, last_column, rises, spread, GridLayout};
use crate::split::pass_laws::{fragment_of, fragments_of};
use crate::split::slab_laws::{holds_real, point_at, some_holds, RealPoint};

verus! {

/// The first coordinate at which column `c` starts.
pub open spec fn column_start(layout: GridLayout, c: int) -> int {
    layout.min_x + c * layout.width
}

/// A coordinate within the extent of a grid lies in the column that holds
/// it.
pub proof fn lemma_index(layout: GridLayout, x: i32)
    requires
        layout.wf(),
        layout.min_x <= x <= layout.max_x,
    ensures
        0 <= layout.spec_index(x) < layout.count,
        column_start(layout, layout.spec_index(x)) <= x < column_start(layout, layout.spec_index(x) + 1),
{
    let w = layout.width as int;
    let d = x - layout.min_x;
    let c = d / w;
    assert(0 <= c && c * w <= d < (c + 1) * w) by (nonlinear_arith)
        requires
            c == d / w,
            d >= 0,
            w > 0,
    {
        assert(d == w * (d / w) + d % w);
        assert(0 <= d % w < w);
    }
    let full = (layout.max_x - layout.min_x) as int;
    lemma_div_at_least(d, w, 0);
    assert(c <= full / w) by (nonlinear_arith)
        requires
            c == d / w,
            d <= full,
            d >= 0,
            w > 0,
    {
        assert(full == w * (full / w) + full % w);
        assert(d == w * (d / w) + d % w);
        if d / w > full / w {
            assert(w * (d / w) >= w * (full / w + 1));
        }
    }
}

/// The right border of a column is the start of the next.
pub proof fn lemma_pos(layout: GridLayout, c: int)
    requires
        0 <= c <= usize::MAX,
    ensures
        layout.spec_pos(c as usize) == column_start(layout, c + 1),
{
}

/// The second coordinate of a segment that is not vertical, at a first
/// coordinate `x`, rounded towards the lesser end of the segment.
pub open spec fn near_at(s: XSegment, x: int) -> int {
    let dx = s.b.x - s.a.x;
    if s.a.y <= s.b.y {
        s.a.y + (s.b.y - s.a.y) * (x - s.a.x) / dx
    } else {
        s.a.y - (s.a.y - s.b.y) * (x - s.a.x) / dx
    }
}

/// The second coordinate of a segment that is not vertical, at a first
/// coordinate `x`, rounded away from the lesser end of the segment.
pub open spec fn far_at(s: XSegment, x: int) -> int {
    let dx = s.b.x - s.a.x;
    if s.a.y <= s.b.y {
        s.a.y + ((s.b.y - s.a.y) * (x - s.a.x) + dx - 1) / dx
    } else {
        s.a.y - ((s.a.y - s.b.y) * (x - s.a.x) + dx - 1) / dx
    }
}

/// The rounded second coordinates of a segment lie within its extent.
pub proof fn lemma_near_far(s: XSegment, x: int)
    requires
        s.wf(),
        s.a.x < s.b.x,
        s.a.x <= x <= s.b.x,
    ensures
        s.spec_rect().min_y <= near_at(s, x) <= s.spec_rect().max_y,
        s.spec_rect().min_y <= far_at(s, x) <= s.spec_rect().max_y,
        x == s.a.x ==> near_at(s, x) == s.a.y,
{
    let dx = s.b.x - s.a.x;
    let dy = if s.a.y <= s.b.y {
        s.b.y - s.a.y
    } else {
        s.a.y - s.b.y
    };
    let t = x - s.a.x;
    let down = dy * t / dx;
    let up = (dy * t + dx - 1) / dx;
    assert(0 <= down <= up <= dy && (t == 0 ==> down == 0)) by (nonlinear_arith)
        requires
            down == dy * t / dx,
            up == (dy * t + dx - 1) / dx,
            0 <= t <= dx,
            dx > 0,
            dy >= 0,
    {
        let z = dy * t;
        assert(z >= 0);
        assert(z <= dy * dx);
        assert(z == dx * (z / dx) + z % dx);
        let y = z + dx - 1;
        assert(y == dx * (y / dx) + y % dx);
        assert(0 <= z % dx < dx);
        assert(0 <= y % dx < dx);
        if z / dx < 0 {
            assert(dx * (z / dx) <= -dx);
        }
        if y / dx > dy {
            assert(dx * (y / dx) >= dx * (dy + 1));
        }
        if z / dx > y / dx {
            assert(dx * (z / dx) >= dx * (y / dx + 1));
        }
        if t == 0 {
            assert(z == 0);
            if z / dx > 0 {
                assert(dx * (z / dx) >= dx);
            }
        }
    }
}

/// What a segment leaves in a column holds every point of the segment
/// between the first coordinates at which the column is entered and left.
pub proof fn lemma_step_holds(layout: GridLayout, s: XSegment, c: usize, c1: usize, x0: int, n: int, m: int)
    requires
        s.wf(),
        s.a.x < s.b.x,
        s.a.x <= x0 < s.b.x,
        0 < n < m,
        m * x0 <= point_at(s, n, m).ex,
        point_at(s, n, m).ex <= m * column_step(layout, s.spec_rect(), rises(s), c, c1, x0, near_at(s, x0)).x1,
        x0 < column_step(layout, s.spec_rect(), rises(s), c, c1, x0, near_at(s, x0)).x1,
    ensures
        holds_real(
            column_step(layout, s.spec_rect(), rises(s), c, c1, x0, near_at(s, x0)).part,
            point_at(s, n, m),
        ),
{
    let rect = s.spec_rect();
    let y0 = near_at(s, x0);
    let step = column_step(layout, rect, rises(s), c, c1, x0, y0);
    let p = point_at(s, n, m);
    let dx = s.b.x - s.a.x;
    let dy = rect.max_y - rect.min_y;
    let x1 = step.x1;
    assert(rises(s) == (s.a.y <= s.b.y));
    assert(rect.min_x == s.a.x && rect.max_x == s.b.x);
    lemma_near_far(s, x0);
    lemma_near_far(s, x1);
    let t0 = x0 - s.a.x;
    let t1 = x1 - s.a.x;
    let down0 = dy * t0 / dx;
    let up1 = (dy * t1 + dx - 1) / dx;
    assert(p.ex == m * s.a.x + dx * n);
    assert(m * t0 <= dx * n) by (nonlinear_arith)
        requires
            m * x0 <= m * s.a.x + dx * n,
            t0 == x0 - s.a.x,
    ;
    assert(dx * n <= m * t1) by (nonlinear_arith)
        requires
            m * s.a.x + dx * n <= m * x1,
            t1 == x1 - s.a.x,
    ;
    // The height of the point above the lesser end, times `m`, lies between
    // the rounded heights at the borders.
    assert(m * down0 <= dy * n) by (nonlinear_arith)
        requires
            down0 == dy * t0 / dx,
            m * t0 <= dx * n,
            dx > 0,
            dy >= 0,
            t0 >= 0,
            m > 0,
    {
        let z = dy * t0;
        assert(z == dx * (z / dx) + z % dx);
        assert(z % dx >= 0);
        assert(dx * (z / dx) <= z);
        assert(dy * (m * t0) <= dy * (dx * n));
        assert(m * (dx * (z / dx)) <= m * z);
        assert(dx * (m * (z / dx)) <= dx * (dy * n));
    }
    assert(dy * n <= m * up1 || step.is_last) by (nonlinear_arith)
        requires
            up1 == (dy * t1 + dx - 1) / dx,
            dx * n <= m * t1,
            dx > 0,
            dy >= 0,
            t1 >= 0,
            m > 0,
    {
        let y = dy * t1 + dx - 1;
        assert(y == dx * (y / dx) + y % dx);
        assert(y % dx < dx);
        assert(dx * (y / dx) >= dy * t1);
        assert(dy * (dx * n) <= dy * (m * t1));
        assert(m * (dy * t1) <= m * (dx * (y / dx)));
        assert(dx * (dy * n) <= dx * (m * (y / dx)));
    }
    assert(dy * n <= m * dy) by (nonlinear_arith)
        requires
            n < m,
            dy >= 0,
    ;
    if rises(s) {
        assert(p.ey == m * s.a.y + dy * n);
        assert(step.part.min_y == s.a.y + down0);
        assert(m * (s.a.y + down0) <= p.ey) by (nonlinear_arith)
            requires
                p.ey == m * s.a.y + dy * n,
                m * down0 <= dy * n,
        ;
        if step.is_last {
            assert(step.part.max_y == s.b.y);
            assert(p.ey <= m * s.b.y) by (nonlinear_arith)
                requires
                    p.ey == m * s.a.y + dy * n,
                    dy * n <= m * dy,
                    dy == s.b.y - s.a.y,
            ;
        } else {
            assert(step.part.max_y == s.a.y + up1);
            assert(p.ey <= m * (s.a.y + up1)) by (nonlinear_arith)
                requires
                    p.ey == m * s.a.y + dy * n,
                    dy * n <= m * up1,
            ;
        }
    } else {
        assert(p.ey == m * s.a.y + (0 - dy) * n);
        assert(step.part.max_y == s.a.y - down0);
        assert(p.ey <= m * (s.a.y - down0)) by (nonlinear_arith)
            requires
                p.ey == m * s.a.y + (0 - dy) * n,
                m * down0 <= dy * n,
        ;
        if step.is_last {
            assert(step.part.min_y == s.b.y);
            assert(m * s.b.y <= p.ey) by (nonlinear_arith)
                requires
                    p.ey == m * s.a.y + (0 - dy) * n,
                    dy * n <= m * dy,
                    dy == s.a.y - s.b.y,
            ;
        } else {
            assert(step.part.min_y == s.a.y - up1);
            assert(m * (s.a.y - up1) <= p.ey) by (nonlinear_arith)
                requires
                    p.ey == m * s.a.y + (0 - dy) * n,
                    dy * n <= m * up1,
            ;
        }
    }
}

/// Whether `after` holds what `before` holds, column by column and place
/// by place, and every fragment that it holds beyond stands for segment
/// `index` with the segment `s`.
pub open spec fn grown_by(before: Seq<Seq<Fragment>>, after: Seq<Seq<Fragment>>, index: usize, s: XSegment) -> bool {
    &&& after.len() == before.len()
    &&& forall|j: int| 0 <= j < before.len() ==> before[j].len() <= (#[trigger] after[j]).len()
    &&& forall|j: int, k: int|
        0 <= j < before.len() && 0 <= k < after[j].len() ==> if k < before[j].len() {
            (#[trigger] after[j][k]) == before[j][k]
        } else {
            after[j][k].index == index && after[j][k].x_segment == s
        }
}

/// Spreading a segment over the columns keeps what the columns hold and
/// adds fragments of the segment only.
pub proof fn lemma_spread_grows(
    groups: Seq<Seq<Fragment>>,
    layout: GridLayout,
    index: usize,
    s: XSegment,
    c: usize,
    c1: usize,
    x0: int,
    y0: int,
)
    ensures
        grown_by(groups, spread(groups, layout, index, s, c, c1, x0, y0), index, s),
    decreases c1 + 1 - c,
{
    if c > c1 || c >= groups.len() {
    } else {
        let step = column_step(layout, s.spec_rect(), rises(s), c, c1, x0, y0);
        let fragment = Fragment { index, rect: step.part, x_segment: s };
        let next = groups.update(c as int, groups[c as int].push(fragment));
        assert(grown_by(groups, next, index, s));
        if !step.is_last {
            let out = spread(next, layout, index, s, (c + 1) as usize, c1, step.x1, step.y1);
            lemma_spread_grows(next, layout, index, s, (c + 1) as usize, c1, step.x1, step.y1);
            assert forall|j: int| 0 <= j < groups.len() implies groups[j].len() <= (#[trigger] out[j]).len() by {
                assert(next[j].len() <= out[j].len());
            }
            assert forall|j: int, k: int| 0 <= j < groups.len() && 0 <= k < out[j].len() implies if k
                < groups[j].len() {
                (#[trigger] out[j][k]) == groups[j][k]
            } else {
                out[j][k].index == index && out[j][k].x_segment == s
            } by {
                if k < next[j].len() {
                    assert(out[j][k] == next[j][k]);
                }
            }
        }
    }
}

/// The greatest integer that is at most the first coordinate of a point
/// strictly within a segment that is not vertical lies within the segment,
/// before its greater end.
pub proof fn lemma_floor_inside(s: XSegment, n: int, m: int)
    requires
        s.wf(),
        s.a.x < s.b.x,
        0 < n < m,
    ensures
        s.a.x <= point_at(s, n, m).ex / m < s.b.x,
        m * (point_at(s, n, m).ex / m) <= point_at(s, n, m).ex,
        point_at(s, n, m).ex < m * (point_at(s, n, m).ex / m + 1),
        m * s.a.x < point_at(s, n, m).ex < m * s.b.x,
{
    let ex = point_at(s, n, m).ex;
    let dx = s.b.x - s.a.x;
    assert(0 < dx * n < dx * m) by (nonlinear_arith)
        requires
            0 < n < m,
            dx > 0,
    ;
    assert(ex == m * s.a.x + dx * n);
    assert(m * s.b.x == m * s.a.x + dx * m) by (nonlinear_arith)
        requires
            dx == s.b.x - s.a.x,
    ;
    assert(ex >= m * s.a.x);
    lemma_div_at_least(ex, m, s.a.x as int);
    assert(ex < m * ((s.b.x - 1) + 1));
    lemma_div_at_most(ex, m, s.b.x - 1);
    assert(m * (ex / m) <= ex && ex < m * (ex / m + 1)) by (nonlinear_arith)
        requires
            m > 0,
    {
        assert(ex == m * (ex / m) + ex % m);
        assert(0 <= ex % m < m);
    }
}

/// Columns start in rising order, each a width behind the one before it.
pub proof fn lemma_starts(layout: GridLayout, i: int, j: int)
    requires
        layout.wf(),
        i <= j,
    ensures
        column_start(layout, i) <= column_start(layout, j),
        i < j ==> column_start(layout, i) + layout.width <= column_start(layout, j),
        column_start(layout, i + 1) == column_start(layout, i) + layout.width,
{
    let w = layout.width as int;
    assert(i * w <= j * w) by (nonlinear_arith)
        requires
            i <= j,
            w > 0,
    ;
    assert((i + 1) * w == i * w + w) by (nonlinear_arith);
    if i < j {
        assert((i + 1) * w <= j * w) by (nonlinear_arith)
            requires
                i + 1 <= j,
                w > 0,
        ;
    }
}

/// The last column of a segment that is not vertical holds the coordinate
/// before its greater end, and is no column before the first.
pub proof fn lemma_last_column(layout: GridLayout, s: XSegment)
    requires
        layout.wf(),
        s.wf(),
        s.a.x < s.b.x,
        layout.min_x <= s.a.x,
        s.b.x <= layout.max_x,
    ensures
        column_start(layout, last_column(layout, s.spec_rect())) <= s.b.x - 1 < column_start(
            layout,
            last_column(layout, s.spec_rect()) + 1,
        ),
        layout.spec_index(s.a.x) <= last_column(layout, s.spec_rect()) <= layout.spec_index(s.b.x),
        last_column(layout, s.spec_rect()) < layout.count,
{
    let rect = s.spec_rect();
    assert(rect.min_x == s.a.x && rect.max_x == s.b.x);
    let w = layout.width as int;
    let c0 = layout.spec_index(s.a.x);
    let last = layout.spec_index(s.b.x);
    lemma_index(layout, s.a.x);
    lemma_index(layout, s.b.x);
    let d = s.b.x - layout.min_x;
    assert(d == w * (d / w) + d % w && 0 <= d % w < w) by (nonlinear_arith)
        requires
            w > 0,
    ;
    assert(last == d / w);
    assert(column_start(layout, last) == layout.min_x + w * last) by (nonlinear_arith)
        requires
            column_start(layout, last) == layout.min_x + last * w,
    ;
    if c0 > last {
        lemma_starts(layout, last + 1, c0);
    }
    lemma_starts(layout, last - 1, last);
    lemma_starts(layout, last, last + 1);
    if d % w == 0 && last <= c0 {
        assert(s.b.x == column_start(layout, last));
    }
}

/// The column in which a point with rational coordinates lies: the column
/// that holds the greatest integer that is at most its first coordinate.
pub open spec fn column_of(layout: GridLayout, p: RealPoint) -> int {
    layout.spec_index((p.ex / p.m) as i32)
}

/// Where a segment that is not vertical is spread over the columns from
/// column `c` on, the column in which a point strictly within the segment
/// lies gets a fragment of the segment that holds the point.
pub proof fn lemma_spread_reaches(
    groups: Seq<Seq<Fragment>>,
    layout: GridLayout,
    index: usize,
    s: XSegment,
    c: usize,
    x0: int,
    n: int,
    m: int,
)
    requires
        layout.wf(),
        s.wf(),
        s.a.x < s.b.x,
        layout.min_x <= s.a.x,
        s.b.x <= layout.max_x,
        groups.len() == layout.count,
        0 < n < m,
        layout.spec_index(s.a.x) <= c <= column_of(layout, point_at(s, n, m)),
        x0 == (if c == layout.spec_index(s.a.x) {
            s.a.x as int
        } else {
            column_start(layout, c as int)
        }),
    ensures
        0 <= column_of(layout, point_at(s, n, m)) < groups.len(),
        exists|k: int|
            groups[column_of(layout, point_at(s, n, m))].len() <= k < spread(
                groups,
                layout,
                index,
                s,
                c,
                last_column(layout, s.spec_rect()) as usize,
                x0,
                near_at(s, x0),
            )[column_of(layout, point_at(s, n, m))].len() && holds_real(
                (#[trigger] spread(
                    groups,
                    layout,
                    index,
                    s,
                    c,
                    last_column(layout, s.spec_rect()) as usize,
                    x0,
                    near_at(s, x0),
                )[column_of(layout, point_at(s, n, m))][k]).rect,
                point_at(s, n, m),
            ),
    decreases column_of(layout, point_at(s, n, m)) - c,
{
    let rect = s.spec_rect();
    let p = point_at(s, n, m);
    let fl = p.ex / m;
    let r = column_of(layout, p);
    let c0 = layout.spec_index(s.a.x);
    let c1 = last_column(layout, rect);
    let y0 = near_at(s, x0);
    assert(rect.min_x == s.a.x && rect.max_x == s.b.x);
    lemma_floor_inside(s, n, m);
    lemma_index(layout, fl as i32);
    lemma_index(layout, s.a.x);
    lemma_index(layout, s.b.x);
    // The last column of the segment holds the coordinate before its greater
    // end.
    let w = layout.width as int;
    let last = layout.spec_index(s.b.x);
    lemma_last_column(layout, s);
    assert(r <= c1) by {
        if r > c1 {
            lemma_starts(layout, c1 + 1, r);
        }
    }
    lemma_starts(layout, c as int, c + 1);
    lemma_starts(layout, c0 + 1, c as int + 1);
    lemma_pos(layout, c as int);
    let border = layout.spec_pos(c);
    assert(x0 < border && s.a.x <= x0) by {
        if c != c0 {
            lemma_starts(layout, c0 + 1, c as int);
        }
    }
    let step = column_step(layout, rect, rises(s), c, c1 as usize, x0, y0);
    let fragment = Fragment { index, rect: step.part, x_segment: s };
    let next = groups.update(c as int, groups[c as int].push(fragment));
    let out = spread(groups, layout, index, s, c, c1 as usize, x0, y0);
    if c < r {
        lemma_starts(layout, c + 1, r);
        assert(border <= column_start(layout, r));
        assert(!step.is_last);
        assert(step.x1 == border);
        lemma_near_far(s, border);
        assert(step.y1 == near_at(s, border));
        lemma_spread_reaches(next, layout, index, s, (c + 1) as usize, border, n, m);
        assert(out == spread(next, layout, index, s, (c + 1) as usize, c1 as usize, border, near_at(s, border)));
        let k = choose|k: int|
            next[r].len() <= k < out[r].len() && holds_real((#[trigger] out[r][k]).rect, p);
        assert(groups[r].len() <= k);
    } else {
        // The column is reached: its part holds the point.
        assert(x0 <= fl) by {
            if c != c0 {
            }
        }
        assert(m * x0 <= p.ex) by (nonlinear_arith)
            requires
                x0 <= fl,
                m * fl <= p.ex,
                m > 0,
        ;
        assert(x0 < step.x1);
        assert(p.ex <= m * step.x1) by (nonlinear_arith)
            requires
                p.ex < m * (fl + 1),
                p.ex < m * s.b.x,
                step.x1 == s.b.x || step.x1 >= fl + 1,
                m > 0,
        ;
        lemma_step_holds(layout, s, c, c1 as usize, x0, n, m);
        lemma_spread_grows(next, layout, index, s, (c + 1) as usize, c1 as usize, step.x1, step.y1);
        let k = groups[r].len() as int;
        assert(next[r][k] == fragment);
        if step.is_last {
            assert(out == next);
        } else {
            assert(out == spread(next, layout, index, s, (c + 1) as usize, c1 as usize, step.x1, step.y1));
            assert(out[r][k] == next[r][k]);
        }
        assert(holds_real(out[r][k].rect, p));
    }
}

/// Whether a segment lies within the extent of a grid.
pub open spec fn in_extent(layout: GridLayout, s: XSegment) -> bool {
    layout.min_x <= s.a.x && s.b.x <= layout.max_x
}

/// Sorting a segment into the columns keeps what the columns hold, adds
/// fragments of the segment only, and gives the column in which a point
/// strictly within the segment lies a fragment that holds the point.
pub proof fn lemma_added_holds(
    groups: Seq<Seq<Fragment>>,
    layout: GridLayout,
    index: usize,
    s: XSegment,
    n: int,
    m: int,
)
    requires
        layout.wf(),
        s.wf(),
        in_extent(layout, s),
        groups.len() == layout.count,
        0 < n < m,
    ensures
        grown_by(groups, added_groups(groups, layout, index, s), index, s),
        0 <= column_of(layout, point_at(s, n, m)) < groups.len(),
        exists|k: int|
            groups[column_of(layout, point_at(s, n, m))].len() <= k < added_groups(groups, layout, index, s)[column_of(
                layout,
                point_at(s, n, m),
            )].len() && holds_real(
                (#[trigger] added_groups(groups, layout, index, s)[column_of(layout, point_at(s, n, m))][k]).rect,
                point_at(s, n, m),
            ),
{
    let rect = s.spec_rect();
    let p = point_at(s, n, m);
    let out = added_groups(groups, layout, index, s);
    let c0 = layout.spec_index(rect.min_x);
    assert(rect.min_x == s.a.x && rect.max_x == s.b.x);
    lemma_index(layout, s.a.x);
    if rect.min_x == rect.max_x {
        let fragment = Fragment { index, rect, x_segment: s };
        assert(out == groups.update(c0, groups[c0].push(fragment)));
        assert(p.ex == m * s.a.x) by (nonlinear_arith)
            requires
                p.ex == m * s.a.x + (s.b.x - s.a.x) * n,
                s.b.x == s.a.x,
        ;
        lemma_div_at_least(p.ex, m, s.a.x as int);
        assert(p.ex < m * (s.a.x + 1)) by (nonlinear_arith)
            requires
                p.ex == m * s.a.x,
                m > 0,
        ;
        lemma_div_at_most(p.ex, m, s.a.x as int);
        assert(column_of(layout, p) == c0);
        crate::split::cross_laws::lemma_mean_between(s.a.y as int, s.b.y as int, m - n, n);
        assert(p.ey == (m - n) * s.a.y + n * s.b.y) by (nonlinear_arith)
            requires
                p.ey == m * s.a.y + (s.b.y - s.a.y) * n,
        ;
        assert(holds_real(rect, p));
        assert(out[c0][groups[c0].len() as int] == fragment);
        assert(grown_by(groups, out, index, s));
    } else {
        let left_y: int = if rises(s) {
            rect.min_y as int
        } else {
            rect.max_y as int
        };
        lemma_near_far(s, s.a.x as int);
        assert(left_y == near_at(s, s.a.x as int));
        lemma_floor_inside(s, n, m);
        lemma_index(layout, (p.ex / m) as i32);
        assert(c0 <= column_of(layout, p)) by {
            if column_of(layout, p) < c0 {
                lemma_starts(layout, column_of(layout, p) + 1, c0);
            }
        }
        lemma_last_column(layout, s);
        lemma_spread_grows(
            groups,
            layout,
            index,
            s,
            c0 as usize,
            last_column(layout, rect) as usize,
            rect.min_x as int,
            left_y,
        );
        lemma_spread_reaches(groups, layout, index, s, c0 as usize, s.a.x as int, n, m);
    }
}

/// Whether every segment of the working set lies within the extent of the
/// grid.
pub open spec fn all_in_extent<C>(layout: GridLayout, segments: Seq<Segment<C>>) -> bool {
    forall|k: int| 0 <= k < segments.len() ==> in_extent(layout, (#[trigger] segments[k]).x_segment)
}

/// Whether every fragment of every column stands for a segment of the
/// working set.
pub open spec fn groups_of<C>(groups: Seq<Seq<Fragment>>, segments: Seq<Segment<C>>) -> bool {
    forall|c: int| 0 <= c < groups.len() ==> fragments_of(#[trigger] groups[c], segments)
}

/// The columns of a working set hold fragments of the working set only.
pub proof fn lemma_filled_of<C: WindingCount>(layout: GridLayout, segments: Seq<Segment<C>>, n: int)
    requires
        layout.wf(),
        all_wf(segments),
        all_in_extent(layout, segments),
        segments.len() <= usize::MAX,
        0 <= n <= segments.len(),
    ensures
        filled_groups(layout, segments, n).len() == layout.count,
        groups_of(filled_groups(layout, segments, n), segments),
    decreases n,
{
    if n > 0 {
        lemma_filled_of(layout, segments, n - 1);
        let prev = filled_groups(layout, segments, n - 1);
        let s = segments[n - 1].x_segment;
        assert(s.wf() && in_extent(layout, s));
        let now = filled_groups(layout, segments, n);
        lemma_added_grows(prev, layout, (n - 1) as usize, s);
        assert forall|c: int| 0 <= c < now.len() implies fragments_of(#[trigger] now[c], segments) by {
            assert forall|k: int| 0 <= k < now[c].len() implies fragment_of(#[trigger] now[c][k], segments) by {
                if k < prev[c].len() {
                    assert(now[c][k] == prev[c][k]);
                    assert(fragment_of(prev[c][k], segments));
                }
            }
        }
    } else {
        let now = filled_groups(layout, segments, n);
        assert forall|c: int| 0 <= c < now.len() implies fragments_of(#[trigger] now[c], segments) by {
            assert(now[c].len() == 0);
        }
    }
}

/// Sorting a segment into the columns keeps what the columns hold and adds
/// fragments of the segment only.
pub proof fn lemma_added_grows(groups: Seq<Seq<Fragment>>, layout: GridLayout, index: usize, s: XSegment)
    requires
        layout.wf(),
        s.wf(),
        in_extent(layout, s),
        groups.len() == layout.count,
    ensures
        grown_by(groups, added_groups(groups, layout, index, s), index, s),
{
    let rect = s.spec_rect();
    let out = added_groups(groups, layout, index, s);
    let c0 = layout.spec_index(rect.min_x);
    assert(rect.min_x == s.a.x && rect.max_x == s.b.x);
    lemma_index(layout, s.a.x);
    if rect.min_x == rect.max_x {
        let fragment = Fragment { index, rect, x_segment: s };
        assert(out == groups.update(c0, groups[c0].push(fragment)));
        assert(grown_by(groups, out, index, s));
    } else {
        let left_y: int = if rises(s) {
            rect.min_y as int
        } else {
            rect.max_y as int
        };
        lemma_spread_grows(
            groups,
            layout,
            index,
            s,
            c0 as usize,
            last_column(layout, rect) as usize,
            rect.min_x as int,
            left_y,
        );
    }
}

/// The column in which a point strictly within segment `k` lies holds a
/// fragment of the segment that holds the point.
pub proof fn lemma_filled_holds<C: WindingCount>(
    layout: GridLayout,
    segments: Seq<Segment<C>>,
    size: int,
    k: int,
    n: int,
    m: int,
)
    requires
        layout.wf(),
        all_wf(segments),
        all_in_extent(layout, segments),
        segments.len() <= usize::MAX,
        0 <= k < size <= segments.len(),
        0 < n < m,
    ensures
        0 <= column_of(layout, point_at(segments[k].x_segment, n, m)) < layout.count,
        some_holds(
            filled_groups(layout, segments, size)[column_of(layout, point_at(segments[k].x_segment, n, m))],
            k as usize,
            segments[k].x_segment,
            point_at(segments[k].x_segment, n, m),
        ),
    decreases size,
{
    let p = point_at(segments[k].x_segment, n, m);
    let r = column_of(layout, p);
    let prev = filled_groups(layout, segments, size - 1);
    let now = filled_groups(layout, segments, size);
    let s = segments[size - 1].x_segment;
    assert(s.wf() && in_extent(layout, s));
    lemma_filled_of(layout, segments, size - 1);
    if k == size - 1 {
        lemma_added_holds(prev, layout, k as usize, s, n, m);
        let t = choose|t: int| prev[r].len() <= t < now[r].len() && holds_real((#[trigger] now[r][t]).rect, p);
        assert(now[r][t].index == k as usize && now[r][t].x_segment == s);
    } else {
        lemma_filled_holds(layout, segments, size - 1, k, n, m);
        lemma_added_grows(prev, layout, (size - 1) as usize, s);
        let t = choose|t: int|
            0 <= t < prev[r].len() && (#[trigger] prev[r][t]).index == k as usize && prev[r][t].x_segment
                == segments[k].x_segment && holds_real(prev[r][t].rect, p);
        assert(now[r][t] == prev[r][t]);
    }
}

} // verus!
