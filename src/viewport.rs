use vstd::prelude::*;
use crate::flat_row::FlatRow;

verus! {

/// `a / b` rounded up.
pub open spec fn ceil_div(a: int, b: int) -> int {
    (a + b - 1) / b
}

/// The first row to materialise: the first row in view, less the buffer.
pub open spec fn window_start(scroll_offset: int, row_height: int, buffer_rows: int) -> int {
    let first_visible = scroll_offset / row_height;
    if first_visible > buffer_rows { first_visible - buffer_rows } else { 0 }
}

/// One past the last row to materialise.
pub open spec fn window_end(
    total_rows: int,
    scroll_offset: int,
    viewport_height: int,
    row_height: int,
    buffer_rows: int,
) -> int {
    let first_visible = scroll_offset / row_height;
    let visible_count = ceil_div(viewport_height, row_height) + 1;
    let want = first_visible + visible_count + buffer_rows;
    if want < total_rows { want } else { total_rows }
}

/// The rows `[start, end)` that a viewport at `scroll_offset` needs, with
/// `buffer_rows` extra rows on each side. Offsets and heights are in pixels.
pub fn visible_range(
    total_rows: usize,
    scroll_offset: usize,
    viewport_height: usize,
    row_height: usize,
    buffer_rows: usize,
) -> (r: (usize, usize))
    requires
        row_height > 0,
    ensures
        r.0 == window_start(scroll_offset as int, row_height as int, buffer_rows as int),
        r.1 == window_end(
            total_rows as int,
            scroll_offset as int,
            viewport_height as int,
            row_height as int,
            buffer_rows as int,
        ),
{
    let first_visible = scroll_offset / row_height;
    let whole = viewport_height / row_height;
    let ceil: u128 = if viewport_height % row_height != 0 { whole as u128 + 1 } else { whole as u128 };
    assert(ceil == ceil_div(viewport_height as int, row_height as int)) by (nonlinear_arith)
        requires
            row_height > 0,
            whole == viewport_height / row_height,
            ceil == if viewport_height % row_height != 0 { whole + 1 } else { whole as int },
    {
    }
    let start = if first_visible > buffer_rows { first_visible - buffer_rows } else { 0 };
    let want: u128 = first_visible as u128 + ceil + 1 + buffer_rows as u128;
    let end = if want < total_rows as u128 { want as usize } else { total_rows };
    (start, end)
}

/// The rows to draw: the window of `visible_range`, narrowed so that
/// `start <= end <= total_rows` (empty where the window starts past the
/// last row).
pub fn rows_to_draw(
    total_rows: usize,
    scroll_offset: usize,
    viewport_height: usize,
    row_height: usize,
    buffer_rows: usize,
) -> (r: (usize, usize))
    requires
        row_height > 0,
    ensures
        r.0 <= r.1 <= total_rows,
        r.1 == window_end(total_rows as int, scroll_offset as int, viewport_height as int, row_height as int, buffer_rows as int),
        r.0 == if window_start(scroll_offset as int, row_height as int, buffer_rows as int) <= r.1 {
            window_start(scroll_offset as int, row_height as int, buffer_rows as int)
        } else {
            r.1 as int
        },
{
    let (start, end) = visible_range(total_rows, scroll_offset, viewport_height, row_height, buffer_rows);
    if start <= end { (start, end) } else { (end, end) }
}

/// However large the document, the window holds at most
/// `ceil(viewport_height / row_height) + 2 * buffer_rows + 1` rows.
pub proof fn lemma_window_bound(
    total_rows: nat,
    scroll_offset: nat,
    viewport_height: nat,
    row_height: nat,
    buffer_rows: nat,
)
    requires
        row_height > 0,
    ensures
        window_end(total_rows as int, scroll_offset as int, viewport_height as int, row_height as int, buffer_rows as int)
            - window_start(scroll_offset as int, row_height as int, buffer_rows as int)
            <= ceil_div(viewport_height as int, row_height as int) + 2 * buffer_rows + 1,
{
}

/// Where the viewport is a whole number of rows high, the window holds at
/// most `viewport_height / row_height + 2 * buffer_rows + 1` rows, however
/// large the document.
pub proof fn lemma_window_bound_whole_rows(
    total_rows: nat,
    scroll_offset: nat,
    viewport_height: nat,
    row_height: nat,
    buffer_rows: nat,
)
    requires
        row_height > 0,
        viewport_height % row_height == 0,
    ensures
        window_end(total_rows as int, scroll_offset as int, viewport_height as int, row_height as int, buffer_rows as int)
            - window_start(scroll_offset as int, row_height as int, buffer_rows as int)
            <= viewport_height / row_height + 2 * buffer_rows + 1,
{
    let h = viewport_height as int;
    let rh = row_height as int;
    assert(ceil_div(h, rh) == h / rh) by (nonlinear_arith)
        requires
            rh > 0,
            h >= 0,
            h % rh == 0,
    {
        assert(h == rh * (h / rh));
        assert((h + rh - 1) == rh * (h / rh) + (rh - 1));
    }
    lemma_window_bound(total_rows, scroll_offset, viewport_height, row_height, buffer_rows);
}

/// The scroll offset that centres row `position` in the viewport: the row's
/// top less half the viewport height, and never negative.
pub open spec fn centred_offset(position: int, viewport_height: int, row_height: int) -> int {
    let top = position * row_height;
    let half = viewport_height / 2;
    if top > half { top - half } else { 0 }
}

/// The offset that centres the first row of node `target`, or `None`
/// (no movement) where no row shows it.
pub fn scroll_offset_for(
    rows: &Vec<FlatRow>,
    target: usize,
    viewport_height: usize,
    row_height: usize,
) -> (r: Option<usize>)
    requires
        rows@.len() * row_height <= usize::MAX,
    ensures
        match r {
            Some(off) => exists|p: int|
                0 <= p < rows@.len() && rows@[p].node_index == target
                && (forall|q: int| 0 <= q < p ==> rows@[q].node_index != target)
                && off == centred_offset(p, viewport_height as int, row_height as int),
            None => forall|p: int| 0 <= p < rows@.len() ==> rows@[p].node_index != target,
        },
{
    let mut p: usize = 0;
    while p < rows.len()
        invariant
            p <= rows@.len(),
            rows@.len() * row_height <= usize::MAX,
            forall|q: int| 0 <= q < p ==> rows@[q].node_index != target,
        decreases rows@.len() - p,
    {
        if rows[p].node_index == target {
            assert(p * row_height <= rows@.len() * row_height) by (nonlinear_arith)
                requires
                    p <= rows@.len(),
                    row_height >= 0,
            {
            }
            let top = p * row_height;
            let half = viewport_height / 2;
            let off = if top > half { top - half } else { 0 };
            assert(off == centred_offset(p as int, viewport_height as int, row_height as int));
            assert(rows@[p as int].node_index == target);
            return Some(off);
        }
        p = p + 1;
    }
    None
}

} // verus!
