//! 3x3 neighbourhoods on row-major grids, and medians over them.
use vstd::prelude::*;
use crate::histogram::RegionStats;

verus! {

/// Cell reached from cell `index` by step `k` of the 3x3 window (`k` from 0
/// to 8, row by row, 4 being the cell itself), if it lies on the
/// `columns` by `rows` grid.
pub open spec fn window_cell(index: int, columns: int, rows: int, k: int) -> Option<int> {
    let dy = k / 3 - 1;
    let dx = k % 3 - 1;
    let nx = index % columns + dx;
    let ny = index / columns + dy;
    if nx < 0 || ny < 0 || nx >= columns || ny >= rows {
        None
    } else {
        Some(ny * columns + nx)
    }
}

/// Cells of the first `k` window steps around `index`, in window order,
/// with or without the cell itself.
pub open spec fn window_cells_upto(
    index: int,
    columns: int,
    rows: int,
    include_center: bool,
    k: int,
) -> Seq<int>
    decreases k,
{
    if k <= 0 {
        Seq::empty()
    } else {
        let before = window_cells_upto(index, columns, rows, include_center, k - 1);
        if !include_center && k - 1 == 4 {
            before
        } else {
            match window_cell(index, columns, rows, k - 1) {
                Some(c) => before.push(c),
                None => before,
            }
        }
    }
}

/// The in-grid cells of the 3x3 window around `index`, row by row.
pub open spec fn window_cells(index: int, columns: int, rows: int, include_center: bool) -> Seq<int> {
    window_cells_upto(index, columns, rows, include_center, 9)
}

/// Number of values of `s` below `v`.
pub open spec fn count_below(s: Seq<u8>, v: int) -> nat
    decreases s.len(),
{
    if s.len() == 0 {
        0
    } else {
        count_below(s.drop_last(), v) + if (s.last() as int) < v { 1nat } else { 0nat }
    }
}

/// `m` is the median of `s` in the sense of the element at position
/// `len / 2` of `s` sorted: fewer than `len / 2 + 1` values lie below `m`,
/// and more than `len / 2` lie at or below it.
pub open spec fn is_median(s: Seq<u8>, m: int) -> bool {
    count_below(s, m) <= s.len() / 2 < count_below(s, m + 1)
}

/// Medians of the darkest and brightest levels over a 3x3 neighbourhood.
#[derive(Clone, Copy)]
pub struct MedianRange {
    pub low: u8,
    pub high: u8,
}

proof fn lemma_count_below_all(s: Seq<u8>)
    ensures
        count_below(s, 256) == s.len(),
        count_below(s, 0) == 0,
    decreases s.len(),
{
    if s.len() > 0 {
        lemma_count_below_all(s.drop_last());
    }
}

proof fn lemma_count_below_monotone(s: Seq<u8>, a: int, b: int)
    requires
        a <= b,
    ensures
        count_below(s, a) <= count_below(s, b),
    decreases s.len(),
{
    if s.len() > 0 {
        lemma_count_below_monotone(s.drop_last(), a, b);
    }
}

proof fn lemma_count_below_push(s: Seq<u8>, x: u8, v: int)
    ensures
        count_below(s.push(x), v) == count_below(s, v) + if (x as int) < v { 1nat } else { 0nat },
{
    assert(s.push(x).drop_last() =~= s);
}

/// The cells of the 3x3 window around `index` that lie on the `columns`
/// by `rows` grid, row by row; the cell itself only when `include_center`.
pub fn window_neighbors(index: usize, columns: usize, rows: usize, include_center: bool) -> (r: Vec<
    usize,
>)
    requires
        0 < columns,
        columns * rows <= i32::MAX,
        index < columns * rows,
    ensures
        r@.len() == window_cells(index as int, columns as int, rows as int, include_center).len(),
        forall|i: int|
            0 <= i < r@.len() ==> #[trigger] r@[i] == window_cells(
                index as int,
                columns as int,
                rows as int,
                include_center,
            )[i],
        forall|i: int| 0 <= i < r@.len() ==> #[trigger] r@[i] < columns * rows,
{
    proof {
        assert(index / columns < rows) by (nonlinear_arith)
            requires
                index < columns * rows,
                0 < columns,
        ;
        assert(columns <= i32::MAX && rows <= i32::MAX) by (nonlinear_arith)
            requires
                index < columns * rows,
                0 < columns,
                columns * rows <= i32::MAX,
        ;
    }
    let col = (index % columns) as i64;
    let row = (index / columns) as i64;
    let mut cells: Vec<usize> = Vec::new();
    let mut k: i64 = 0;
    while k < 9
        invariant
            0 <= k <= 9,
            0 < columns,
            columns * rows <= i32::MAX,
            columns <= i32::MAX,
            rows <= i32::MAX,
            col == index % columns,
            row == index / columns,
            row < rows,
            cells@.len() == window_cells_upto(
                index as int,
                columns as int,
                rows as int,
                include_center,
                k as int,
            ).len(),
            forall|i: int|
                0 <= i < cells@.len() ==> #[trigger] cells@[i] == window_cells_upto(
                    index as int,
                    columns as int,
                    rows as int,
                    include_center,
                    k as int,
                )[i],
            forall|i: int| 0 <= i < cells@.len() ==> #[trigger] cells@[i] < columns * rows,
        decreases 9 - k,
    {
        let dy = k / 3 - 1;
        let dx = k % 3 - 1;
        if !(!include_center && k == 4) {
            let nx = col + dx;
            let ny = row + dy;
            if !(nx < 0 || ny < 0 || nx >= columns as i64 || ny >= rows as i64) {
                proof {
                    assert(0 <= ny * columns + nx < columns * rows) by (nonlinear_arith)
                        requires
                            0 <= nx < columns,
                            0 <= ny < rows,
                    ;
                }
                cells.push((ny as usize) * columns + (nx as usize));
            }
        }
        k = k + 1;
    }
    cells
}

/// Number of values of `values` at most `v`.
fn count_at_most(values: &Vec<u8>, v: u8) -> (r: usize)
    ensures
        r == count_below(values@, v + 1),
{
    let mut count: usize = 0;
    let mut i: usize = 0;
    while i < values.len()
        invariant
            i <= values@.len(),
            count == count_below(values@.take(i as int), v + 1),
            count <= i,
        decreases values@.len() - i,
    {
        proof {
            assert(values@.take(i + 1) =~= values@.take(i as int).push(values@[i as int]));
            lemma_count_below_push(values@.take(i as int), values@[i as int], v + 1);
        }
        if values[i] <= v {
            count = count + 1;
        }
        i = i + 1;
    }
    proof {
        assert(values@.take(i as int) =~= values@);
    }
    count
}

/// The median of `values`: the value at position `len / 2` once the values
/// are sorted.
pub fn median_u8(values: &Vec<u8>) -> (r: u8)
    requires
        values@.len() > 0,
    ensures
        is_median(values@, r as int),
{
    let half = values.len() / 2;
    let mut v: u8 = 0;
    proof {
        lemma_count_below_all(values@);
    }
    loop
        invariant
            values@.len() > 0,
            half == values@.len() / 2,
            count_below(values@, v as int) <= half,
        decreases 256 - v,
    {
        let at_most = count_at_most(values, v);
        if at_most > half {
            return v;
        }
        proof {
            if v == 255 {
                lemma_count_below_all(values@);
                assert(at_most == values@.len());
            }
        }
        v = v + 1;
    }
}

/// For every region of the `tiles_x` by `tiles_y` grid, the medians of the
/// darkest and of the brightest levels over its 3x3 neighbourhood (itself
/// included).
pub fn neighbor_medians(regions: &Vec<RegionStats>, tiles_x: u32, tiles_y: u32) -> (r: Vec<
    MedianRange,
>)
    requires
        regions@.len() == tiles_x as int * tiles_y as int,
        regions@.len() <= i32::MAX,
    ensures
        r@.len() == regions@.len(),
        forall|i: int|
            0 <= i < r@.len() ==> {
                let cells = window_cells(i, tiles_x as int, tiles_y as int, true);
                &&& is_median(
                    cells.map_values(|c: int| regions@[c].p_low),
                    (#[trigger] r@[i]).low as int,
                )
                &&& is_median(cells.map_values(|c: int| regions@[c].p_high), r@[i].high as int)
            },
{
    let mut medians: Vec<MedianRange> = Vec::new();
    let mut index: usize = 0;
    while index < regions.len()
        invariant
            regions@.len() == tiles_x as int * tiles_y as int,
            regions@.len() <= i32::MAX,
            index <= regions@.len(),
            medians@.len() == index,
            forall|i: int|
                0 <= i < index ==> {
                    let cells = window_cells(i, tiles_x as int, tiles_y as int, true);
                    &&& is_median(
                        cells.map_values(|c: int| regions@[c].p_low),
                        (#[trigger] medians@[i]).low as int,
                    )
                    &&& is_median(
                        cells.map_values(|c: int| regions@[c].p_high),
                        medians@[i].high as int,
                    )
                },
        decreases regions@.len() - index,
    {
        proof {
            assert(0 < tiles_x) by (nonlinear_arith)
                requires
                    index < tiles_x as int * tiles_y as int,
            ;
        }
        let cells = window_neighbors(index, tiles_x as usize, tiles_y as usize, true);
        let ghost expected = window_cells(index as int, tiles_x as int, tiles_y as int, true);
        let mut lows: Vec<u8> = Vec::new();
        let mut highs: Vec<u8> = Vec::new();
        let mut j: usize = 0;
        while j < cells.len()
            invariant
                regions@.len() == tiles_x as int * tiles_y as int,
                cells@.len() == expected.len(),
                forall|i: int| 0 <= i < cells@.len() ==> #[trigger] cells@[i] == expected[i],
                forall|i: int| 0 <= i < cells@.len() ==> #[trigger] cells@[i] < regions@.len(),
                j <= cells@.len(),
                lows@ =~= expected.take(j as int).map_values(|c: int| regions@[c].p_low),
                highs@ =~= expected.take(j as int).map_values(|c: int| regions@[c].p_high),
            decreases cells@.len() - j,
        {
            let neighbor = &regions[cells[j]];
            lows.push(neighbor.p_low);
            highs.push(neighbor.p_high);
            proof {
                assert(expected.take(j + 1) =~= expected.take(j as int).push(expected[j as int]));
            }
            j = j + 1;
        }
        proof {
            assert(expected.take(j as int) =~= expected);
            lemma_window_has_center(index as int, tiles_x as int, tiles_y as int);
        }
        let low = median_u8(&lows);
        let high = median_u8(&highs);
        medians.push(MedianRange { low, high });
        index = index + 1;
    }
    medians
}

proof fn lemma_window_has_center(index: int, columns: int, rows: int)
    requires
        0 < columns,
        0 <= index < columns * rows,
    ensures
        window_cells(index, columns, rows, true).len() > 0,
{
    assert(index / columns < rows) by (nonlinear_arith)
        requires
            0 <= index < columns * rows,
            0 < columns,
    ;
    vstd::arithmetic::div_mod::lemma_fundamental_div_mod(index, columns);
    assert((index / columns) * columns == columns * (index / columns)) by (nonlinear_arith);
    assert(window_cell(index, columns, rows, 4) == Some(index));
    lemma_window_len_grows(index, columns, rows, true, 5, 9);
}

proof fn lemma_window_len_grows(
    index: int,
    columns: int,
    rows: int,
    include_center: bool,
    a: int,
    b: int,
)
    requires
        0 <= a <= b,
    ensures
        window_cells_upto(index, columns, rows, include_center, a).len() <= window_cells_upto(
            index,
            columns,
            rows,
            include_center,
            b,
        ).len(),
    decreases b - a,
{
    if a < b {
        lemma_window_len_grows(index, columns, rows, include_center, a, b - 1);
    }
}

/// The median is one of the values it is taken over.
pub proof fn law_median_is_member(s: Seq<u8>, m: int)
    requires
        is_median(s, m),
    ensures
        exists|i: int| 0 <= i < s.len() && s[i] as int == m,
    decreases s.len(),
{
    lemma_median_member_helper(s, m);
}

proof fn lemma_median_member_helper(s: Seq<u8>, m: int)
    requires
        count_below(s, m) < count_below(s, m + 1),
    ensures
        exists|i: int| 0 <= i < s.len() && s[i] as int == m,
    decreases s.len(),
{
    if s.len() == 0 {
    } else if s.last() as int == m {
        assert(s[s.len() - 1] as int == m);
    } else {
        lemma_median_member_helper(s.drop_last(), m);
        let i = choose|i: int| 0 <= i < s.drop_last().len() && s.drop_last()[i] as int == m;
        assert(s[i] as int == m);
    }
}

/// Only one value is the median of a sequence.
pub proof fn law_median_unique(s: Seq<u8>, m1: int, m2: int)
    requires
        is_median(s, m1),
        is_median(s, m2),
    ensures
        m1 == m2,
{
    if m1 < m2 {
        lemma_count_below_monotone(s, m1 + 1, m2);
    } else if m2 < m1 {
        lemma_count_below_monotone(s, m2 + 1, m1);
    }
}

proof fn lemma_count_below_at_least(s: Seq<u8>, v: int, n: int)
    requires
        0 <= n <= s.len(),
        forall|i: int| 0 <= i < n ==> (#[trigger] s[i] as int) < v,
    ensures
        count_below(s, v) >= n,
    decreases s.len(),
{
    if s.len() > 0 {
        let t = s.drop_last();
        if n == s.len() {
            lemma_count_below_at_least(t, v, n - 1);
            assert((s[s.len() - 1] as int) < v);
        } else {
            lemma_count_below_at_least(t, v, n);
        }
    }
}

proof fn lemma_count_below_at_most(s: Seq<u8>, v: int, n: int)
    requires
        0 <= n,
        forall|i: int| n <= i < s.len() ==> (#[trigger] s[i] as int) >= v,
    ensures
        count_below(s, v) <= n,
    decreases s.len(),
{
    if s.len() > 0 {
        let t = s.drop_last();
        if n < s.len() {
            assert(s[s.len() - 1] as int >= v);
            lemma_count_below_at_most(t, v, n);
        } else {
            lemma_count_below_le_len(s, v);
        }
    }
}

proof fn lemma_count_below_le_len(s: Seq<u8>, v: int)
    ensures
        count_below(s, v) <= s.len(),
    decreases s.len(),
{
    if s.len() > 0 {
        lemma_count_below_le_len(s.drop_last(), v);
    }
}

/// For values already in order, the median is the middle value, the one at
/// position `len / 2`: what sorting the neighbourhood and indexing gives.
pub proof fn law_median_of_sorted(s: Seq<u8>)
    requires
        s.len() > 0,
        forall|i: int, j: int| 0 <= i <= j < s.len() ==> #[trigger] s[i] <= #[trigger] s[j],
    ensures
        is_median(s, s[(s.len() / 2) as int] as int),
{
    let k: int = (s.len() / 2) as int;
    let m = s[k] as int;
    assert forall|i: int| k <= i < s.len() implies (#[trigger] s[i] as int) >= m by {
        assert(s[k] <= s[i]);
    }
    lemma_count_below_at_most(s, m, k);
    assert forall|i: int| 0 <= i < k + 1 implies (#[trigger] s[i] as int) < m + 1 by {
        assert(s[i] <= s[k]);
    }
    lemma_count_below_at_least(s, m + 1, k + 1);
}


/// Where the cell of window step `k` lies: in the grid, in the column and
/// row `k` steps to.
proof fn lemma_window_cell_place(index: int, columns: int, rows: int, k: int)
    requires
        0 < columns,
        0 <= index < columns * rows,
        0 <= k < 9,
    ensures
        window_cell(index, columns, rows, k) matches Some(c) ==> {
            &&& 0 <= c < columns * rows
            &&& c % columns == index % columns + (k % 3 - 1)
            &&& c / columns == index / columns + (k / 3 - 1)
        },
{
    let nx = index % columns + (k % 3 - 1);
    let ny = index / columns + (k / 3 - 1);
    if window_cell(index, columns, rows, k) is Some {
        let c = ny * columns + nx;
        vstd::arithmetic::div_mod::lemma_fundamental_div_mod_converse(c, columns, ny, nx);
        assert(0 <= c < columns * rows) by (nonlinear_arith)
            requires
                0 <= nx < columns,
                0 <= ny < rows,
                c == ny * columns + nx,
        ;
    }
}

/// Every cell of the first `k` window steps comes from one of them.
proof fn lemma_window_upto_sound(index: int, columns: int, rows: int, include_center: bool, k: int)
    requires
        0 <= k <= 9,
    ensures
        forall|i: int|
            0 <= i < window_cells_upto(index, columns, rows, include_center, k).len() ==> exists|
                step: int,
            |
                0 <= step < k && (include_center || step != 4) && window_cell(
                    index,
                    columns,
                    rows,
                    step,
                ) == Some(#[trigger] window_cells_upto(index, columns, rows, include_center, k)[i]),
    decreases k,
{
    if k > 0 {
        lemma_window_upto_sound(index, columns, rows, include_center, k - 1);
        let before = window_cells_upto(index, columns, rows, include_center, k - 1);
        let now = window_cells_upto(index, columns, rows, include_center, k);
        assert forall|i: int| 0 <= i < now.len() implies exists|step: int|
            0 <= step < k && (include_center || step != 4) && window_cell(index, columns, rows, step)
                == Some(#[trigger] now[i]) by {
            if i < before.len() {
                assert(now[i] == before[i]);
                let step = choose|step: int|
                    0 <= step < k - 1 && (include_center || step != 4) && window_cell(
                        index,
                        columns,
                        rows,
                        step,
                    ) == Some(before[i]);
                assert(0 <= step < k);
            } else {
                assert(window_cell(index, columns, rows, k - 1) == Some(now[i]));
            }
        }
    }
}

/// Every in-grid cell of the first `k` window steps is listed.
proof fn lemma_window_upto_complete(
    index: int,
    columns: int,
    rows: int,
    include_center: bool,
    k: int,
    step: int,
)
    requires
        0 <= step < k <= 9,
        include_center || step != 4,
        window_cell(index, columns, rows, step) is Some,
    ensures
        window_cells_upto(index, columns, rows, include_center, k).contains(
            window_cell(index, columns, rows, step)->0,
        ),
    decreases k,
{
    let before = window_cells_upto(index, columns, rows, include_center, k - 1);
    let now = window_cells_upto(index, columns, rows, include_center, k);
    let c = window_cell(index, columns, rows, step)->0;
    if step < k - 1 {
        lemma_window_upto_complete(index, columns, rows, include_center, k - 1, step);
        let i = choose|i: int| 0 <= i < before.len() && before[i] == c;
        assert(now[i] == c);
    } else {
        assert(now[now.len() - 1] == c);
    }
}

/// The cells listed around `index` are exactly the cells of the grid in
/// the same or an adjacent row and the same or an adjacent column, the
/// cell itself only when it is asked for: no cell of the next or previous
/// row stands in for a column past an edge.
pub proof fn law_window_neighbors_adjacent(
    index: int,
    columns: int,
    rows: int,
    include_center: bool,
    c: int,
)
    requires
        0 < columns,
        0 <= index < columns * rows,
    ensures
        window_cells(index, columns, rows, include_center).contains(c) <==> {
            &&& 0 <= c < columns * rows
            &&& -1 <= c % columns - index % columns <= 1
            &&& -1 <= c / columns - index / columns <= 1
            &&& (include_center || c != index)
        },
{
    let cells = window_cells(index, columns, rows, include_center);
    lemma_window_upto_sound(index, columns, rows, include_center, 9);
    if cells.contains(c) {
        let i = choose|i: int| 0 <= i < cells.len() && cells[i] == c;
        let step = choose|step: int|
            0 <= step < 9 && (include_center || step != 4) && window_cell(
                index,
                columns,
                rows,
                step,
            ) == Some(#[trigger] cells[i]);
        lemma_window_cell_place(index, columns, rows, step);
        if !include_center && c == index {
            assert(step % 3 == 1 && step / 3 == 1);
        }
    }
    if 0 <= c < columns * rows && -1 <= c % columns - index % columns <= 1 && -1 <= c / columns
        - index / columns <= 1 && (include_center || c != index) {
        let dx = c % columns - index % columns;
        let dy = c / columns - index / columns;
        let step = (dy + 1) * 3 + (dx + 1);
        vstd::arithmetic::div_mod::lemma_fundamental_div_mod_converse(step, 3, dy + 1, dx + 1);
        vstd::arithmetic::div_mod::lemma_fundamental_div_mod(c, columns);
        vstd::arithmetic::div_mod::lemma_fundamental_div_mod(index, columns);
        assert(0 <= c % columns < columns);
        assert(0 <= c / columns < rows) by (nonlinear_arith)
            requires
                0 <= c < columns * rows,
                0 < columns,
        ;
        assert(c == (c / columns) * columns + c % columns) by (nonlinear_arith)
            requires
                c == columns * (c / columns) + (c % columns),
        ;
        if !include_center {
            if step == 4 {
                assert(index == (index / columns) * columns + index % columns) by (nonlinear_arith)
                    requires
                        index == columns * (index / columns) + (index % columns),
                ;
            }
        }
        assert(window_cell(index, columns, rows, step) == Some(c));
        lemma_window_upto_complete(index, columns, rows, include_center, 9, step);
    }
}


/// Later window steps reach later cells of the row-major grid.
proof fn lemma_window_cell_increasing(index: int, columns: int, rows: int, s1: int, s2: int)
    requires
        0 < columns,
        0 <= index < columns * rows,
        0 <= s1 < s2 < 9,
        window_cell(index, columns, rows, s1) is Some,
        window_cell(index, columns, rows, s2) is Some,
    ensures
        window_cell(index, columns, rows, s1)->0 < window_cell(index, columns, rows, s2)->0,
{
    let nx1 = index % columns + (s1 % 3 - 1);
    let ny1 = index / columns + (s1 / 3 - 1);
    let nx2 = index % columns + (s2 % 3 - 1);
    let ny2 = index / columns + (s2 / 3 - 1);
    assert(ny1 < ny2 || (ny1 == ny2 && nx1 < nx2));
    assert(ny1 * columns + nx1 < ny2 * columns + nx2) by (nonlinear_arith)
        requires
            0 <= nx1 < columns,
            0 <= nx2 < columns,
            ny1 < ny2 || (ny1 == ny2 && nx1 < nx2),
    {
        if ny1 < ny2 {
            assert(ny1 * columns + columns <= ny2 * columns);
        }
    }
}

proof fn lemma_window_upto_increasing(
    index: int,
    columns: int,
    rows: int,
    include_center: bool,
    k: int,
)
    requires
        0 < columns,
        0 <= index < columns * rows,
        0 <= k <= 9,
    ensures
        forall|i: int, j: int|
            0 <= i < j < window_cells_upto(index, columns, rows, include_center, k).len()
                ==> #[trigger] window_cells_upto(index, columns, rows, include_center, k)[i]
                < #[trigger] window_cells_upto(index, columns, rows, include_center, k)[j],
    decreases k,
{
    if k > 0 {
        lemma_window_upto_increasing(index, columns, rows, include_center, k - 1);
        lemma_window_upto_sound(index, columns, rows, include_center, k - 1);
        let before = window_cells_upto(index, columns, rows, include_center, k - 1);
        let now = window_cells_upto(index, columns, rows, include_center, k);
        if now.len() > before.len() {
            assert forall|i: int, j: int| 0 <= i < j < now.len() implies #[trigger] now[i]
                < #[trigger] now[j] by {
                if j == before.len() {
                    assert(now[i] == before[i]);
                    let step = choose|step: int|
                        0 <= step < k - 1 && (include_center || step != 4) && window_cell(
                            index,
                            columns,
                            rows,
                            step,
                        ) == Some(before[i]);
                    lemma_window_cell_increasing(index, columns, rows, step, k - 1);
                } else {
                    assert(now[i] == before[i] && now[j] == before[j]);
                }
            }
        }
    }
}

/// The cells around `index` are listed row by row, left to right: each
/// listed cell comes after the one before it, so none is listed twice.
pub proof fn law_window_neighbors_in_order(
    index: int,
    columns: int,
    rows: int,
    include_center: bool,
    i: int,
    j: int,
)
    requires
        0 < columns,
        0 <= index < columns * rows,
        0 <= i < j < window_cells(index, columns, rows, include_center).len(),
    ensures
        window_cells(index, columns, rows, include_center)[i] < window_cells(
            index,
            columns,
            rows,
            include_center,
        )[j],
{
    lemma_window_upto_increasing(index, columns, rows, include_center, 9);
}

} // verus!
