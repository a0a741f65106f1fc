//! From brightness levels to ASCII text: the character of every cell, and
//! the rows of the grid joined into one text.
use vstd::arithmetic::div_mod::lemma_fundamental_div_mod_converse_div;
use vstd::prelude::*;

verus! {

/// The characters of all strings of `s`, one after another.
pub open spec fn concat_all(s: Seq<Seq<char>>) -> Seq<char>
    decreases s.len(),
{
    if s.len() == 0 {
        Seq::empty()
    } else {
        concat_all(s.drop_last()) + s.last()
    }
}

/// The rows of `rows` joined by line breaks.
pub open spec fn join_lines(rows: Seq<Seq<char>>) -> Seq<char>
    decreases rows.len(),
{
    if rows.len() == 0 {
        Seq::empty()
    } else if rows.len() == 1 {
        rows[0]
    } else {
        join_lines(rows.drop_last()) + seq!['\n'] + rows.last()
    }
}

/// Number of rows of `width` cells needed for `len` cells.
pub open spec fn row_count(len: int, width: int) -> int {
    (len + width - 1) / width
}

/// Row `r` of the grid: the cells from `r * width` up to the next row, or
/// up to the last cell.
pub open spec fn grid_row(values: Seq<Seq<char>>, width: int, r: int) -> Seq<char> {
    let end = if (r + 1) * width < values.len() { (r + 1) * width } else { values.len() as int };
    concat_all(values.subrange(r * width, end))
}

/// The rows of the grid, top to bottom.
pub open spec fn grid_rows(values: Seq<Seq<char>>, width: int) -> Seq<Seq<char>> {
    Seq::new(row_count(values.len() as int, width) as nat, |r: int| grid_row(values, width, r))
}

/// The text of a grid of cells: rows of `width` cells (the last row may be
/// shorter), each row the cells' text in order, rows joined by line breaks.
pub open spec fn grid_text(values: Seq<Seq<char>>, width: int) -> Seq<char> {
    join_lines(grid_rows(values, width))
}

/// The texts of a sequence of strings.
pub open spec fn texts(values: Seq<String>) -> Seq<Seq<char>> {
    values.map_values(|v: String| v@)
}

/// Width of the ASCII grid: the requested number of columns, at least 8.
pub open spec fn grid_columns_spec(requested: u32) -> u32 {
    if requested < 8 { 8 } else { requested }
}

/// Result of one conversion of a frame into ASCII.
pub struct ConvertResult {
    pub columns: u32,
    pub rows: u32,
    /// One string per cell, row-major.
    pub values: Vec<String>,
    /// The cells as text, one line per row.
    pub text: String,
}

/// Progress report of a conversion.
#[derive(Clone, Copy)]
pub struct ConversionProgress {
    pub job_id: u64,
    pub processed: usize,
    pub total: usize,
}

/// Outcome of the search for good settings for an image.
#[derive(Clone, Copy)]
pub struct BestSettings {
    pub resolution: u32,
}

proof fn lemma_row_count(len: int, width: int, r: int)
    requires
        0 < width,
        0 <= len,
        0 <= r,
        (r - 1) * width < len <= r * width || (r == 0 && len == 0),
    ensures
        row_count(len, width) == r,
{
    if r == 0 {
        lemma_fundamental_div_mod_converse_div(len + width - 1, width, 0, width - 1);
    } else {
        let rem = len + width - 1 - r * width;
        assert(0 <= rem < width) by (nonlinear_arith)
            requires
                rem == len + width - 1 - r * width,
                (r - 1) * width < len <= r * width,
                0 < width,
        ;
        assert(len + width - 1 == r * width + rem);
        lemma_fundamental_div_mod_converse_div(len + width - 1, width, r, rem);
    }
}

/// Joins the cells into rows of `columns` cells (at least one) and the rows
/// into lines.
pub fn values_to_text(values: &[String], columns: u32) -> (r: String)
    ensures
        r@ == grid_text(texts(values@), if columns < 1 { 1 } else { columns as int }),
{
    let width: usize = if columns < 1 {
        1
    } else {
        columns as usize
    };
    let ghost cells = texts(values@);
    let ghost rows = grid_rows(cells, width as int);
    let mut text = String::new();
    let mut start: usize = 0;
    let mut r: usize = 0;
    while start < values.len()
        invariant
            0 < width,
            cells == texts(values@),
            rows == grid_rows(cells, width as int),
            start <= values@.len(),
            start == (if r * width < values@.len() { r * width } else { values@.len() as int }),
            r == 0 || (r - 1) * width < values@.len(),
            text@ == join_lines(
                Seq::new(r as nat, |i: int| grid_row(cells, width as int, i)),
            ),
        decreases values@.len() - start,
    {
        assert(start == r * width);
        let end = if values.len() - start < width {
            values.len()
        } else {
            start + width
        };
        let mut row = String::new();
        let mut j = start;
        while j < end
            invariant
                cells == texts(values@),
                start <= j <= end <= values@.len(),
                row@ == concat_all(cells.subrange(start as int, j as int)),
            decreases end - j,
        {
            proof {
                assert(cells.subrange(start as int, j + 1).drop_last() =~= cells.subrange(
                    start as int,
                    j as int,
                ));
            }
            row.append(values[j].as_str());
            j = j + 1;
        }
        let ghost prev = Seq::new(r as nat, |i: int| grid_row(cells, width as int, i));
        let ghost next = Seq::new((r + 1) as nat, |i: int| grid_row(cells, width as int, i));
        proof {
            assert((r + 1) * width == start + width) by (nonlinear_arith)
                requires
                    start == r * width,
            ;
            assert(r <= r * width) by (nonlinear_arith)
                requires
                    0 < width,
            ;
            assert(row@ == grid_row(cells, width as int, r as int));
            assert(next.drop_last() =~= prev);
            assert(next.last() == row@);
            reveal_strlit("\n");
        }
        if r > 0 {
            text.append("\n");
        }
        text.append(row.as_str());
        proof {
            if r == 0 {
                assert(next =~= seq![row@]);
            }
            assert(text@ == join_lines(next));
        }
        start = end;
        r = r + 1;
    }
    proof {
        lemma_row_count(values@.len() as int, width as int, r as int);
        assert(Seq::new(r as nat, |i: int| grid_row(cells, width as int, i)) =~= rows);
    }
    text
}

/// An eighth of the image width, kept between 64 and 180 columns.
pub open spec fn best_resolution_spec(width: u32) -> u32 {
    if width / 8 < 64 {
        64
    } else if width / 8 > 180 {
        180
    } else {
        width / 8
    }
}

/// Width of the "best settings" resolution: an eighth of the image width,
/// kept between 64 and 180 columns.
pub fn best_resolution(width: u32) -> (r: u32)
    ensures
        r == best_resolution_spec(width),
        64 <= r <= 180,
{
    let r = width / 8;
    if r < 64 {
        64
    } else if r > 180 {
        180
    } else {
        r
    }
}

/// Width of the ASCII grid for the requested number of columns.
pub fn grid_columns(requested: u32) -> (r: u32)
    ensures
        r == grid_columns_spec(requested),
{
    if requested < 8 {
        8
    } else {
        requested
    }
}

/// Number of brightness levels that `characters` offers, one per character;
/// an error when it offers none.
pub fn character_levels(characters: &str) -> (r: Result<usize, String>)
    ensures
        match r {
            Ok(n) => n == characters@.len() && n > 0,
            Err(e) => characters@.len() == 0 && e@ == "Набор символов не может быть пустым"@,
        },
{
    let n = characters.unicode_len();
    if n == 0 {
        Err(String::from_str("Набор символов не может быть пустым"))
    } else {
        Ok(n)
    }
}

/// The conversion result for a grid whose cell `i` shows character number
/// `cell_levels[i]` of `characters`.
pub fn build_convert_result(characters: &str, columns: u32, rows: u32, cell_levels: &Vec<usize>) -> (r:
    ConvertResult)
    requires
        forall|i: int| 0 <= i < cell_levels@.len() ==> #[trigger] cell_levels@[i] < characters@.len(),
    ensures
        r.columns == columns,
        r.rows == rows,
        r.values@.len() == cell_levels@.len(),
        forall|i: int|
            0 <= i < r.values@.len() ==> (#[trigger] r.values@[i])@ == seq![
                characters@[cell_levels@[i] as int],
            ],
        r.text@ == grid_text(texts(r.values@), if columns < 1 { 1 } else { columns as int }),
{
    let level_count = characters.unicode_len();
    let mut values: Vec<String> = Vec::new();
    let mut i: usize = 0;
    while i < cell_levels.len()
        invariant
            level_count == characters@.len(),
            forall|k: int| 0 <= k < cell_levels@.len() ==> #[trigger] cell_levels@[k] < characters@.len(),
            i <= cell_levels@.len(),
            values@.len() == i,
            forall|k: int|
                0 <= k < i ==> (#[trigger] values@[k])@ == seq![characters@[cell_levels@[k] as int]],
        decreases cell_levels@.len() - i,
    {
        let level = cell_levels[i];
        let symbol = characters.substring_char(level, level + 1);
        proof {
            assert(symbol@ =~= seq![characters@[level as int]]);
        }
        values.push(String::from_str(symbol));
        i = i + 1;
    }
    let text = values_to_text(values.as_slice(), columns);
    ConvertResult { columns, rows, values, text }
}


/// The best resolution is an eighth of the image width, clamped to
/// 64..=180 columns: `min(180, max(64, width / 8))`. An image between 512
/// and 1447 pixels wide gets exactly `width / 8` columns.
pub proof fn law_best_resolution_clamps_eighth(width: u32)
    ensures
        64 <= best_resolution_spec(width) <= 180,
        (width as int) < 512 ==> best_resolution_spec(width) == 64,
        512 <= (width as int) < 1448 ==> best_resolution_spec(width) as int == (width as int) / 8,
        (width as int) >= 1448 ==> best_resolution_spec(width) == 180,
{
}

/// The grid is as wide as asked, but never narrower than 8 columns: any
/// request of at least 8 columns is kept unchanged.
pub proof fn law_grid_columns_keeps_request(requested: u32)
    ensures
        grid_columns_spec(requested) >= 8,
        grid_columns_spec(requested) >= requested,
        requested >= 8 ==> grid_columns_spec(requested) == requested,
        requested < 8 ==> grid_columns_spec(requested) == 8,
{
}

} // verus!
