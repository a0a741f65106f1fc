//! Grayscale pixel grids and the heavy scan over them: one brightness
//! histogram per region of a coarse grid, and the brightness total of every
//! cell of the fine ASCII grid.
use vstd::arithmetic::div_mod::{
    lemma_div_is_ordered, lemma_div_multiples_vanish, lemma_div_plus_one,
    lemma_fundamental_div_mod_converse,
};
use crate::histogram::{cumulative, level_sum, total_count};
use vstd::prelude::*;

verus! {

/// What a grayscale image holds: its size and its pixels in row-major order.
pub struct LumaView {
    pub width: nat,
    pub height: nat,
    pub pixels: Seq<u8>,
}

impl LumaView {
    /// The brightness at column `x` of row `y`.
    pub open spec fn at(self, x: int, y: int) -> u8 {
        self.pixels[y * self.width + x]
    }
}

/// A grayscale (8-bit luma) image, stored row by row.
pub struct LumaImage {
    width: u32,
    height: u32,
    pixels: Vec<u8>,
}

impl View for LumaImage {
    type V = LumaView;

    closed spec fn view(&self) -> LumaView {
        LumaView { width: self.width as nat, height: self.height as nat, pixels: self.pixels@ }
    }
}

/// Start of part `i` when `extent` is cut into `parts` parts.
pub open spec fn span_start(extent: int, parts: int, i: int) -> int {
    extent * i / parts
}

/// End (exclusive) of part `i`: the start of the next part, but at least one
/// past the start and never beyond `extent`.
pub open spec fn span_end(extent: int, parts: int, i: int) -> int {
    let start = span_start(extent, parts, i);
    let next = extent * (i + 1) / parts;
    let end = if next < start + 1 { start + 1 } else { next };
    if end > extent { extent } else { end }
}

/// Number of pixels of row `y`, columns `x0..x1`, whose brightness is `level`.
pub open spec fn row_level_count(g: LumaView, y: int, x0: int, x1: int, level: u8) -> nat
    decreases x1 - x0,
{
    if x1 <= x0 {
        0
    } else {
        row_level_count(g, y, x0, x1 - 1, level) + if g.at(x1 - 1, y) == level { 1nat } else { 0nat }
    }
}

/// Number of pixels of the rectangle `x0..x1` by `y0..y1` whose brightness is `level`.
pub open spec fn rect_level_count(g: LumaView, x0: int, x1: int, y0: int, y1: int, level: u8) -> nat
    decreases y1 - y0,
{
    if y1 <= y0 {
        0
    } else {
        rect_level_count(g, x0, x1, y0, y1 - 1, level) + row_level_count(g, y1 - 1, x0, x1, level)
    }
}

/// Sum of the brightness of row `y`, columns `x0..x1`.
pub open spec fn row_sum(g: LumaView, y: int, x0: int, x1: int) -> nat
    decreases x1 - x0,
{
    if x1 <= x0 {
        0
    } else {
        row_sum(g, y, x0, x1 - 1) + g.at(x1 - 1, y) as nat
    }
}

/// Sum of the brightness of the rectangle `x0..x1` by `y0..y1`.
pub open spec fn rect_sum(g: LumaView, x0: int, x1: int, y0: int, y1: int) -> nat
    decreases y1 - y0,
{
    if y1 <= y0 {
        0
    } else {
        rect_sum(g, x0, x1, y0, y1 - 1) + row_sum(g, y1 - 1, x0, x1)
    }
}

/// The histogram of region `index` of a `tiles_x` by `tiles_y` grid laid
/// over the image. Region column `c` covers the columns from
/// `span_start(width, tiles_x, c)` up to the start of the next region
/// column, so the regions cut the image without gaps or overlaps (a region
/// is empty when there are more regions than pixels along an axis).
pub open spec fn region_histogram_spec(g: LumaView, tiles_x: int, tiles_y: int, index: int) -> Seq<nat> {
    let col = index % tiles_x;
    let row = index / tiles_x;
    Seq::new(
        256,
        |level: int|
            rect_level_count(
                g,
                span_start(g.width as int, tiles_x, col),
                span_start(g.width as int, tiles_x, col + 1),
                span_start(g.height as int, tiles_y, row),
                span_start(g.height as int, tiles_y, row + 1),
                level as u8,
            ),
    )
}

/// Number of pixels in region `index` of a `tiles_x` by `tiles_y` grid.
pub open spec fn region_area(g: LumaView, tiles_x: int, tiles_y: int, index: int) -> int {
    let col = index % tiles_x;
    let row = index / tiles_x;
    (span_start(g.width as int, tiles_x, col + 1) - span_start(g.width as int, tiles_x, col)) * (
    span_start(g.height as int, tiles_y, row + 1) - span_start(g.height as int, tiles_y, row))
}

/// Whether every region of the grid has at most `u32::MAX` pixels, so that
/// its counts fit in a `u32` histogram.
pub open spec fn regions_fit_u32(g: LumaView, tiles_x: int, tiles_y: int) -> bool {
    forall|i: int| 0 <= i < tiles_x * tiles_y ==> #[trigger] region_area(g, tiles_x, tiles_y, i) <= u32::MAX
}

/// Whether a histogram array holds exactly the counts of `expected`.
pub open spec fn histogram_matches(h: [u32; 256], expected: Seq<nat>) -> bool {
    expected.len() == 256 && forall|level: int| 0 <= level < 256 ==> h@[level] == expected[level]
}

/// Brightness total of one cell of the ASCII grid.
#[derive(Clone, Copy)]
pub struct CellTotal {
    /// Sum of the brightness of the cell's pixels.
    pub sum: u64,
    /// Number of pixels in the cell.
    pub count: u64,
}

/// The total of cell `index` of a `columns` by `rows` grid laid over the image.
pub open spec fn cell_total_spec(g: LumaView, columns: int, rows: int, index: int) -> (nat, nat) {
    let col = index % columns;
    let row = index / columns;
    let x0 = span_start(g.width as int, columns, col);
    let x1 = span_end(g.width as int, columns, col);
    let y0 = span_start(g.height as int, rows, row);
    let y1 = span_end(g.height as int, rows, row);
    (rect_sum(g, x0, x1, y0, y1), ((x1 - x0) * (y1 - y0)) as nat)
}

/// Whether every cell's brightness sum fits in a `u64` whatever its pixels
/// hold: 255 times the cell's pixel count is at most `u64::MAX`.
pub open spec fn cells_fit_u64(g: LumaView, columns: int, rows: int) -> bool {
    forall|i: int|
        0 <= i < columns * rows ==> 255 * #[trigger] cell_total_spec(g, columns, rows, i).1
            <= u64::MAX
}

/// Result of the heavy pass over the pixels.
pub struct PixelScan {
    /// One histogram per region, row-major over the region grid.
    pub region_histograms: Vec<[u32; 256]>,
    /// One brightness total per cell, row-major over the ASCII grid.
    pub cell_totals: Vec<CellTotal>,
}

proof fn lemma_span_bounds(extent: int, parts: int, i: int)
    requires
        0 <= extent,
        0 < parts,
        0 <= i < parts,
    ensures
        0 <= span_start(extent, parts, i) <= span_end(extent, parts, i) <= extent,
        extent > 0 ==> span_start(extent, parts, i) < span_end(extent, parts, i),
{
    assert(0 <= extent * i <= extent * (parts - 1)) by (nonlinear_arith)
        requires
            0 <= extent,
            0 <= i < parts,
    ;
    assert(extent * (parts - 1) < extent * parts || extent == 0) by (nonlinear_arith)
        requires
            0 <= extent,
            0 < parts,
    ;
    lemma_div_is_ordered(extent * i, extent * parts, parts);
    lemma_div_multiples_vanish(extent, parts);
    assert(extent * parts == parts * extent) by (nonlinear_arith);
    assert(0 <= extent * i / parts) by (nonlinear_arith)
        requires
            0 <= extent * i,
            0 < parts,
    ;
    if extent > 0 {
        lemma_div_is_ordered(extent * i, extent * (parts - 1), parts);
        assert(extent * (parts - 1) / parts < extent) by (nonlinear_arith)
            requires
                0 < extent,
                0 < parts,
        ;
    }
}

proof fn lemma_pixel_index(width: int, height: int, x: int, y: int)
    requires
        0 <= x < width,
        0 <= y < height,
    ensures
        0 <= y * width + x < width * height,
{
    assert(0 <= y * width + x < width * height) by (nonlinear_arith)
        requires
            0 <= x < width,
            0 <= y < height,
    ;
}

proof fn lemma_grid_index(index: int, columns: int, rows: int)
    requires
        0 <= index < columns * rows,
        0 <= columns,
        0 <= rows,
    ensures
        0 < columns,
        0 < rows,
        0 <= index % columns < columns,
        0 <= index / columns < rows,
{
    assert(0 < columns && 0 < rows) by (nonlinear_arith)
        requires
            0 <= index < columns * rows,
            0 <= columns,
            0 <= rows,
    ;
    assert(0 <= index / columns < rows) by (nonlinear_arith)
        requires
            0 <= index < columns * rows,
            0 < columns,
    ;
}

impl LumaImage {
    #[verifier::type_invariant]
    closed spec fn pixels_fill_grid(&self) -> bool {
        self.pixels@.len() == self.width as int * self.height as int
    }

    /// An image of the given size from its pixels in row-major order; `None`
    /// when the number of pixels is not `width * height`.
    pub fn new(width: u32, height: u32, pixels: Vec<u8>) -> (r: Option<LumaImage>)
        ensures
            match r {
                Some(img) => pixels@.len() == width as int * height as int && img@ == LumaView {
                    width: width as nat,
                    height: height as nat,
                    pixels: pixels@,
                },
                None => pixels@.len() != width as int * height as int,
            },
    {
        proof {
            assert((width as int) * (height as int) <= u32::MAX * u32::MAX) by (nonlinear_arith);
        }
        if (width as u64) * (height as u64) == pixels.len() as u64 {
            Some(LumaImage { width, height, pixels })
        } else {
            None
        }
    }

    /// An image of the given size from exactly `width * height` pixels.
    pub(crate) fn from_pixels(width: u32, height: u32, pixels: Vec<u8>) -> (r: LumaImage)
        requires
            pixels@.len() == width * height,
        ensures
            r@ == (LumaView { width: width as nat, height: height as nat, pixels: pixels@ }),
    {
        LumaImage { width, height, pixels }
    }

    pub fn width(&self) -> (r: u32)
        ensures
            r == self@.width,
    {
        self.width
    }

    pub fn height(&self) -> (r: u32)
        ensures
            r == self@.height,
    {
        self.height
    }

    /// The image's pixels, row by row.
    pub fn pixels(&self) -> (r: &Vec<u8>)
        ensures
            r@ == self@.pixels,
            r@.len() == self@.width * self@.height,
    {
        proof {
            use_type_invariant(self);
        }
        &self.pixels
    }

    fn at(&self, x: u32, y: u32) -> (r: u8)
        requires
            x < self@.width,
            y < self@.height,
        ensures
            r == self@.at(x as int, y as int),
    {
        proof {
            use_type_invariant(self);
            lemma_pixel_index(self.width as int, self.height as int, x as int, y as int);
        }
        let n = self.pixels.len();
        proof {
            assert((y as int) * (self.width as int) + (x as int) < n);
            assert(0 <= (y as int) * (self.width as int)) by (nonlinear_arith);
        }
        self.pixels[(y as usize) * (self.width as usize) + (x as usize)]
    }
}

/// Part `i` of `extent` cut into `parts` parts, as `(start, end)`.
pub fn span_bounds(extent: u32, parts: u32, i: u32) -> (r: (u32, u32))
    requires
        i < parts,
    ensures
        r.0 == span_start(extent as int, parts as int, i as int),
        r.1 == span_end(extent as int, parts as int, i as int),
        r.0 <= r.1 <= extent,
{
    proof {
        lemma_span_bounds(extent as int, parts as int, i as int);
        assert((extent as u64) * (i as u64) <= (extent as u64) * (parts as u64)) by (nonlinear_arith)
            requires
                i < parts,
        ;
        assert((extent as int) * (parts as int) <= u32::MAX * u32::MAX) by (nonlinear_arith);
        assert((extent as int) * (i as int + 1) <= (extent as int) * (parts as int)) by (nonlinear_arith)
            requires
                i < parts,
        ;
        assert((extent as int) * (i as int) <= (extent as int) * (parts as int)) by (nonlinear_arith)
            requires
                i < parts,
        ;
    }
    let start = ((extent as u64) * (i as u64) / (parts as u64)) as u32;
    let next = (extent as u64) * (i as u64 + 1) / (parts as u64);
    let end = if next < start as u64 + 1 {
        start as u64 + 1
    } else {
        next
    };
    let end = if end > extent as u64 {
        extent
    } else {
        end as u32
    };
    (start, end)
}

proof fn lemma_part_bounds(extent: int, parts: int, i: int)
    requires
        0 <= extent,
        0 < parts,
        0 <= i < parts,
    ensures
        0 <= span_start(extent, parts, i) <= span_start(extent, parts, i + 1) <= extent,
{
    lemma_span_start_monotone(extent, parts, 0, i);
    lemma_span_start_monotone(extent, parts, i, i + 1);
    lemma_span_start_monotone(extent, parts, i + 1, parts);
    lemma_span_ends(extent, parts);
}

/// Region part `i` of `extent` cut into `parts` parts, as `(start, end)`:
/// from its start up to the start of the next part.
pub fn part_bounds(extent: u32, parts: u32, i: u32) -> (r: (u32, u32))
    requires
        i < parts,
    ensures
        r.0 == span_start(extent as int, parts as int, i as int),
        r.1 == span_start(extent as int, parts as int, i + 1),
        r.0 <= r.1 <= extent,
{
    proof {
        lemma_part_bounds(extent as int, parts as int, i as int);
        assert((extent as int) * (parts as int) <= u32::MAX * u32::MAX) by (nonlinear_arith);
        assert((extent as int) * (i as int + 1) <= (extent as int) * (parts as int)) by (nonlinear_arith)
            requires
                i < parts,
        ;
        assert((extent as int) * (i as int) <= (extent as int) * (parts as int)) by (nonlinear_arith)
            requires
                i < parts,
        ;
    }
    let start = ((extent as u64) * (i as u64) / (parts as u64)) as u32;
    let end = ((extent as u64) * (i as u64 + 1) / (parts as u64)) as u32;
    (start, end)
}

/// Brightness histogram of region `index` of the `tiles_x` by `tiles_y` grid.
pub fn region_histogram(luma: &LumaImage, tiles_x: u32, tiles_y: u32, index: u32) -> (r: [u32; 256])
    requires
        index < tiles_x as int * tiles_y as int,
        region_area(luma@, tiles_x as int, tiles_y as int, index as int) <= u32::MAX,
    ensures
        histogram_matches(r, region_histogram_spec(luma@, tiles_x as int, tiles_y as int, index as int)),
{
    proof {
        lemma_grid_index(index as int, tiles_x as int, tiles_y as int);
    }
    let col = index % tiles_x;
    let row = index / tiles_x;
    let (x0, x1) = part_bounds(luma.width(), tiles_x, col);
    let (y0, y1) = part_bounds(luma.height(), tiles_y, row);
    let ghost g = luma@;
    let mut histogram = [0u32; 256];
    let mut y = y0;
    while y < y1
        invariant
            g == luma@,
            y0 <= y <= y1 <= g.height,
            x0 <= x1 <= g.width,
            (x1 - x0) * (y1 - y0) <= u32::MAX,
            forall|level: int|
                0 <= level < 256 ==> #[trigger] histogram@[level] == rect_level_count(
                    g,
                    x0 as int,
                    x1 as int,
                    y0 as int,
                    y as int,
                    level as u8,
                ),
            forall|level: int|
                0 <= level < 256 ==> #[trigger] histogram@[level] <= (x1 - x0) * (y - y0),
        decreases y1 - y,
    {
        let mut x = x0;
        while x < x1
            invariant
                g == luma@,
                y0 <= y < y1 <= g.height,
                x0 <= x <= x1 <= g.width,
                (x1 - x0) * (y1 - y0) <= u32::MAX,
                forall|level: int|
                    0 <= level < 256 ==> #[trigger] histogram@[level] == rect_level_count(
                        g,
                        x0 as int,
                        x1 as int,
                        y0 as int,
                        y as int,
                        level as u8,
                    ) + row_level_count(g, y as int, x0 as int, x as int, level as u8),
                forall|level: int|
                    0 <= level < 256 ==> #[trigger] histogram@[level] <= (x1 - x0) * (y - y0) + (x
                        - x0),
            decreases x1 - x,
        {
            let p = luma.at(x, y);
            proof {
                assert((x1 - x0) * (y - y0) + (x - x0) < (x1 - x0) * (y1 - y0)) by (nonlinear_arith)
                    requires
                        x0 <= x < x1 <= g.width,
                        y0 <= y < y1 <= g.height,
                ;
            }
            histogram[p as usize] = histogram[p as usize] + 1;
            proof {
                assert forall|level: int| 0 <= level < 256 implies #[trigger] histogram@[level]
                    == rect_level_count(g, x0 as int, x1 as int, y0 as int, y as int, level as u8)
                    + row_level_count(g, y as int, x0 as int, x + 1, level as u8) by {
                    assert(row_level_count(g, y as int, x0 as int, x + 1, level as u8)
                        == row_level_count(g, y as int, x0 as int, x as int, level as u8) + if g.at(
                        x as int,
                        y as int,
                    ) == level as u8 {
                        1nat
                    } else {
                        0nat
                    });
                }
            }
            x = x + 1;
        }
        proof {
            assert((x1 - x0) * (y - y0) + (x1 - x0) == (x1 - x0) * (y + 1 - y0)) by (nonlinear_arith);
        }
        y = y + 1;
    }
    histogram
}

/// Brightness histogram of every region of the `tiles_x` by `tiles_y` grid,
/// row-major.
pub fn compute_region_histograms(luma: &LumaImage, tiles_x: u32, tiles_y: u32) -> (r: Vec<
    [u32; 256],
>)
    requires
        tiles_x as int * tiles_y as int <= u32::MAX,
        regions_fit_u32(luma@, tiles_x as int, tiles_y as int),
    ensures
        r@.len() == tiles_x as int * tiles_y as int,
        forall|i: int|
            0 <= i < r@.len() ==> histogram_matches(
                #[trigger] r@[i],
                region_histogram_spec(luma@, tiles_x as int, tiles_y as int, i),
            ),
{
    proof {
        assert(tiles_y as int * tiles_x as int == tiles_x as int * tiles_y as int) by (nonlinear_arith);
    }
    let total = tiles_y * tiles_x;
    let mut histograms: Vec<[u32; 256]> = Vec::new();
    let mut index: u32 = 0;
    while index < total
        invariant
            total == tiles_x as int * tiles_y as int,
            regions_fit_u32(luma@, tiles_x as int, tiles_y as int),
            index <= total,
            histograms@.len() == index,
            forall|i: int|
                0 <= i < index ==> histogram_matches(
                    #[trigger] histograms@[i],
                    region_histogram_spec(luma@, tiles_x as int, tiles_y as int, i),
                ),
        decreases total - index,
    {
        proof {
            assert(region_area(luma@, tiles_x as int, tiles_y as int, index as int) <= u32::MAX);
        }
        let h = region_histogram(luma, tiles_x, tiles_y, index);
        histograms.push(h);
        index = index + 1;
    }
    histograms
}

/// Brightness total of cell `index` of the `columns` by `rows` ASCII grid.
pub fn cell_total(luma: &LumaImage, columns: u32, rows: u32, index: u32) -> (r: CellTotal)
    requires
        index < columns as int * rows as int,
        255 * cell_total_spec(luma@, columns as int, rows as int, index as int).1 <= u64::MAX,
    ensures
        (r.sum as nat, r.count as nat) == cell_total_spec(
            luma@,
            columns as int,
            rows as int,
            index as int,
        ),
{
    proof {
        lemma_grid_index(index as int, columns as int, rows as int);
    }
    let col = index % columns;
    let row = index / columns;
    let (x0, x1) = span_bounds(luma.width(), columns, col);
    let (y0, y1) = span_bounds(luma.height(), rows, row);
    let ghost g = luma@;
    let mut sum: u64 = 0;
    let mut count: u64 = 0;
    let mut y = y0;
    while y < y1
        invariant
            g == luma@,
            y0 <= y <= y1 <= g.height,
            x0 <= x1 <= g.width,
            sum == rect_sum(g, x0 as int, x1 as int, y0 as int, y as int),
            255 * ((x1 - x0) * (y1 - y0)) <= u64::MAX,
            sum <= 255 * ((x1 - x0) * (y - y0)),
            count == (x1 - x0) * (y - y0),
        decreases y1 - y,
    {
        let mut x = x0;
        while x < x1
            invariant
                g == luma@,
                y0 <= y < y1 <= g.height,
                x0 <= x <= x1 <= g.width,
                sum == rect_sum(g, x0 as int, x1 as int, y0 as int, y as int) + row_sum(
                    g,
                    y as int,
                    x0 as int,
                    x as int,
                ),
                255 * ((x1 - x0) * (y1 - y0)) <= u64::MAX,
                sum <= 255 * ((x1 - x0) * (y - y0) + (x - x0)),
                count == (x1 - x0) * (y - y0) + (x - x0),
            decreases x1 - x,
        {
            let p = luma.at(x, y);
            proof {
                assert((x1 - x0) * (y - y0) + (x - x0) < (x1 - x0) * (y1 - y0)) by (nonlinear_arith)
                    requires
                        x0 <= x < x1 <= g.width,
                        y0 <= y < y1 <= g.height,
                ;
            }
            sum = sum + p as u64;
            count = count + 1;
            x = x + 1;
        }
        proof {
            assert((x1 - x0) * (y - y0) + (x1 - x0) == (x1 - x0) * (y + 1 - y0)) by (nonlinear_arith);

        }
        y = y + 1;
    }
    CellTotal { sum, count }
}

/// Brightness total of every cell of the `columns` by `rows` ASCII grid,
/// row-major.
pub fn compute_cell_totals(luma: &LumaImage, columns: u32, rows: u32) -> (r: Vec<CellTotal>)
    requires
        columns as int * rows as int <= u32::MAX,
        cells_fit_u64(luma@, columns as int, rows as int),
    ensures
        r@.len() == columns as int * rows as int,
        forall|i: int|
            0 <= i < r@.len() ==> ((#[trigger] r@[i]).sum as nat, r@[i].count as nat)
                == cell_total_spec(luma@, columns as int, rows as int, i),
{
    proof {
        assert(rows as int * columns as int == columns as int * rows as int) by (nonlinear_arith);
    }
    let total = rows * columns;
    let mut totals: Vec<CellTotal> = Vec::new();
    let mut index: u32 = 0;
    while index < total
        invariant
            total == columns as int * rows as int,
            cells_fit_u64(luma@, columns as int, rows as int),
            index <= total,
            totals@.len() == index,
            forall|i: int|
                0 <= i < index ==> ((#[trigger] totals@[i]).sum as nat, totals@[i].count as nat)
                    == cell_total_spec(luma@, columns as int, rows as int, i),
        decreases total - index,
    {
        proof {
            assert(255 * cell_total_spec(luma@, columns as int, rows as int, index as int).1
                <= u64::MAX);
        }
        let t = cell_total(luma, columns, rows, index);
        totals.push(t);
        index = index + 1;
    }
    totals
}

/// The heavy pass over the pixels: region histograms for the adaptive
/// normalisation and cell totals for the ASCII grid.
pub fn scan_pixels_cpu(luma: &LumaImage, columns: u32, rows: u32, tiles_x: u32, tiles_y: u32) -> (r:
    PixelScan)
    requires
        tiles_x as int * tiles_y as int <= u32::MAX,
        columns as int * rows as int <= u32::MAX,
        regions_fit_u32(luma@, tiles_x as int, tiles_y as int),
        cells_fit_u64(luma@, columns as int, rows as int),
    ensures
        r.region_histograms@.len() == tiles_x as int * tiles_y as int,
        forall|i: int|
            0 <= i < r.region_histograms@.len() ==> histogram_matches(
                #[trigger] r.region_histograms@[i],
                region_histogram_spec(luma@, tiles_x as int, tiles_y as int, i),
            ),
        r.cell_totals@.len() == columns as int * rows as int,
        forall|i: int|
            0 <= i < r.cell_totals@.len() ==> ((#[trigger] r.cell_totals@[i]).sum as nat,
            r.cell_totals@[i].count as nat) == cell_total_spec(
                luma@,
                columns as int,
                rows as int,
                i,
            ),
{
    PixelScan {
        region_histograms: compute_region_histograms(luma, tiles_x, tiles_y),
        cell_totals: compute_cell_totals(luma, columns, rows),
    }
}

proof fn lemma_span_start_monotone(extent: int, parts: int, i: int, j: int)
    requires
        0 <= extent,
        0 < parts,
        0 <= i <= j,
    ensures
        span_start(extent, parts, i) <= span_start(extent, parts, j),
{
    assert(extent * i <= extent * j) by (nonlinear_arith)
        requires
            0 <= extent,
            0 <= i <= j,
    ;
    lemma_div_is_ordered(extent * i, extent * j, parts);
}

proof fn lemma_spans_cover(extent: int, parts: int, k: int, x: int)
    requires
        1 <= parts,
        0 <= extent,
        0 <= k <= parts,
        0 <= x < span_start(extent, parts, k),
    ensures
        exists|i: int|
            0 <= i < k && span_start(extent, parts, i) <= x < #[trigger] span_start(
                extent,
                parts,
                i + 1,
            ),
    decreases k,
{
    if k == 0 {
        assert(extent * 0 == 0);
        assert(span_start(extent, parts, 0) == 0);
    } else {
        if x < span_start(extent, parts, k - 1) {
            lemma_spans_cover(extent, parts, k - 1, x);
            let i = choose|i: int|
                0 <= i < k - 1 && span_start(extent, parts, i) <= x < #[trigger] span_start(
                    extent,
                    parts,
                    i + 1,
                );
            assert(0 <= i < k);
        } else {
            assert(span_start(extent, parts, k - 1) <= x < span_start(extent, parts, (k - 1) + 1));
        }
    }
}

/// Cut into any number of parts, each part running from its start up to
/// the start of the next, an axis is covered without gaps or overlaps:
/// every coordinate lies in exactly one part. The region grid cuts both
/// axes this way, so every pixel is counted in exactly one region
/// histogram.
pub proof fn law_spans_partition(extent: int, parts: int, x: int)
    requires
        1 <= parts,
        0 <= x < extent,
    ensures
        exists|i: int|
            0 <= i < parts && span_start(extent, parts, i) <= x < #[trigger] span_start(
                extent,
                parts,
                i + 1,
            ),
        forall|i: int, j: int|
            0 <= i < parts && 0 <= j < parts && span_start(extent, parts, i) <= x
                < #[trigger] span_start(extent, parts, i + 1) && span_start(extent, parts, j) <= x
                < #[trigger] span_start(extent, parts, j + 1) ==> i == j,
{
    lemma_span_ends(extent, parts);
    lemma_spans_cover(extent, parts, parts, x);
    assert forall|i: int, j: int|
        0 <= i < parts && 0 <= j < parts && span_start(extent, parts, i) <= x
            < #[trigger] span_start(extent, parts, i + 1) && span_start(extent, parts, j) <= x
            < #[trigger] span_start(extent, parts, j + 1) implies i == j by {
        if i < j {
            lemma_span_start_monotone(extent, parts, i + 1, j);
        } else if j < i {
            lemma_span_start_monotone(extent, parts, j + 1, i);
        }
    }
}

proof fn lemma_row_sum_bound(g: LumaView, y: int, x0: int, x1: int)
    requires
        x0 <= x1,
    ensures
        row_sum(g, y, x0, x1) <= 255 * (x1 - x0),
    decreases x1 - x0,
{
    if x0 < x1 {
        lemma_row_sum_bound(g, y, x0, x1 - 1);
    }
}

proof fn lemma_rect_sum_bound(g: LumaView, x0: int, x1: int, y0: int, y1: int)
    requires
        x0 <= x1,
        y0 <= y1,
    ensures
        rect_sum(g, x0, x1, y0, y1) <= 255 * ((x1 - x0) * (y1 - y0)),
    decreases y1 - y0,
{
    if y0 < y1 {
        lemma_rect_sum_bound(g, x0, x1, y0, y1 - 1);
        lemma_row_sum_bound(g, y1 - 1, x0, x1);
        assert((x1 - x0) * (y1 - 1 - y0) + (x1 - x0) == (x1 - x0) * (y1 - y0)) by (nonlinear_arith);
    }
}

/// Every cell of a non-empty image holds at least one pixel, and its
/// brightness total is at most 255 per pixel: the mean brightness of a cell
/// is defined and lies within 0..=255.
pub proof fn law_cell_mean_in_range(g: LumaView, columns: int, rows: int, index: int)
    requires
        g.width > 0,
        g.height > 0,
        0 <= index < columns * rows,
        0 <= columns,
        0 <= rows,
    ensures
        cell_total_spec(g, columns, rows, index).1 >= 1,
        cell_total_spec(g, columns, rows, index).0 <= 255 * cell_total_spec(g, columns, rows, index).1,
{
    lemma_grid_index(index, columns, rows);
    let col = index % columns;
    let row = index / columns;
    lemma_span_bounds(g.width as int, columns, col);
    lemma_span_bounds(g.height as int, rows, row);
    let x0 = span_start(g.width as int, columns, col);
    let x1 = span_end(g.width as int, columns, col);
    let y0 = span_start(g.height as int, rows, row);
    let y1 = span_end(g.height as int, rows, row);
    lemma_rect_sum_bound(g, x0, x1, y0, y1);
    assert((x1 - x0) * (y1 - y0) >= 1) by (nonlinear_arith)
        requires
            x0 < x1,
            y0 < y1,
    ;
}

/// Sum over regions `0..n` of their counts at `level`.
pub open spec fn regions_level_sum(g: LumaView, tiles_x: int, tiles_y: int, n: int, level: u8) -> nat
    decreases n,
{
    if n <= 0 {
        0
    } else {
        regions_level_sum(g, tiles_x, tiles_y, n - 1, level) + region_histogram_spec(
            g,
            tiles_x,
            tiles_y,
            n - 1,
        )[level as int]
    }
}

proof fn lemma_row_split(g: LumaView, y: int, a: int, b: int, c: int, level: u8)
    requires
        a <= b <= c,
    ensures
        row_level_count(g, y, a, c, level) == row_level_count(g, y, a, b, level) + row_level_count(
            g,
            y,
            b,
            c,
            level,
        ),
    decreases c - b,
{
    if b < c {
        lemma_row_split(g, y, a, b, c - 1, level);
    }
}

proof fn lemma_rect_split_x(g: LumaView, a: int, b: int, c: int, y0: int, y1: int, level: u8)
    requires
        a <= b <= c,
    ensures
        rect_level_count(g, a, c, y0, y1, level) == rect_level_count(g, a, b, y0, y1, level)
            + rect_level_count(g, b, c, y0, y1, level),
    decreases y1 - y0,
{
    if y0 < y1 {
        lemma_rect_split_x(g, a, b, c, y0, y1 - 1, level);
        lemma_row_split(g, y1 - 1, a, b, c, level);
    }
}

proof fn lemma_rect_split_y(g: LumaView, x0: int, x1: int, a: int, b: int, c: int, level: u8)
    requires
        a <= b <= c,
    ensures
        rect_level_count(g, x0, x1, a, c, level) == rect_level_count(g, x0, x1, a, b, level)
            + rect_level_count(g, x0, x1, b, c, level),
    decreases c - b,
{
    if b < c {
        lemma_rect_split_y(g, x0, x1, a, b, c - 1, level);
    }
}

proof fn lemma_rect_empty_x(g: LumaView, x: int, y0: int, y1: int, level: u8)
    ensures
        rect_level_count(g, x, x, y0, y1, level) == 0,
    decreases y1 - y0,
{
    if y0 < y1 {
        lemma_rect_empty_x(g, x, y0, y1 - 1, level);
    }
}

proof fn lemma_span_ends(extent: int, parts: int)
    requires
        1 <= parts,
        0 <= extent,
    ensures
        span_start(extent, parts, 0) == 0,
        span_start(extent, parts, parts) == extent,
{
    assert(extent * 0 == 0);
    lemma_div_multiples_vanish(extent, parts);
    assert(extent * parts == parts * extent) by (nonlinear_arith);
}

proof fn lemma_regions_prefix(g: LumaView, tiles_x: int, tiles_y: int, r: int, k: int, level: u8)
    requires
        1 <= tiles_x,
        1 <= tiles_y,
        0 <= r < tiles_y,
        0 <= k <= tiles_x,
    ensures
        regions_level_sum(g, tiles_x, tiles_y, r * tiles_x + k, level) == rect_level_count(
            g,
            0,
            g.width as int,
            0,
            span_start(g.height as int, tiles_y, r),
            level,
        ) + rect_level_count(
            g,
            0,
            span_start(g.width as int, tiles_x, k),
            span_start(g.height as int, tiles_y, r),
            span_start(g.height as int, tiles_y, r + 1),
            level,
        ),
    decreases r, k,
{
    let w = g.width as int;
    let h = g.height as int;
    lemma_span_ends(w, tiles_x);
    lemma_span_ends(h, tiles_y);
    if k == 0 {
        lemma_rect_empty_x(g, 0, span_start(h, tiles_y, r), span_start(h, tiles_y, r + 1), level);
        if r == 0 {
            assert(r * tiles_x + k == 0) by (nonlinear_arith)
                requires
                    r == 0,
                    k == 0,
            ;
            assert(span_start(h, tiles_y, r) == 0);
        } else {
            lemma_regions_prefix(g, tiles_x, tiles_y, r - 1, tiles_x, level);
            assert((r - 1) * tiles_x + tiles_x == r * tiles_x + k) by (nonlinear_arith)
                requires
                    k == 0,
            ;
            lemma_span_start_monotone(h, tiles_y, 0, r - 1);
            lemma_span_start_monotone(h, tiles_y, r - 1, r);
            assert((r - 1) + 1 == r);
            lemma_rect_split_y(
                g,
                0,
                w,
                0,
                span_start(h, tiles_y, r - 1),
                span_start(h, tiles_y, r),
                level,
            );
        }
    } else {
        lemma_regions_prefix(g, tiles_x, tiles_y, r, k - 1, level);
        let i = r * tiles_x + k - 1;
        assert(i == r * tiles_x + (k - 1));
        lemma_fundamental_div_mod_converse(i, tiles_x, r, k - 1);
        assert(0 <= i) by (nonlinear_arith)
            requires
                0 <= r,
                1 <= tiles_x,
                1 <= k,
                i == r * tiles_x + k - 1,
        ;
        assert(i % tiles_x == k - 1 && i / tiles_x == r);
        lemma_span_start_monotone(w, tiles_x, 0, k - 1);
        lemma_span_start_monotone(w, tiles_x, k - 1, k);
        lemma_rect_split_x(
            g,
            0,
            span_start(w, tiles_x, k - 1),
            span_start(w, tiles_x, k),
            span_start(h, tiles_y, r),
            span_start(h, tiles_y, r + 1),
            level,
        );
        assert(region_histogram_spec(g, tiles_x, tiles_y, i)[level as int] == rect_level_count(
            g,
            span_start(w, tiles_x, k - 1),
            span_start(w, tiles_x, (k - 1) + 1),
            span_start(h, tiles_y, r),
            span_start(h, tiles_y, r + 1),
            level,
        ));
    }
}

proof fn lemma_level_sum_regions(
    g: LumaView,
    tiles_x: int,
    tiles_y: int,
    hs: Seq<[u32; 256]>,
    n: int,
    level: u8,
)
    requires
        0 <= n <= hs.len(),
        forall|i: int|
            0 <= i < hs.len() ==> histogram_matches(
                #[trigger] hs[i],
                region_histogram_spec(g, tiles_x, tiles_y, i),
            ),
    ensures
        level_sum(hs, n, level as int) == regions_level_sum(g, tiles_x, tiles_y, n, level),
    decreases n,
{
    if n > 0 {
        lemma_level_sum_regions(g, tiles_x, tiles_y, hs, n - 1, level);
        assert(histogram_matches(hs[n - 1], region_histogram_spec(g, tiles_x, tiles_y, n - 1)));
    }
}

/// For any grid of at least one region per axis, the region histograms add
/// up to the histogram of the whole image: every pixel is counted in
/// exactly one region, so the global statistics can be taken from the sum
/// of the regional histograms without another pass over the pixels.
pub proof fn law_region_histograms_add_up_to_image(
    g: LumaView,
    tiles_x: int,
    tiles_y: int,
    hs: Seq<[u32; 256]>,
    level: u8,
)
    requires
        1 <= tiles_x,
        1 <= tiles_y,
        hs.len() == tiles_x * tiles_y,
        forall|i: int|
            0 <= i < hs.len() ==> histogram_matches(
                #[trigger] hs[i],
                region_histogram_spec(g, tiles_x, tiles_y, i),
            ),
    ensures
        level_sum(hs, hs.len() as int, level as int) == rect_level_count(
            g,
            0,
            g.width as int,
            0,
            g.height as int,
            level,
        ),
{
    let w = g.width as int;
    let h = g.height as int;
    lemma_level_sum_regions(g, tiles_x, tiles_y, hs, hs.len() as int, level);
    lemma_regions_prefix(g, tiles_x, tiles_y, tiles_y - 1, tiles_x, level);
    assert((tiles_y - 1) * tiles_x + tiles_x == tiles_x * tiles_y) by (nonlinear_arith);
    lemma_span_ends(w, tiles_x);
    lemma_span_ends(h, tiles_y);
    lemma_span_start_monotone(h, tiles_y, 0, tiles_y - 1);
    lemma_span_start_monotone(h, tiles_y, tiles_y - 1, tiles_y);
    assert((tiles_y - 1) + 1 == tiles_y);
    lemma_rect_split_y(g, 0, w, 0, span_start(h, tiles_y, tiles_y - 1), h, level);
}

/// Pixels of row `y`, columns `x0..x1`, counted over the levels below `n`.
pub open spec fn row_levels(g: LumaView, y: int, x0: int, x1: int, n: int) -> nat
    decreases n,
{
    if n <= 0 {
        0
    } else {
        row_levels(g, y, x0, x1, n - 1) + row_level_count(g, y, x0, x1, (n - 1) as u8)
    }
}

/// Pixels of a rectangle counted over the levels below `n`.
pub open spec fn rect_levels(g: LumaView, x0: int, x1: int, y0: int, y1: int, n: int) -> nat
    decreases n,
{
    if n <= 0 {
        0
    } else {
        rect_levels(g, x0, x1, y0, y1, n - 1) + rect_level_count(g, x0, x1, y0, y1, (n - 1) as u8)
    }
}

proof fn lemma_row_levels_step(g: LumaView, y: int, x0: int, x1: int, n: int)
    requires
        x0 < x1,
        0 <= n <= 256,
    ensures
        row_levels(g, y, x0, x1, n) == row_levels(g, y, x0, x1 - 1, n) + if (g.at(x1 - 1, y) as int)
            < n {
            1nat
        } else {
            0nat
        },
    decreases n,
{
    if n > 0 {
        lemma_row_levels_step(g, y, x0, x1, n - 1);
        assert(((n - 1) as u8) as int == n - 1);
    }
}

proof fn lemma_row_levels_all(g: LumaView, y: int, x0: int, x1: int)
    requires
        x0 <= x1,
    ensures
        row_levels(g, y, x0, x1, 256) == x1 - x0,
    decreases x1 - x0,
{
    if x0 < x1 {
        lemma_row_levels_all(g, y, x0, x1 - 1);
        lemma_row_levels_step(g, y, x0, x1, 256);
    } else {
        lemma_row_levels_empty(g, y, x0, x1, 256);
    }
}

proof fn lemma_row_levels_empty(g: LumaView, y: int, x0: int, x1: int, n: int)
    requires
        x1 <= x0,
    ensures
        row_levels(g, y, x0, x1, n) == 0,
    decreases n,
{
    if n > 0 {
        lemma_row_levels_empty(g, y, x0, x1, n - 1);
    }
}

proof fn lemma_rect_levels_step(g: LumaView, x0: int, x1: int, y0: int, y1: int, n: int)
    requires
        y0 < y1,
    ensures
        rect_levels(g, x0, x1, y0, y1, n) == rect_levels(g, x0, x1, y0, y1 - 1, n) + row_levels(
            g,
            y1 - 1,
            x0,
            x1,
            n,
        ),
    decreases n,
{
    if n > 0 {
        lemma_rect_levels_step(g, x0, x1, y0, y1, n - 1);
    }
}

proof fn lemma_rect_levels_all(g: LumaView, x0: int, x1: int, y0: int, y1: int)
    requires
        x0 <= x1,
        y0 <= y1,
    ensures
        rect_levels(g, x0, x1, y0, y1, 256) == (x1 - x0) * (y1 - y0),
    decreases y1 - y0,
{
    if y0 < y1 {
        lemma_rect_levels_all(g, x0, x1, y0, y1 - 1);
        lemma_rect_levels_step(g, x0, x1, y0, y1, 256);
        lemma_row_levels_all(g, y1 - 1, x0, x1);
        assert((x1 - x0) * (y1 - 1 - y0) + (x1 - x0) == (x1 - x0) * (y1 - y0)) by (nonlinear_arith);
    } else {
        lemma_rect_levels_empty(g, x0, x1, y0, y1, 256);
        assert((x1 - x0) * (y1 - y0) == 0) by (nonlinear_arith)
            requires
                y1 == y0,
        ;
    }
}

proof fn lemma_rect_levels_empty(g: LumaView, x0: int, x1: int, y0: int, y1: int, n: int)
    requires
        y1 <= y0,
    ensures
        rect_levels(g, x0, x1, y0, y1, n) == 0,
    decreases n,
{
    if n > 0 {
        lemma_rect_levels_empty(g, x0, x1, y0, y1, n - 1);
    }
}

proof fn lemma_merged_levels(
    g: LumaView,
    tiles_x: int,
    tiles_y: int,
    hs: Seq<[u32; 256]>,
    merged: Seq<u32>,
    n: int,
)
    requires
        1 <= tiles_x,
        1 <= tiles_y,
        hs.len() == tiles_x * tiles_y,
        forall|i: int|
            0 <= i < hs.len() ==> histogram_matches(
                #[trigger] hs[i],
                region_histogram_spec(g, tiles_x, tiles_y, i),
            ),
        merged.len() == 256,
        forall|level: int|
            0 <= level < 256 ==> #[trigger] merged[level] == level_sum(hs, hs.len() as int, level),
        0 <= n <= 256,
    ensures
        cumulative(merged, n) == rect_levels(g, 0, g.width as int, 0, g.height as int, n),
    decreases n,
{
    if n > 0 {
        lemma_merged_levels(g, tiles_x, tiles_y, hs, merged, n - 1);
        law_region_histograms_add_up_to_image(g, tiles_x, tiles_y, hs, (n - 1) as u8);
        assert(((n - 1) as u8) as int == n - 1);
    }
}

/// For any grid of at least one region per axis, the merged histogram of
/// the regions counts `width * height` pixels: each pixel once.
pub proof fn law_merged_histogram_counts_every_pixel(
    g: LumaView,
    tiles_x: int,
    tiles_y: int,
    hs: Seq<[u32; 256]>,
    merged: Seq<u32>,
)
    requires
        1 <= tiles_x,
        1 <= tiles_y,
        hs.len() == tiles_x * tiles_y,
        forall|i: int|
            0 <= i < hs.len() ==> histogram_matches(
                #[trigger] hs[i],
                region_histogram_spec(g, tiles_x, tiles_y, i),
            ),
        merged.len() == 256,
        forall|level: int|
            0 <= level < 256 ==> #[trigger] merged[level] == level_sum(hs, hs.len() as int, level),
    ensures
        total_count(merged) == g.width * g.height,
{
    lemma_merged_levels(g, tiles_x, tiles_y, hs, merged, 256);
    lemma_rect_levels_all(g, 0, g.width as int, 0, g.height as int);
}

} // verus!
