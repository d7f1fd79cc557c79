//! The mosaic: an image resized to the grid, each pixel replaced by the glyph
//! of the palette entry nearest to its colour.

use vstd::prelude::*;
use crate::palette::{
    fallback_glyph,
    lemma_empty_palette,
    lemma_single_entry,
    nearest_glyph,
    EntryView,
    Palette,
};
use crate::raster::{resizable, Raster, RasterView};

verus! {

/// The width of the grid unless the caller chooses another.
pub const DEFAULT_WIDTH: u32 = 40;

/// The height of the grid unless the caller chooses another.
pub const DEFAULT_HEIGHT: u32 = 40;

/// What a `Grid` stands for: its dimensions and its glyphs, row by row.
pub struct GridView {
    pub width: nat,
    pub height: nat,
    pub cells: Seq<Seq<Seq<char>>>,
}

impl GridView {
    /// There are `height` rows of `width` cells each.
    pub open spec fn wf(self) -> bool {
        &&& self.cells.len() == self.height
        &&& forall|y: int| 0 <= y < self.height ==> (#[trigger] self.cells[y]).len() == self.width
    }
}

/// The glyphs of row `y` of the mosaic of `image`, up to column `n`.
pub open spec fn mosaic_row(image: RasterView, palette: Seq<EntryView>, y: int, n: nat) -> Seq<
    Seq<char>,
> {
    Seq::new(n, |x: int| nearest_glyph(palette, image.color_at(x, y)))
}

/// The mosaic of `image`: as wide and as high as the image, and in each cell
/// the glyph that stands for the colour of the pixel there.
pub open spec fn mosaic(image: RasterView, palette: Seq<EntryView>) -> GridView {
    GridView {
        width: image.width,
        height: image.height,
        cells: Seq::new(image.height, |y: int| mosaic_row(image, palette, y, image.width)),
    }
}

/// A mosaic has the dimensions of its image.
pub proof fn lemma_mosaic_dimensions(image: RasterView, palette: Seq<EntryView>)
    ensures
        mosaic(image, palette).wf(),
        mosaic(image, palette).width == image.width,
        mosaic(image, palette).height == image.height,
{
}

/// With a palette of a single entry every cell of a mosaic holds that entry's
/// glyph, whatever the image.
pub proof fn lemma_mosaic_single_entry(image: RasterView, palette: Seq<EntryView>)
    requires
        palette.len() == 1,
    ensures
        forall|x: int, y: int|
            0 <= x < image.width && 0 <= y < image.height ==> #[trigger] mosaic(
                image,
                palette,
            ).cells[y][x] == palette[0].glyph,
{
    assert forall|x: int, y: int| 0 <= x < image.width && 0 <= y < image.height implies #[trigger] mosaic(
        image,
        palette,
    ).cells[y][x] == palette[0].glyph by {
        lemma_single_entry(palette, image.color_at(x, y));
    }
}

/// With an empty palette every cell of a mosaic holds the fallback glyph,
/// whatever the image.
pub proof fn lemma_mosaic_empty_palette(image: RasterView, palette: Seq<EntryView>)
    requires
        palette.len() == 0,
    ensures
        forall|x: int, y: int|
            0 <= x < image.width && 0 <= y < image.height ==> #[trigger] mosaic(
                image,
                palette,
            ).cells[y][x] == fallback_glyph(),
{
    assert forall|x: int, y: int| 0 <= x < image.width && 0 <= y < image.height implies #[trigger] mosaic(
        image,
        palette,
    ).cells[y][x] == fallback_glyph() by {
        lemma_empty_palette(palette, image.color_at(x, y));
    }
}

/// A finished mosaic: `height` rows of `width` glyphs.
pub struct Grid {
    width: u32,
    height: u32,
    rows: Vec<Vec<String>>,
}

impl View for Grid {
    type V = GridView;

    closed spec fn view(&self) -> GridView {
        GridView {
            width: self.width as nat,
            height: self.height as nat,
            cells: self.rows.deep_view(),
        }
    }
}

impl Grid {
    #[verifier::type_invariant]
    spec fn well_formed(&self) -> bool {
        self@.wf()
    }

    /// The number of columns of the grid.
    pub fn width(&self) -> (w: u32)
        ensures
            w == self@.width,
            self@.wf(),
    {
        proof {
            use_type_invariant(self);
        }
        self.width
    }

    /// The number of rows of the grid.
    pub fn height(&self) -> (h: u32)
        ensures
            h == self@.height,
            self@.wf(),
    {
        proof {
            use_type_invariant(self);
        }
        self.height
    }

    /// The rows of the grid, each a list of glyphs.
    pub fn rows(&self) -> (rows: &Vec<Vec<String>>)
        ensures
            rows.deep_view() == self@.cells,
            self@.wf(),
    {
        proof {
            use_type_invariant(self);
        }
        &self.rows
    }

    /// The glyph in column `x` of row `y`, if the grid has such a cell.
    pub fn cell(&self, x: u32, y: u32) -> (glyph: Option<&String>)
        ensures
            match glyph {
                Some(g) => x < self@.width && y < self@.height && g@ == self@.cells[y as int][x as int],
                None => x >= self@.width || y >= self@.height,
            },
    {
        proof {
            use_type_invariant(self);
        }
        if x < self.width && y < self.height {
            assert(self@.cells[y as int].len() == self@.width);
            Some(&self.rows[y as usize][x as usize])
        } else {
            None
        }
    }
}

/// The mosaic of an image that already has the dimensions of the grid: for
/// each pixel, row by row, the glyph of the palette entry nearest to its
/// colour, or the fallback glyph where the palette is empty.
pub fn render(image: &Raster, palette: &Palette) -> (grid: Grid)
    ensures
        grid@ == mosaic(image@, palette@),
        grid@.wf(),
{
    let width = image.width();
    let height = image.height();
    let mut rows: Vec<Vec<String>> = Vec::new();
    let mut y: u32 = 0;
    while y < height
        invariant
            y <= height,
            width == image@.width,
            height == image@.height,
            rows.deep_view() == mosaic(image@, palette@).cells.take(y as int),
        decreases height - y,
    {
        let mut row: Vec<String> = Vec::new();
        let mut x: u32 = 0;
        while x < width
            invariant
                x <= width,
                y < height,
                width == image@.width,
                height == image@.height,
                row.deep_view() == mosaic_row(image@, palette@, y as int, x as nat),
            decreases width - x,
        {
            let color = image.color_at(x, y);
            let glyph = palette.glyph_for(color);
            let ghost before = row.deep_view();
            row.push(glyph);
            assert(row.deep_view() =~= before.push(glyph@));
            x = x + 1;
        }
        let ghost before = rows.deep_view();
        let ghost cells = row.deep_view();
        rows.push(row);
        assert(rows.deep_view() =~= before.push(cells));
        y = y + 1;
    }
    assert(rows.deep_view() =~= mosaic(image@, palette@).cells);
    Grid { width, height, rows }
}

/// The mosaic of `image` on a grid of `width` by `height` cells: the image is
/// resized to exactly that many pixels, whatever its aspect ratio, and the
/// result is rendered with the palette.
///
/// The colours of the resized image are the resampling filter's, so the grid
/// is the mosaic of some image of the requested dimensions; where the source
/// already has them it is the mosaic of the source itself.
pub fn generate(image: &Raster, width: u32, height: u32, palette: &Palette) -> (grid: Grid)
    requires
        resizable(image@.width, image@.height, width as nat, height as nat),
    ensures
        grid@.wf(),
        grid@.width == width,
        grid@.height == height,
        exists|resized: RasterView|
            {
                &&& resized.wf()
                &&& resized.width == width
                &&& resized.height == height
                &&& width == image@.width && height == image@.height ==> resized == image@
                &&& grid@ == #[trigger] mosaic(resized, palette@)
            },
        palette@.len() == 0 ==> forall|x: int, y: int|
            0 <= x < width && 0 <= y < height ==> #[trigger] grid@.cells[y][x] == fallback_glyph(),
        palette@.len() == 1 ==> forall|x: int, y: int|
            0 <= x < width && 0 <= y < height ==> #[trigger] grid@.cells[y][x] == palette@[0].glyph,
{
    let resized = image.resize(width, height);
    let grid = render(&resized, palette);
    proof {
        if palette@.len() == 0 {
            lemma_mosaic_empty_palette(resized@, palette@);
        }
        if palette@.len() == 1 {
            lemma_mosaic_single_entry(resized@, palette@);
        }
    }
    grid
}

} // verus!
