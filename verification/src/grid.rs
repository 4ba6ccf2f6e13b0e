//! The pixel grid and the plain value types that the carving engine works on.

use vstd::prelude::*;

verus! {

/// One pixel: three 8-bit color channels.
#[derive(Clone, Copy, PartialEq, Eq, Structural, Debug)]
pub struct Pixel {
    pub r: u8,
    pub g: u8,
    pub b: u8,
}

impl Pixel {
    pub fn new(r: u8, g: u8, b: u8) -> (p: Pixel)
        ensures
            p == (Pixel { r, g, b }),
    {
        Pixel { r, g, b }
    }
}

/// A (column, row) coordinate pair within a grid.
#[derive(Clone, Copy, PartialEq, Eq, Structural, Debug)]
pub struct Position(pub usize, pub usize);

/// Width of a grid given as a sequence of rows; 0 when there are no rows.
pub open spec fn grid_width(rows: Seq<Seq<Pixel>>) -> int {
    if rows.len() == 0 {
        0
    } else {
        rows[0].len() as int
    }
}

/// All rows have the same length: the sequence of rows is rectangular.
pub open spec fn rows_rect(rows: Seq<Seq<Pixel>>) -> bool {
    forall|r: int| 0 <= r < rows.len() ==> #[trigger] rows[r].len() == grid_width(rows)
}

/// A rectangular array of pixels, stored row-major in a flat vector.
///
/// Its mathematical view is the sequence of its rows, each row a sequence
/// of pixels, so `g@[r][c]` is the pixel at column `c` of row `r`.
#[derive(Debug)]
pub struct Grid {
    width: usize,
    height: usize,
    pixels: Vec<Pixel>,
}

impl View for Grid {
    type V = Seq<Seq<Pixel>>;

    closed spec fn view(&self) -> Seq<Seq<Pixel>> {
        Seq::new(
            self.height as nat,
            |r: int| Seq::new(self.width as nat, |c: int| self.pixels@[r * (self.width as int) + c]),
        )
    }
}

impl Grid {
    pub closed spec fn spec_width(self) -> int {
        self.width as int
    }

    pub closed spec fn spec_height(self) -> int {
        self.height as int
    }

    /// Well-formedness: the flat pixel vector holds exactly width × height
    /// entries, and both dimensions fit in 32 bits (as image dimensions do).
    pub closed spec fn wf(self) -> bool {
        &&& self.pixels@.len() == self.width * self.height
        &&& self.width <= 0xFFFF_FFFF
        &&& self.height <= 0xFFFF_FFFF
    }

    /// The view of a well-formed grid is rectangular, with one row per unit
    /// of height and one pixel per unit of width in each row.
    pub proof fn lemma_view_shape(self)
        requires
            self.wf(),
        ensures
            self@.len() == self.spec_height(),
            rows_rect(self@),
            forall|r: int| 0 <= r < self@.len() ==> #[trigger] self@[r].len() == self.spec_width(),
            self.spec_height() >= 1 ==> grid_width(self@) == self.spec_width(),
            self.spec_width() <= 0xFFFF_FFFF,
            self.spec_height() <= 0xFFFF_FFFF,
    {
        assert forall|r: int| 0 <= r < self@.len() implies #[trigger] self@[r].len()
            == self.spec_width() by {
            assert(self@[r] == Seq::new(
                self.width as nat,
                |c: int| self.pixels@[r * (self.width as int) + c],
            ));
        }
    }

    /// Builds a grid from its dimensions and a row-major pixel vector.
    ///
    /// Returns `None` when the vector's length does not match the
    /// dimensions or a dimension does not fit in 32 bits.
    pub fn new(width: usize, height: usize, pixels: Vec<Pixel>) -> (res: Option<Grid>)
        ensures
            match res {
                Some(g) => {
                    &&& g.wf()
                    &&& g.spec_width() == width
                    &&& g.spec_height() == height
                    &&& pixels@.len() == width * height
                    &&& forall|r: int, c: int|
                        0 <= r < height && 0 <= c < width ==> #[trigger] g@[r][c] == pixels@[r
                            * width + c]
                },
                None => !(pixels@.len() == width * height && width <= 0xFFFF_FFFF && height
                    <= 0xFFFF_FFFF),
            },
    {
        if width as u64 <= 0xFFFF_FFFF && height as u64 <= 0xFFFF_FFFF {
            proof {
                assert((width as int) * (height as int) <= 0xFFFF_FFFF * 0xFFFF_FFFF)
                    by (nonlinear_arith)
                    requires
                        0 <= (width as int) && (width as int) <= 0xFFFF_FFFF,
                        0 <= (height as int) && (height as int) <= 0xFFFF_FFFF,
                ;
            }
            if pixels.len() as u64 == (width as u64) * (height as u64) {
                let g = Grid { width, height, pixels };
                proof {
                    assert forall|r: int, c: int|
                        0 <= r < height && 0 <= c < width implies #[trigger] g@[r][c] == g.pixels@[r
                        * width + c] by {
                        assert(g@[r] == Seq::new(
                            g.width as nat,
                            |cc: int| g.pixels@[r * (g.width as int) + cc],
                        ));
                    }
                }
                Some(g)
            } else {
                None
            }
        } else {
            None
        }
    }

    /// Internal constructor for grids whose shape is already established.
    pub(crate) fn from_parts(width: usize, height: usize, pixels: Vec<Pixel>) -> (g: Grid)
        requires
            pixels@.len() == width * height,
            width <= 0xFFFF_FFFF,
            height <= 0xFFFF_FFFF,
        ensures
            g.wf(),
            g.spec_width() == width,
            g.spec_height() == height,
            forall|r: int, c: int|
                0 <= r < height && 0 <= c < width ==> #[trigger] g@[r][c] == pixels@[r * width
                    + c],
    {
        let g = Grid { width, height, pixels };
        proof {
            assert forall|r: int, c: int| 0 <= r < height && 0 <= c < width implies #[trigger] g@[r][c]
                == g.pixels@[r * width + c] by {
                assert(g@[r] == Seq::new(
                    g.width as nat,
                    |cc: int| g.pixels@[r * (g.width as int) + cc],
                ));
            }
        }
        g
    }

    pub fn width(&self) -> (w: usize)
        ensures
            w == self.spec_width(),
    {
        self.width
    }

    pub fn height(&self) -> (h: usize)
        ensures
            h == self.spec_height(),
    {
        self.height
    }

    /// The pixel at column `x` of row `y`.
    pub fn get_pixel(&self, x: usize, y: usize) -> (p: Pixel)
        requires
            self.wf(),
            x < self.spec_width(),
            y < self.spec_height(),
        ensures
            p == self@[y as int][x as int],
    {
        proof {
            assert(self.pixels.len() == self.width * self.height);
            assert((y as int) * (self.width as int) + (x as int) < (self.width as int) * (
            self.height as int)) by (nonlinear_arith)
                requires
                    0 <= (x as int) && (x as int) < (self.width as int),
                    0 <= (y as int) && (y as int) < (self.height as int),
            ;
            assert(self@[y as int] == Seq::new(
                self.width as nat,
                |c: int| self.pixels@[(y as int) * (self.width as int) + c],
            ));
        }
        self.pixels[y * self.width + x]
    }
}

} // verus!
