//! Colour mapping and rasterisation of a finished maze: one palette
//! colour per path id, the origin path in white, walls in black, and a
//! PNG encoding of the blown-up cell matrix.

use vstd::prelude::*;
use crate::maze::{Grid, CellType, in_bounds, ids_ok, lemma_row_major, rng_next, spec_randab, MAX_SIZE};

verus! {

/// A plain 8-bit RGB triple.
#[derive(Clone, Copy, Debug, PartialEq, Eq, Structural)]
pub struct Rgb {
    pub r: u8,
    pub g: u8,
    pub b: u8,
}

/// The palette of colours drawn for the paths of a finished maze.
#[derive(Clone, Copy, Debug, PartialEq, Eq, Structural)]
pub enum Color {
    Lime,
    Pacific,
    Purple,
    Stonewall,
    Zinger,
    Pumpkin,
    Tareum,
    Candy,
    Passion,
    Rower,
    Uruguayans,
    Pool,
    Ariel,
    Knickers,
    Hotpink,
    Warmth,
    Wasabi,
    Yogi,
    Poison,
    Lipstick,
    Bordello,
    Turquoise,
    Crayola,
}

/// How many palette colours there are.
pub const PALETTE_SIZE: usize = 23;

/// The RGB value of each palette colour.
pub open spec fn spec_color_rgb(c: Color) -> Rgb {
    match c {
        Color::Lime => Rgb { r: 118, g: 210, b: 0 },
        Color::Pacific => Rgb { r: 23, g: 174, b: 166 },
        Color::Purple => Rgb { r: 131, g: 21, b: 104 },
        Color::Stonewall => Rgb { r: 221, g: 33, b: 13 },
        Color::Zinger => Rgb { r: 191, g: 238, b: 74 },
        Color::Pumpkin => Rgb { r: 231, g: 126, b: 62 },
        Color::Tareum => Rgb { r: 95, g: 84, b: 142 },
        Color::Candy => Rgb { r: 248, g: 160, b: 152 },
        Color::Passion => Rgb { r: 192, g: 31, b: 49 },
        Color::Rower => Rgb { r: 11, g: 76, b: 134 },
        Color::Uruguayans => Rgb { r: 126, g: 12, b: 93 },
        Color::Pool => Rgb { r: 98, g: 234, b: 200 },
        Color::Ariel => Rgb { r: 38, g: 143, b: 171 },
        Color::Knickers => Rgb { r: 247, g: 93, b: 108 },
        Color::Hotpink => Rgb { r: 194, g: 33, b: 132 },
        Color::Warmth => Rgb { r: 254, g: 139, b: 54 },
        Color::Wasabi => Rgb { r: 132, g: 226, b: 49 },
        Color::Yogi => Rgb { r: 248, g: 84, b: 17 },
        Color::Poison => Rgb { r: 194, g: 26, b: 3 },
        Color::Lipstick => Rgb { r: 182, g: 33, b: 69 },
        Color::Bordello => Rgb { r: 219, g: 73, b: 138 },
        Color::Turquoise => Rgb { r: 17, g: 182, b: 223 },
        Color::Crayola => Rgb { r: 24, g: 148, b: 196 },
    }
}

/// The palette colour at `i`, in declaration order.
pub open spec fn spec_color_of_index(i: int) -> Color {
    if i == 0 { Color::Lime } else if i == 1 { Color::Pacific } else if i == 2 { Color::Purple }
    else if i == 3 { Color::Stonewall } else if i == 4 { Color::Zinger }
    else if i == 5 { Color::Pumpkin } else if i == 6 { Color::Tareum }
    else if i == 7 { Color::Candy } else if i == 8 { Color::Passion }
    else if i == 9 { Color::Rower } else if i == 10 { Color::Uruguayans }
    else if i == 11 { Color::Pool } else if i == 12 { Color::Ariel }
    else if i == 13 { Color::Knickers } else if i == 14 { Color::Hotpink }
    else if i == 15 { Color::Warmth } else if i == 16 { Color::Wasabi }
    else if i == 17 { Color::Yogi } else if i == 18 { Color::Poison }
    else if i == 19 { Color::Lipstick } else if i == 20 { Color::Bordello }
    else if i == 21 { Color::Turquoise } else { Color::Crayola }
}

impl Color {
    /// The RGB value of this palette colour.
    pub fn to_rgb(&self) -> (r: Rgb)
        ensures
            r == spec_color_rgb(*self),
    {
        match *self {
            Color::Lime => Rgb { r: 118, g: 210, b: 0 },
            Color::Pacific => Rgb { r: 23, g: 174, b: 166 },
            Color::Purple => Rgb { r: 131, g: 21, b: 104 },
            Color::Stonewall => Rgb { r: 221, g: 33, b: 13 },
            Color::Zinger => Rgb { r: 191, g: 238, b: 74 },
            Color::Pumpkin => Rgb { r: 231, g: 126, b: 62 },
            Color::Tareum => Rgb { r: 95, g: 84, b: 142 },
            Color::Candy => Rgb { r: 248, g: 160, b: 152 },
            Color::Passion => Rgb { r: 192, g: 31, b: 49 },
            Color::Rower => Rgb { r: 11, g: 76, b: 134 },
            Color::Uruguayans => Rgb { r: 126, g: 12, b: 93 },
            Color::Pool => Rgb { r: 98, g: 234, b: 200 },
            Color::Ariel => Rgb { r: 38, g: 143, b: 171 },
            Color::Knickers => Rgb { r: 247, g: 93, b: 108 },
            Color::Hotpink => Rgb { r: 194, g: 33, b: 132 },
            Color::Warmth => Rgb { r: 254, g: 139, b: 54 },
            Color::Wasabi => Rgb { r: 132, g: 226, b: 49 },
            Color::Yogi => Rgb { r: 248, g: 84, b: 17 },
            Color::Poison => Rgb { r: 194, g: 26, b: 3 },
            Color::Lipstick => Rgb { r: 182, g: 33, b: 69 },
            Color::Bordello => Rgb { r: 219, g: 73, b: 138 },
            Color::Turquoise => Rgb { r: 17, g: 182, b: 223 },
            Color::Crayola => Rgb { r: 24, g: 148, b: 196 },
        }
    }

    /// The palette colour at `i`, in declaration order.
    pub fn from_index(i: usize) -> (r: Color)
        requires
            i < PALETTE_SIZE,
        ensures
            r == spec_color_of_index(i as int),
    {
        match i {
            0 => Color::Lime,
            1 => Color::Pacific,
            2 => Color::Purple,
            3 => Color::Stonewall,
            4 => Color::Zinger,
            5 => Color::Pumpkin,
            6 => Color::Tareum,
            7 => Color::Candy,
            8 => Color::Passion,
            9 => Color::Rower,
            10 => Color::Uruguayans,
            11 => Color::Pool,
            12 => Color::Ariel,
            13 => Color::Knickers,
            14 => Color::Hotpink,
            15 => Color::Warmth,
            16 => Color::Wasabi,
            17 => Color::Yogi,
            18 => Color::Poison,
            19 => Color::Lipstick,
            20 => Color::Bordello,
            21 => Color::Turquoise,
            _ => Color::Crayola,
        }
    }
}

/// The colour of one rendered cell: white for the origin path, black for
/// a wall, a palette colour for every other path.
#[derive(Clone, Copy, Debug, PartialEq, Eq, Structural)]
pub enum CellColor {
    White,
    Black,
    C(Color),
}

/// The RGB value of a cell colour.
pub open spec fn spec_cell_color_rgb(c: CellColor) -> Rgb {
    match c {
        CellColor::White => Rgb { r: 253, g: 251, b: 249 },
        CellColor::Black => Rgb { r: 17, g: 41, b: 58 },
        CellColor::C(x) => spec_color_rgb(x),
    }
}

impl CellColor {
    /// The RGB value of this cell colour.
    pub fn to_rgb(&self) -> (r: Rgb)
        ensures
            r == spec_cell_color_rgb(*self),
    {
        match *self {
            CellColor::White => Rgb { r: 253, g: 251, b: 249 },
            CellColor::Black => Rgb { r: 17, g: 41, b: 58 },
            CellColor::C(x) => x.to_rgb(),
        }
    }
}

/// The generator state after `k` draws.
pub open spec fn rng_iter(s: u64, k: nat) -> u64
    decreases k,
{
    if k == 0 {
        s
    } else {
        rng_next(rng_iter(s, (k - 1) as nat))
    }
}

/// The palette drawn for `n` paths from generator state `s`: the colour
/// of path id `i + 1` is the `i`-th draw.
pub open spec fn palette(s: u64, n: nat) -> Seq<Color> {
    Seq::new(n, |i: int| spec_color_of_index(spec_randab(rng_iter(s, i as nat), 0, PALETTE_SIZE as int)))
}

/// The colour a finished grid's cell is rendered with.
pub open spec fn spec_grid_color(g: Grid, d: (usize, usize)) -> CellColor {
    match g.cell_at(d) {
        CellType::Wall => CellColor::Black,
        CellType::Path(n) => if n == 0 {
            CellColor::White
        } else {
            CellColor::C(palette(g.spec_rng(), g.spec_npath())[n - 1])
        },
    }
}

/// The colour matrix of a finished maze, row-major like the grid.
pub struct ColoredGrid {
    pub cells: Vec<CellColor>,
    pub size: usize,
}

impl ColoredGrid {
    pub open spec fn wf(self) -> bool {
        &&& 2 <= self.size <= MAX_SIZE
        &&& self.cells@.len() == self.size * self.size
    }

    /// The colour of the cell at `(x, y)`.
    pub open spec fn color_at(self, x: int, y: int) -> CellColor {
        self.cells@[x * self.size + y]
    }

    /// Colours a finished grid: walls black, the origin path white, and
    /// every other path id its drawn palette colour.
    pub fn from_grid(g: Grid) -> (r: ColoredGrid)
        requires
            g.wf(),
            ids_ok(g),
        ensures
            r.wf(),
            r.size == g.size,
            forall|d: (usize, usize)| in_bounds(d, g.spec_size())
                ==> #[trigger] r.color_at(d.0 as int, d.1 as int) == spec_grid_color(g, d),
    {
        let mut cv: Vec<Color> = Vec::with_capacity(g.npath);
        let mut rng: u64 = g.rng;
        let mut i: usize = 0;
        while i < g.npath
            invariant
                i <= g.npath,
                rng == rng_iter(g.spec_rng(), i as nat),
                cv@.len() == i,
                forall|k: int| 0 <= k < i ==> cv@[k] == palette(g.spec_rng(), g.spec_npath())[k],
            decreases g.npath - i,
        {
            let idx = Grid::randab(&mut rng, 0, PALETTE_SIZE);
            let c = Color::from_index(idx);
            cv.push(c);
            i = i + 1;
        }
        let size = g.size;
        proof {
            assert(size * size <= MAX_SIZE * MAX_SIZE) by (nonlinear_arith)
                requires size <= MAX_SIZE;
        }
        let mut cells: Vec<CellColor> = Vec::with_capacity(size * size);
        let mut x: usize = 0;
        while x < size
            invariant
                x <= size,
                g.wf(),
                ids_ok(g),
                size == g.size,
                cv@.len() == g.npath,
                forall|k: int| 0 <= k < g.npath ==> cv@[k] == palette(g.spec_rng(), g.spec_npath())[k],
                cells@.len() == x * size,
                forall|d: (usize, usize)| in_bounds(d, g.spec_size()) && d.0 < x
                    ==> cells@[d.0 * (size as int) + d.1] == spec_grid_color(g, d),
            decreases size - x,
        {
            let mut y: usize = 0;
            while y < size
                invariant
                    x < size,
                    y <= size,
                    g.wf(),
                    ids_ok(g),
                    size == g.size,
                    cv@.len() == g.npath,
                    forall|k: int| 0 <= k < g.npath ==> cv@[k] == palette(g.spec_rng(), g.spec_npath())[k],
                    cells@.len() == x * size + y,
                    forall|d: (usize, usize)| in_bounds(d, g.spec_size())
                        && (d.0 < x || (d.0 == x && d.1 < y))
                        ==> cells@[d.0 * (size as int) + d.1] == spec_grid_color(g, d),
                decreases size - y,
            {
                proof {
                    lemma_row_major(x as int, y as int, size as int);
                }
                let cc = match g.cell((x, y)) {
                    CellType::Wall => CellColor::Black,
                    CellType::Path(n) => {
                        if n == 0 {
                            CellColor::White
                        } else {
                            proof {
                                assert(g.cell_at((x, y)) matches CellType::Path(id) ==> id < g.npath);
                                assert(n < g.npath);
                                assert(cv@[n - 1] == palette(g.spec_rng(), g.spec_npath())[n - 1]);
                            }
                            CellColor::C(cv[n - 1])
                        }
                    },
                };
                proof {
                    assert(cc == spec_grid_color(g, (x, y)));
                }
                cells.push(cc);
                proof {
                    assert forall|d: (usize, usize)| in_bounds(d, g.spec_size())
                        && (d.0 < x || (d.0 == x && d.1 < y + 1))
                        implies cells@[d.0 * (size as int) + d.1] == spec_grid_color(g, d) by {
                        lemma_row_major(d.0 as int, d.1 as int, size as int);
                        if d == (x, y) {
                            assert(cells@[x * (size as int) + y] == cc);
                        } else {
                            assert(d.0 != x || d.1 != y);
                            assert(d.0 * (size as int) + d.1 < x * (size as int) + y)
                                by (nonlinear_arith)
                                requires
                                    d.1 < size,
                                    d.0 < x || (d.0 == x && d.1 < y),
                                    d.0 != x || d.1 != y;
                        }
                    }
                }
                y = y + 1;
            }
            proof {
                assert((x + 1) * size == x * size + size) by (nonlinear_arith);
            }
            x = x + 1;
        }
        ColoredGrid { cells, size }
    }
}

/// The side of the square pixel block that one grid cell becomes.
pub const SQUARE_SIZE: usize = 10;

/// One byte of the rendered image: pixels row-major, three bytes per
/// pixel, each pixel showing the colour of the grid cell it falls into.
pub open spec fn pixel_byte(cg: ColoredGrid, square: int, i: int) -> u8 {
    let w = cg.size * square;
    let p = i / 3;
    let k = i % 3;
    let px = p % w;
    let py = p / w;
    let rgb = spec_cell_color_rgb(cg.color_at(px / square, py / square));
    if k == 0 {
        rgb.r
    } else if k == 1 {
        rgb.g
    } else {
        rgb.b
    }
}

/// The full RGB byte buffer of the rendered image.
pub open spec fn pixels_spec(cg: ColoredGrid, square: int) -> Seq<u8> {
    Seq::new((3 * cg.size * square * cg.size * square) as nat, |i: int| pixel_byte(cg, square, i))
}

/// What the PNG encoder produces for an RGB byte buffer of the given
/// dimensions; the encoding is a function of its arguments alone.
pub uninterp spec fn png_of(pixels: Seq<u8>, width: int, height: int) -> Seq<u8>;

/// Relies on image's `PngEncoder::write_image`: encodes an 8-bit RGB
/// buffer as PNG bytes. The required length match keeps its buffer-size
/// assertion from firing, and with nonzero dimensions, the Rgb8 colour
/// type and an in-memory sink the encoder has no remaining failure path,
/// so the call always succeeds.
#[verifier::external_body]
fn encode_png(pixels: &Vec<u8>, width: u32, height: u32) -> (r: Option<Vec<u8>>)
    requires
        pixels@.len() == 3 * width * height,
        0 < width,
        0 < height,
    ensures
        r is Some,
        r is Some ==> r->Some_0@ == png_of(pixels@, width as int, height as int),
{
    let mut out: Vec<u8> = Vec::new();
    let encoder = image::codecs::png::PngEncoder::new(&mut out);
    let result = image::ImageEncoder::write_image(
        encoder, pixels.as_slice(), width, height, image::ExtendedColorType::Rgb8);
    match result {
        Ok(()) => Some(out),
        Err(_) => None,
    }
}

impl ColoredGrid {
    /// The raw RGB bytes of the rendered image: each cell a
    /// `square`-by-`square` block of its colour.
    pub fn render_pixels(&self, square: usize) -> (r: Vec<u8>)
        requires
            self.wf(),
            1 <= square,
            self.size * square <= 10000,
        ensures
            r@ == pixels_spec(*self, square as int),
    {
        let w = self.size * square;
        proof {
            assert(w * w <= 10000 * 10000) by (nonlinear_arith)
                requires w <= 10000;
        }
        let mut buf: Vec<u8> = Vec::with_capacity(3 * (w * w));
        let mut py: usize = 0;
        while py < w
            invariant
                self.wf(),
                1 <= square,
                w == self.size * square,
                w <= 10000,
                py <= w,
                buf@.len() == 3 * (py * w),
                forall|i: int| 0 <= i < buf@.len()
                    ==> buf@[i] == pixel_byte(*self, square as int, i),
            decreases w - py,
        {
            let mut px: usize = 0;
            while px < w
                invariant
                    self.wf(),
                    1 <= square,
                    w == self.size * square,
                    w <= 10000,
                    py < w,
                    px <= w,
                    buf@.len() == 3 * (py * w + px),
                    forall|i: int| 0 <= i < buf@.len()
                        ==> buf@[i] == pixel_byte(*self, square as int, i),
                decreases w - px,
            {
                let cx = px / square;
                let cy = py / square;
                proof {
                    assert(px / square < self.size && py / square < self.size)
                        by (nonlinear_arith)
                        requires px < self.size * square, py < self.size * square, 1 <= square;
                    lemma_row_major(cx as int, cy as int, self.size as int);
                    assert(self.size * self.size <= MAX_SIZE * MAX_SIZE) by (nonlinear_arith)
                        requires self.size <= MAX_SIZE;
                }
                let cc = self.cells[cx * self.size + cy];
                let rgb = cc.to_rgb();
                let ghost len0 = buf@.len() as int;
                buf.push(rgb.r);
                buf.push(rgb.g);
                buf.push(rgb.b);
                proof {
                    let p = (py * w + px) as int;
                    vstd::arithmetic::div_mod::lemma_fundamental_div_mod_converse(
                        p, w as int, py as int, px as int);
                    assert forall|i: int| len0 <= i < buf@.len()
                        implies buf@[i] == pixel_byte(*self, square as int, i) by {
                        vstd::arithmetic::div_mod::lemma_fundamental_div_mod_converse(
                            i, 3, p, i - len0);
                        assert(i / 3 == p && i % 3 == i - len0);
                        assert(buf@[len0] == rgb.r && buf@[len0 + 1] == rgb.g && buf@[len0 + 2] == rgb.b);
                    }
                }
                px = px + 1;
            }
            proof {
                assert(3 * (py * w + w) == 3 * ((py + 1) * w)) by (nonlinear_arith);
            }
            py = py + 1;
        }
        proof {
            assert(3 * (w * w) == 3 * self.size * (square as int) * self.size * (square as int))
                by (nonlinear_arith)
                requires w == self.size * square;
            assert(buf@ =~= pixels_spec(*self, square as int));
        }
        buf
    }

    /// Rasterises the maze in ten-pixel blocks and encodes it as a PNG
    /// byte stream.
    pub fn render_png(&self) -> (r: Option<Vec<u8>>)
        requires
            self.wf(),
            self.size <= 1000,
        ensures
            r is Some,
            r is Some ==> r->Some_0@ == png_of(
                pixels_spec(*self, SQUARE_SIZE as int),
                (self.size * SQUARE_SIZE) as int,
                (self.size * SQUARE_SIZE) as int,
            ),
    {
        let pixels = self.render_pixels(SQUARE_SIZE);
        let w = self.size * SQUARE_SIZE;
        proof {
            assert(3 * self.size * (SQUARE_SIZE as int) * self.size * (SQUARE_SIZE as int)
                == 3 * (w * w)) by (nonlinear_arith)
                requires w == self.size * SQUARE_SIZE;
            assert(w <= 10000);
            assert((w as u32) as int == w as int);
            assert(pixels@.len() == 3 * (w as int) * (w as int)) by (nonlinear_arith)
                requires
                    pixels@.len() == (3 * self.size * (SQUARE_SIZE as int) * self.size
                        * (SQUARE_SIZE as int)) as nat,
                    w == self.size * SQUARE_SIZE;
        }
        match encode_png(&pixels, w as u32, w as u32) {
            Some(bytes) => Some(bytes),
            None => None,
        }
    }
}

} // verus!
