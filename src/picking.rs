//! Colour-coded hit testing: every element is drawn into an offscreen
//! buffer in a colour that encodes its id, and the pixel under the pointer
//! names the element that was hit.
use vstd::prelude::*;
use crate::drag::clamp_i32;
use crate::fields::tdiv;

verus! {

/// Ids that a pixel colour can encode: three bytes.
pub const MAX_PICK_ID: usize = 0xff_ffff;

/// The id a pixel encodes: its red, green and blue bytes read as one
/// big-endian number.
pub open spec fn decoded(px: [u8; 4]) -> int {
    px[0] as int * 65536 + px[1] as int * 256 + px[2] as int
}

/// The element a pixel of the offscreen buffer names; zero, the background,
/// names none.
pub fn pick_id(px: [u8; 4]) -> (r: Option<usize>)
    ensures
        r == (if decoded(px) == 0 { None } else { Some(decoded(px) as usize) }),
{
    let id: usize = px[0] as usize * 65536 + px[1] as usize * 256 + px[2] as usize;
    if id == 0 {
        None
    } else {
        Some(id)
    }
}

/// The opaque colour that encodes `id`.
pub fn pick_color(id: usize) -> (px: [u8; 4])
    requires
        id <= MAX_PICK_ID,
    ensures
        decoded(px) == id,
        px[3] == 255,
{
    let r = (id / 65536) as u8;
    let g = ((id / 256) % 256) as u8;
    let b = (id % 256) as u8;
    proof {
        let i = id as int;
        assert(i == (i / 65536) * 65536 + ((i / 256) % 256) * 256 + i % 256) by (nonlinear_arith)
            requires 0 <= i;
        assert(i / 65536 < 256) by (nonlinear_arith) requires 0 <= i <= 0xff_ffff;
    }
    [r, g, b, 255]
}

/// Decoding the colour of an id gives the id back; only id 0 reads as the
/// background.
pub proof fn lemma_pick_round_trip(id: usize)
    requires
        id <= MAX_PICK_ID,
    ensures
        decoded(pick_color_spec(id)) == id,
        (decoded(pick_color_spec(id)) == 0) == (id == 0),
{
    let i = id as int;
    assert(i == (i / 65536) * 65536 + ((i / 256) % 256) * 256 + i % 256) by (nonlinear_arith)
        requires 0 <= i;
    assert(i / 65536 < 256) by (nonlinear_arith) requires 0 <= i <= 0xff_ffff;
    assert(0 <= (i / 256) % 256 < 256) by (nonlinear_arith) requires 0 <= i;
    assert(0 <= i % 256 < 256) by (nonlinear_arith) requires 0 <= i;
}

/// A pointer coordinate in client pixels scaled to canvas pixels, rounded
/// toward zero and saturated to `i32`.
pub fn canvas_pixel(v: i32, canvas: u32, client: u32) -> (r: i32)
    requires
        client > 0,
    ensures
        r as int == clamp_i32(tdiv(v as int * canvas as int, client as int)),
{
    proof {
        assert(-0x1_0000_0000_0000_0000 <= v as int * canvas as int <= 0x1_0000_0000_0000_0000) by (nonlinear_arith)
            requires -0x8000_0000 <= v <= 0x7fff_ffff, 0 <= canvas <= 0xffff_ffff;
    }
    let p: i128 = v as i128 * canvas as i128;
    let q: i128 = if p >= 0 { p / client as i128 } else { -((-p) / client as i128) };
    proof {
        if p >= 0 {
            crate::fields::lemma_fraction_bounded(p as int, 1, client as int);
        } else {
            crate::fields::lemma_fraction_bounded(-p, 1, client as int);
        }
    }
    if q < i32::MIN as i128 {
        i32::MIN
    } else if q > i32::MAX as i128 {
        i32::MAX
    } else {
        q as i32
    }
}

/// A browser's vertical coordinate, which grows downward, as a canvas
/// coordinate, which grows upward from the bottom edge.
pub fn flip_y(height: i32, y: i32) -> (r: i32)
    ensures
        r as int == clamp_i32(height - y),
{
    let d: i64 = height as i64 - y as i64;
    if d < i32::MIN as i64 {
        i32::MIN
    } else if d > i32::MAX as i64 {
        i32::MAX
    } else {
        d as i32
    }
}

/// An offscreen colour buffer of `width` by `height` pixels, row by row
/// from the bottom.
pub struct PickBuffer {
    pub width: usize,
    pub height: usize,
    pub pixels: Vec<[u8; 4]>,
}

/// Pixel `(x, y)` lies in the rectangle at `(rx, ry)` of size `w` by `h`.
pub open spec fn inside(x: int, y: int, rx: int, ry: int, w: int, h: int) -> bool {
    rx <= x < rx + w && ry <= y < ry + h
}

impl PickBuffer {
    pub open spec fn wf(&self) -> bool {
        self.pixels@.len() == self.width * self.height
    }

    /// The colour of pixel `(x, y)`.
    pub open spec fn at(&self, x: int, y: int) -> [u8; 4] {
        self.pixels@[y * self.width + x]
    }

    /// A buffer cleared to the background.
    pub fn new(width: usize, height: usize) -> (b: PickBuffer)
        requires
            width * height <= usize::MAX,
        ensures
            b.wf(),
            b.width == width,
            b.height == height,
            forall|i: int| 0 <= i < b.pixels@.len() ==> #[trigger] b.pixels@[i] == [0u8, 0u8, 0u8, 0u8],
    {
        let n = width * height;
        let mut pixels: Vec<[u8; 4]> = Vec::new();
        let mut i: usize = 0;
        while i < n
            invariant
                i <= n,
                pixels@.len() == i,
                forall|j: int| 0 <= j < i ==> #[trigger] pixels@[j] == [0u8, 0u8, 0u8, 0u8],
            decreases n - i,
        {
            pixels.push([0, 0, 0, 0]);
            i = i + 1;
        }
        PickBuffer { width, height, pixels }
    }

    /// Draws the silhouette of element `id`, the rectangle at `(x, y)` of
    /// size `w` by `h`, clipped to the buffer, in the colour of `id`.
    pub fn fill_rect(&mut self, id: usize, x: i32, y: i32, w: i32, h: i32)
        requires
            old(self).wf(),
            id <= MAX_PICK_ID,
        ensures
            final(self).wf(),
            final(self).width == old(self).width,
            final(self).height == old(self).height,
            forall|px: int, py: int| 0 <= px < old(self).width && 0 <= py < old(self).height ==>
                #[trigger] final(self).at(px, py) == if inside(px, py, x as int, y as int, w as int, h as int) {
                    pick_color_spec(id)
                } else {
                    old(self).at(px, py)
                },
    {
        let color = pick_color(id);
        proof {
            assert(color == pick_color_spec(id)) by {
                lemma_pick_color_unique(id, color);
            }
        }
        let ghost p0 = self.pixels@;
        let total = self.pixels.len();
        let wd = self.width;
        let ht = self.height;
        let x0: i128 = if (x as i128) < 0 { 0 } else { x as i128 };
        let y0: i128 = if (y as i128) < 0 { 0 } else { y as i128 };
        let x1: i128 = if x as i128 + w as i128 > wd as i128 { wd as i128 } else { x as i128 + w as i128 };
        let y1: i128 = if y as i128 + h as i128 > ht as i128 { ht as i128 } else { y as i128 + h as i128 };
        if x0 >= x1 || y0 >= y1 {
            proof {
                assert forall|px: int, py: int| 0 <= px < wd && 0 <= py < ht implies
                    !inside(px, py, x as int, y as int, w as int, h as int) by {
                    if inside(px, py, x as int, y as int, w as int, h as int) {
                        assert(x0 <= px < x1);
                        assert(y0 <= py < y1);
                    }
                }
            }
            return;
        }
        let mut row: usize = y0 as usize;
        while row < y1 as usize
            invariant
                self.width == wd,
                self.height == ht,
                self.pixels@.len() == wd * ht,
                total == wd * ht,
                0 <= x0 < x1 <= wd,
                0 <= y0 < y1 <= ht,
                y0 <= row <= y1,
                x0 == (if (x as int) < 0 { 0 } else { x as int }),
                y0 == (if (y as int) < 0 { 0 } else { y as int }),
                x1 == (if x as int + w as int > wd { wd as int } else { x as int + w as int }),
                y1 == (if y as int + h as int > ht { ht as int } else { y as int + h as int }),
                p0.len() == wd * ht,
                forall|px: int, py: int| 0 <= px < wd && 0 <= py < ht ==>
                    #[trigger] self.pixels@[py * wd + px] == if inside(px, py, x as int, y as int, w as int, h as int) && py < row {
                        color
                    } else {
                        p0[py * wd + px]
                    },
            decreases y1 - row,
        {
            let mut col: usize = x0 as usize;
            while col < x1 as usize
                invariant
                    self.width == wd,
                    self.height == ht,
                    self.pixels@.len() == wd * ht,
                    total == wd * ht,
                    0 <= x0 < x1 <= wd,
                    0 <= y0 <= row < y1 <= ht,
                    x0 <= col <= x1,
                    x0 == (if (x as int) < 0 { 0 } else { x as int }),
                    y0 == (if (y as int) < 0 { 0 } else { y as int }),
                    x1 == (if x as int + w as int > wd { wd as int } else { x as int + w as int }),
                    y1 == (if y as int + h as int > ht { ht as int } else { y as int + h as int }),
                    p0.len() == wd * ht,
                    forall|px: int, py: int| 0 <= px < wd && 0 <= py < ht ==>
                        #[trigger] self.pixels@[py * wd + px] == if inside(px, py, x as int, y as int, w as int, h as int)
                            && (py < row || (py == row && px < col)) {
                            color
                        } else {
                            p0[py * wd + px]
                        },
                decreases x1 - col,
            {
                proof {
                    lemma_cell_in_range(col as int, row as int, wd as int, ht as int);
                    assert(row as int * wd as int <= row as int * wd as int + col as int);
                }
                let idx = row * wd + col;
                self.pixels.set(idx, color);
                proof {
                    assert forall|px: int, py: int| 0 <= px < wd && 0 <= py < ht implies
                        #[trigger] self.pixels@[py * wd + px] == if inside(px, py, x as int, y as int, w as int, h as int)
                            && (py < row || (py == row && px < col + 1)) {
                            color
                        } else {
                            p0[py * wd + px]
                        } by {
                        lemma_cell_in_range(px, py, wd as int, ht as int);
                        if py * wd + px == idx as int {
                            lemma_cell_unique(px, py, col as int, row as int, wd as int);
                        }
                    }
                }
                col = col + 1;
            }
            row = row + 1;
        }
    }

    /// The element whose silhouette covers pixel `(x, y)`, if any.
    pub fn sample(&self, x: i32, y: i32) -> (r: Option<usize>)
        requires
            self.wf(),
        ensures
            (0 <= x < self.width && 0 <= y < self.height) ==> r == (if decoded(self.at(x as int, y as int)) == 0 {
                None
            } else {
                Some(decoded(self.at(x as int, y as int)) as usize)
            }),
            !(0 <= x < self.width && 0 <= y < self.height) ==> r.is_none(),
    {
        if x < 0 || y < 0 || x as usize >= self.width || y as usize >= self.height {
            return None;
        }
        let total = self.pixels.len();
        proof {
            lemma_cell_in_range(x as int, y as int, self.width as int, self.height as int);
        }
        pick_id(self.pixels[y as usize * self.width + x as usize])
    }
}

/// The opaque colour that encodes `id`.
pub open spec fn pick_color_spec(id: usize) -> [u8; 4] {
    [(id / 65536) as u8, ((id / 256) % 256) as u8, (id % 256) as u8, 255u8]
}

proof fn lemma_pick_color_unique(id: usize, px: [u8; 4])
    requires
        id <= MAX_PICK_ID,
        decoded(px) == id,
        px[3] == 255,
    ensures
        px == pick_color_spec(id),
{
    let a = px[0] as int;
    let b = px[1] as int;
    let c = px[2] as int;
    let i = id as int;
    assert(i == a * 65536 + b * 256 + c);
    assert(a == i / 65536 && b == (i / 256) % 256 && c == i % 256) by (nonlinear_arith)
        requires i == a * 65536 + b * 256 + c, 0 <= a < 256, 0 <= b < 256, 0 <= c < 256;
    assert(px@ =~= pick_color_spec(id)@);
}

proof fn lemma_cell_in_range(x: int, y: int, w: int, h: int)
    requires
        0 <= x < w,
        0 <= y < h,
    ensures
        0 <= y * w + x < w * h,
{
    assert(0 <= y * w + x < w * h) by (nonlinear_arith)
        requires 0 <= x < w, 0 <= y < h;
}

proof fn lemma_cell_unique(x1: int, y1: int, x2: int, y2: int, w: int)
    requires
        0 <= x1 < w,
        0 <= x2 < w,
        0 <= y1,
        0 <= y2,
        y1 * w + x1 == y2 * w + x2,
    ensures
        x1 == x2 && y1 == y2,
{
    assert(x1 == x2 && y1 == y2) by (nonlinear_arith)
        requires 0 <= x1 < w, 0 <= x2 < w, 0 <= y1, 0 <= y2, y1 * w + x1 == y2 * w + x2;
}

} // verus!
