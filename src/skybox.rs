use vstd::prelude::*;

use crate::color::packed_rgb;
use crate::framebuffer::{pixel_index, Framebuffer};

verus! {

/// A background image of `0xRRGGBB` pixels, stored row by row.
pub struct Skybox {
    pub width: usize,
    pub height: usize,
    pub pixels: Vec<u32>,
}

/// The image pixel that frame pixel `(x, y)` shows when an image of
/// `sw` by `sh` pixels is stretched over a frame of `fw` by `fh` pixels.
pub open spec fn source_index(sw: int, sh: int, fw: int, fh: int, x: int, y: int) -> int {
    pixel_index(sw, x * sw / fw, y * sh / fh)
}

impl Skybox {
    pub open spec fn wf(&self) -> bool {
        self.pixels@.len() == self.width * self.height
    }

    /// An image from 8-bit RGB bytes, three per pixel, row by row. `None` when
    /// the bytes do not hold exactly `width * height` pixels.
    pub fn from_rgb8(width: usize, height: usize, raw: &Vec<u8>) -> (r: Option<Skybox>)
        ensures
            r is Some <==> width * height <= usize::MAX && raw@.len() == 3 * (width * height),
            r matches Some(sky) ==> {
                &&& sky.wf()
                &&& sky.width == width && sky.height == height
                &&& forall|i: int|
                    0 <= i < width * height ==> #[trigger] sky.pixels@[i] == packed_rgb(
                        raw@[3 * i] as int,
                        raw@[3 * i + 1] as int,
                        raw@[3 * i + 2] as int,
                    )
            },
    {
        let n = match width.checked_mul(height) {
            Some(n) => n,
            None => return None,
        };
        proof {
            vstd::arithmetic::div_mod::lemma_fundamental_div_mod(raw@.len() as int, 3);
        }
        if raw.len() % 3 != 0 || raw.len() / 3 != n {
            return None;
        }
        let mut pixels: Vec<u32> = Vec::new();
        let mut i: usize = 0;
        let len = raw.len();
        while i < n
            invariant
                i <= n,
                len == raw@.len(),
                raw@.len() == 3 * n,
                pixels@.len() == i,
                forall|j: int|
                    0 <= j < i ==> #[trigger] pixels@[j] == packed_rgb(
                        raw@[3 * j] as int,
                        raw@[3 * j + 1] as int,
                        raw@[3 * j + 2] as int,
                    ),
            decreases n - i,
        {
            let (r, g, b) = (raw[3 * i], raw[3 * i + 1], raw[3 * i + 2]);
            pixels.push((r as u32) * 65536 + (g as u32) * 256 + (b as u32));
            i = i + 1;
        }
        Some(Skybox { width, height, pixels })
    }

    /// Stretches the image over the whole frame by nearest-pixel sampling,
    /// ignoring depth. An empty image leaves the frame as it is.
    pub fn draw(&self, framebuffer: &mut Framebuffer)
        requires
            self.wf(),
            old(framebuffer).wf(),
            old(framebuffer).width * self.width <= usize::MAX,
            old(framebuffer).height * self.height <= usize::MAX,
        ensures
            final(framebuffer).wf(),
            final(framebuffer).width == old(framebuffer).width,
            final(framebuffer).height == old(framebuffer).height,
            final(framebuffer).zbuffer@ == old(framebuffer).zbuffer@,
            final(framebuffer).background_color == old(framebuffer).background_color,
            final(framebuffer).current_color == old(framebuffer).current_color,
            self.pixels@.len() == 0 ==> final(framebuffer).buffer@ == old(framebuffer).buffer@,
            self.pixels@.len() > 0 ==> forall|x: int, y: int|
                0 <= x < old(framebuffer).width && 0 <= y < old(framebuffer).height
                    ==> #[trigger] final(framebuffer).buffer@[pixel_index(
                    old(framebuffer).width as int,
                    x,
                    y,
                )] == self.pixels@[source_index(
                    self.width as int,
                    self.height as int,
                    old(framebuffer).width as int,
                    old(framebuffer).height as int,
                    x,
                    y,
                )],
    {
        if self.pixels.len() == 0 {
            return;
        }
        proof {
            lemma_nonempty_grid(self.width as int, self.height as int);
        }
        let plen = self.pixels.len();
        let fw = framebuffer.width;
        let fh = framebuffer.height;
        let (sw, sh) = (self.width, self.height);
        let mut y: usize = 0;
        while y < fh
            invariant
                self.wf(),
                self.pixels@.len() > 0,
                sw == self.width && sh == self.height,
                sw > 0 && sh > 0,
                plen == self.pixels@.len(),
                framebuffer.wf(),
                fw == framebuffer.width && fh == framebuffer.height,
                fw == old(framebuffer).width && fh == old(framebuffer).height,
                fw * sw <= usize::MAX,
                fh * sh <= usize::MAX,
                framebuffer.zbuffer@ == old(framebuffer).zbuffer@,
                framebuffer.background_color == old(framebuffer).background_color,
                framebuffer.current_color == old(framebuffer).current_color,
                y <= fh,
                forall|xx: int, yy: int|
                    0 <= xx < fw && 0 <= yy < y ==> #[trigger] framebuffer.buffer@[pixel_index(
                        fw as int,
                        xx,
                        yy,
                    )] == self.pixels@[source_index(sw as int, sh as int, fw as int, fh as int, xx, yy)],
            decreases fh - y,
        {
            proof {
                lemma_scaled_below(y as int, fh as int, sh as int);
            }
            let src_y = y * sh / fh;
            let mut x: usize = 0;
            while x < fw
                invariant
                    self.wf(),
                    sw == self.width && sh == self.height,
                    sw > 0 && sh > 0,
                    plen == self.pixels@.len(),
                    framebuffer.wf(),
                    fw == framebuffer.width && fh == framebuffer.height,
                    fw * sw <= usize::MAX,
                    fh * sh <= usize::MAX,
                    framebuffer.zbuffer@ == old(framebuffer).zbuffer@,
                    framebuffer.background_color == old(framebuffer).background_color,
                    framebuffer.current_color == old(framebuffer).current_color,
                    y < fh,
                    src_y as int == (y as int) * (sh as int) / (fh as int),
                    src_y < sh,
                    x <= fw,
                    forall|xx: int, yy: int|
                        0 <= xx < fw && 0 <= yy < y ==> #[trigger] framebuffer.buffer@[pixel_index(
                            fw as int,
                            xx,
                            yy,
                        )] == self.pixels@[source_index(
                            sw as int,
                            sh as int,
                            fw as int,
                            fh as int,
                            xx,
                            yy,
                        )],
                    forall|xx: int|
                        0 <= xx < x ==> #[trigger] framebuffer.buffer@[pixel_index(
                            fw as int,
                            xx,
                            y as int,
                        )] == self.pixels@[source_index(
                            sw as int,
                            sh as int,
                            fw as int,
                            fh as int,
                            xx,
                            y as int,
                        )],
                decreases fw - x,
            {
                proof {
                    lemma_scaled_below(x as int, fw as int, sw as int);
                    lemma_cell_in_grid(fw as int, fh as int, x as int, y as int);
                }
                let src_x = x * sw / fw;
                proof {
                    lemma_cell_in_grid(sw as int, sh as int, src_x as int, src_y as int);
                }
                let color = self.pixels[src_y * sw + src_x];
                let ghost before = framebuffer.buffer@;
                let i = y * fw + x;
                framebuffer.buffer.set(i, color);
                proof {
                    assert forall|xx: int, yy: int|
                        0 <= xx < fw && 0 <= yy < y implies #[trigger] framebuffer.buffer@[pixel_index(
                            fw as int,
                            xx,
                            yy,
                        )] == self.pixels@[source_index(
                            sw as int,
                            sh as int,
                            fw as int,
                            fh as int,
                            xx,
                            yy,
                        )] by {
                        lemma_cells_distinct(fw as int, xx, yy, x as int, y as int);
                        lemma_cell_in_grid(fw as int, fh as int, xx, yy);
                        assert(before[pixel_index(fw as int, xx, yy)] == self.pixels@[source_index(
                            sw as int,
                            sh as int,
                            fw as int,
                            fh as int,
                            xx,
                            yy,
                        )]);
                    }
                    assert forall|xx: int|
                        0 <= xx < x + 1 implies #[trigger] framebuffer.buffer@[pixel_index(
                            fw as int,
                            xx,
                            y as int,
                        )] == self.pixels@[source_index(
                            sw as int,
                            sh as int,
                            fw as int,
                            fh as int,
                            xx,
                            y as int,
                        )] by {
                        if xx < x {
                            lemma_cells_distinct(fw as int, xx, y as int, x as int, y as int);
                            assert(before[pixel_index(fw as int, xx, y as int)]
                                == self.pixels@[source_index(
                                sw as int,
                                sh as int,
                                fw as int,
                                fh as int,
                                xx,
                                y as int,
                            )]);
                        }
                    }
                }
                x = x + 1;
            }
            y = y + 1;
        }
    }
}

/// Scaling an index below `n` by `m / n` gives an index below `m`, and the
/// product fits wherever `n * m` does.
proof fn lemma_scaled_below(i: int, n: int, m: int)
    requires
        0 <= i < n,
        0 < m,
    ensures
        0 <= i * m <= n * m,
        0 <= i * m / n < m,
{
    assert(0 <= i * m <= n * m) by (nonlinear_arith)
        requires
            0 <= i < n,
            0 < m,
    ;
    vstd::arithmetic::div_mod::lemma_fundamental_div_mod(i * m, n);
    let q = i * m / n;
    let r = i * m % n;
    assert(0 <= q < m) by (nonlinear_arith)
        requires
            0 <= i < n,
            0 < m,
            i * m == n * q + r,
            0 <= r < n,
    ;
}

proof fn lemma_nonempty_grid(w: int, h: int)
    requires
        w >= 0,
        h >= 0,
        w * h > 0,
    ensures
        w > 0 && h > 0,
{
    if w == 0 {
        assert(w * h == 0);
    }
    if h == 0 {
        assert(w * h == 0);
    }
}

proof fn lemma_cell_in_grid(w: int, h: int, x: int, y: int)
    requires
        0 <= x < w,
        0 <= y < h,
    ensures
        0 <= y * w + x < w * h,
        y * w + x + 1 <= w * h,
{
    assert(0 <= y * w + x < w * h) by (nonlinear_arith)
        requires
            0 <= x < w,
            0 <= y < h,
    ;
}

proof fn lemma_cells_distinct(w: int, x1: int, y1: int, x2: int, y2: int)
    requires
        0 <= x1 < w,
        0 <= x2 < w,
        (x1, y1) != (x2, y2),
    ensures
        pixel_index(w, x1, y1) != pixel_index(w, x2, y2),
{
    if y1 == y2 {
    } else if y1 < y2 {
        assert(y1 * w + x1 < y2 * w + x2) by (nonlinear_arith)
            requires
                0 <= x1 < w,
                0 <= x2,
                y1 < y2,
        ;
    } else {
        assert(y2 * w + x2 < y1 * w + x1) by (nonlinear_arith)
            requires
                0 <= x2 < w,
                0 <= x1,
                y2 < y1,
        ;
    }
}

} // verus!
