use vstd::prelude::*;

use crate::color::{packed_rgb, Color};
use crate::raster::Fragment;

verus! {

/// Depth of a pixel that nothing has been drawn on: farther than any fragment.
pub const FAR_DEPTH: i64 = 9223372036854775807;

/// A pixel buffer of `0xRRGGBB` values with a depth buffer beside it, both
/// stored row by row.
pub struct Framebuffer {
    pub width: usize,
    pub height: usize,
    pub buffer: Vec<u32>,
    pub zbuffer: Vec<i64>,
    pub background_color: u32,
    pub current_color: u32,
}

/// The pixel value of a colour.
pub open spec fn hex_of(c: Color) -> u32 {
    packed_rgb(c.r as int, c.g as int, c.b as int) as u32
}

/// Index of pixel `(x, y)` in a buffer of the given width.
pub open spec fn pixel_index(width: int, x: int, y: int) -> int {
    y * width + x
}

/// The colour and depth buffers after one fragment is composited: it is kept
/// when it lies in the frame and is nearer than what the pixel holds.
pub open spec fn composite_one(
    width: int,
    height: int,
    state: (Seq<u32>, Seq<i64>),
    f: Fragment,
) -> (Seq<u32>, Seq<i64>) {
    let i = pixel_index(width, f.x as int, f.y as int);
    if 0 <= f.x < width && 0 <= f.y < height && f.depth < state.1[i] {
        (state.0.update(i, hex_of(f.color)), state.1.update(i, f.depth))
    } else {
        state
    }
}

/// The colour and depth buffers after the fragments are composited in order.
pub open spec fn composite_all(
    width: int,
    height: int,
    state: (Seq<u32>, Seq<i64>),
    frags: Seq<Fragment>,
) -> (Seq<u32>, Seq<i64>)
    decreases frags.len(),
{
    if frags.len() == 0 {
        state
    } else {
        composite_one(width, height, composite_all(width, height, state, frags.drop_last()), frags.last())
    }
}

impl Framebuffer {
    pub open spec fn wf(&self) -> bool {
        &&& self.width * self.height <= usize::MAX
        &&& self.buffer@.len() == self.width * self.height
        &&& self.zbuffer@.len() == self.width * self.height
    }

    /// A frame of the given size, black and at the far depth everywhere, that
    /// draws in white.
    pub fn new(width: usize, height: usize) -> (fb: Framebuffer)
        requires
            width * height <= usize::MAX,
        ensures
            fb.wf(),
            fb.width == width && fb.height == height,
            fb.background_color == 0 && fb.current_color == 0xFFFFFF,
            forall|i: int| 0 <= i < width * height ==> #[trigger] fb.buffer@[i] == 0,
            forall|i: int| 0 <= i < width * height ==> #[trigger] fb.zbuffer@[i] == FAR_DEPTH,
    {
        let n = width * height;
        let mut buffer: Vec<u32> = Vec::new();
        let mut zbuffer: Vec<i64> = Vec::new();
        let mut i: usize = 0;
        while i < n
            invariant
                i <= n,
                buffer@.len() == i && zbuffer@.len() == i,
                forall|j: int| 0 <= j < i ==> #[trigger] buffer@[j] == 0,
                forall|j: int| 0 <= j < i ==> #[trigger] zbuffer@[j] == FAR_DEPTH,
            decreases n - i,
        {
            buffer.push(0);
            zbuffer.push(FAR_DEPTH);
            i = i + 1;
        }
        Framebuffer {
            width,
            height,
            buffer,
            zbuffer,
            background_color: 0,
            current_color: 0xFFFFFF,
        }
    }

    /// Fills the frame with the background colour and resets every depth.
    pub fn clear(&mut self)
        requires
            old(self).wf(),
        ensures
            final(self).wf(),
            final(self).width == old(self).width && final(self).height == old(self).height,
            final(self).background_color == old(self).background_color,
            final(self).current_color == old(self).current_color,
            forall|i: int|
                0 <= i < old(self).width * old(self).height ==> #[trigger] final(self).buffer@[i]
                    == old(self).background_color,
            forall|i: int|
                0 <= i < old(self).width * old(self).height ==> #[trigger] final(self).zbuffer@[i]
                    == FAR_DEPTH,
    {
        let n = self.width * self.height;
        let mut i: usize = 0;
        while i < n
            invariant
                i <= n,
                n == self.width * self.height,
                self.wf(),
                self.width == old(self).width && self.height == old(self).height,
                self.background_color == old(self).background_color,
                self.current_color == old(self).current_color,
                forall|j: int| 0 <= j < i ==> #[trigger] self.buffer@[j] == self.background_color,
                forall|j: int| 0 <= j < i ==> #[trigger] self.zbuffer@[j] == FAR_DEPTH,
            decreases n - i,
        {
            let bg = self.background_color;
            self.buffer.set(i, bg);
            self.zbuffer.set(i, FAR_DEPTH);
            i = i + 1;
        }
    }

    pub fn set_background_color(&mut self, color: u32)
        ensures
            *final(self) == (Framebuffer { background_color: color, ..*old(self) }),
    {
        self.background_color = color;
    }

    pub fn set_current_color(&mut self, color: u32)
        ensures
            *final(self) == (Framebuffer { current_color: color, ..*old(self) }),
    {
        self.current_color = color;
    }

    /// Draws the current colour at `(x, y)` with the given depth, if that
    /// pixel lies in the frame and holds a farther depth; otherwise nothing
    /// changes.
    pub fn point(&mut self, x: usize, y: usize, depth: i64)
        requires
            old(self).wf(),
        ensures
            final(self).wf(),
            final(self).width == old(self).width && final(self).height == old(self).height,
            final(self).background_color == old(self).background_color,
            final(self).current_color == old(self).current_color,
            ({
                let i = pixel_index(old(self).width as int, x as int, y as int);
                if x < old(self).width && y < old(self).height && depth < old(self).zbuffer@[i] {
                    final(self).buffer@ == old(self).buffer@.update(i, old(self).current_color)
                        && final(self).zbuffer@ == old(self).zbuffer@.update(i, depth)
                } else {
                    final(self).buffer@ == old(self).buffer@ && final(self).zbuffer@
                        == old(self).zbuffer@
                }
            }),
    {
        let color = self.current_color;
        self.depth_write(x, y, color, depth);
    }

    fn depth_write(&mut self, x: usize, y: usize, color: u32, depth: i64)
        requires
            old(self).wf(),
        ensures
            final(self).wf(),
            final(self).width == old(self).width && final(self).height == old(self).height,
            final(self).background_color == old(self).background_color,
            final(self).current_color == old(self).current_color,
            ({
                let i = pixel_index(old(self).width as int, x as int, y as int);
                if x < old(self).width && y < old(self).height && depth < old(self).zbuffer@[i] {
                    final(self).buffer@ == old(self).buffer@.update(i, color)
                        && final(self).zbuffer@ == old(self).zbuffer@.update(i, depth)
                } else {
                    final(self).buffer@ == old(self).buffer@ && final(self).zbuffer@
                        == old(self).zbuffer@
                }
            }),
    {
        if x < self.width && y < self.height {
            proof {
                lemma_index_in_frame(self.width as int, self.height as int, x as int, y as int);
            }
            let i = y * self.width + x;
            if depth < self.zbuffer[i] {
                self.buffer.set(i, color);
                self.zbuffer.set(i, depth);
            }
        }
    }

    /// Writes `color` at `(x, y)` without a depth test, if the pixel lies in
    /// the frame; depths are left as they are.
    pub fn plot_overlay(&mut self, x: i32, y: i32, color: u32)
        requires
            old(self).wf(),
        ensures
            final(self).wf(),
            final(self).width == old(self).width && final(self).height == old(self).height,
            final(self).background_color == old(self).background_color,
            final(self).current_color == old(self).current_color,
            final(self).zbuffer@ == old(self).zbuffer@,
            if 0 <= x < old(self).width && 0 <= y < old(self).height {
                final(self).buffer@ == old(self).buffer@.update(
                    pixel_index(old(self).width as int, x as int, y as int),
                    color,
                )
            } else {
                final(self).buffer@ == old(self).buffer@
            },
    {
        if x >= 0 && y >= 0 && (x as usize) < self.width && (y as usize) < self.height {
            let (ux, uy) = (x as usize, y as usize);
            proof {
                lemma_index_in_frame(self.width as int, self.height as int, ux as int, uy as int);
            }
            self.buffer.set(uy * self.width + ux, color);
        }
    }

    /// Draws the straight line from `(x0, y0)` to `(x1, y1)` in `color`
    /// without a depth test: one pixel per step along the longer axis, each
    /// rounded to the nearest pixel; pixels outside the frame are skipped.
    pub fn draw_overlay_line(&mut self, x0: i32, y0: i32, x1: i32, y1: i32, color: u32)
        requires
            old(self).wf(),
        ensures
            final(self).wf(),
            final(self).width == old(self).width && final(self).height == old(self).height,
            final(self).background_color == old(self).background_color,
            final(self).current_color == old(self).current_color,
            final(self).zbuffer@ == old(self).zbuffer@,
            forall|k: int|
                0 <= k <= line_steps(x0 as int, y0 as int, x1 as int, y1 as int) && 0 <= line_coord(
                    x0 as int,
                    x1 as int,
                    k,
                    line_steps(x0 as int, y0 as int, x1 as int, y1 as int),
                ) < old(self).width && 0 <= line_coord(
                    y0 as int,
                    y1 as int,
                    k,
                    line_steps(x0 as int, y0 as int, x1 as int, y1 as int),
                ) < old(self).height ==> final(self).buffer@[pixel_index(
                    old(self).width as int,
                    #[trigger] line_coord(
                        x0 as int,
                        x1 as int,
                        k,
                        line_steps(x0 as int, y0 as int, x1 as int, y1 as int),
                    ),
                    line_coord(
                        y0 as int,
                        y1 as int,
                        k,
                        line_steps(x0 as int, y0 as int, x1 as int, y1 as int),
                    ),
                )] == color,
            forall|j: int|
                0 <= j < old(self).buffer@.len() ==> #[trigger] final(self).buffer@[j]
                    == old(self).buffer@[j] || final(self).buffer@[j] == color,
    {
        let (ax, ay, bx, by) = (x0 as i64, y0 as i64, x1 as i64, y1 as i64);
        let dx: i64 = if bx >= ax { bx - ax } else { ax - bx };
        let dy: i64 = if by >= ay { by - ay } else { ay - by };
        let n: i64 = if dx >= dy { dx } else { dy };
        let ghost steps = line_steps(x0 as int, y0 as int, x1 as int, y1 as int);
        let mut k: i64 = 0;
        while k <= n
            invariant
                0 <= k <= n + 1,
                n == steps,
                0 <= n <= 4294967295,
                n >= (if bx >= ax { bx - ax } else { ax - bx }),
                n >= (if by >= ay { by - ay } else { ay - by }),
                ax == x0 && ay == y0 && bx == x1 && by == y1,
                self.wf(),
                self.width == old(self).width && self.height == old(self).height,
                self.background_color == old(self).background_color,
                self.current_color == old(self).current_color,
                self.zbuffer@ == old(self).zbuffer@,
                self.buffer@.len() == old(self).buffer@.len(),
                forall|kk: int|
                    0 <= kk < k && 0 <= line_coord(x0 as int, x1 as int, kk, steps) < self.width
                        && 0 <= line_coord(y0 as int, y1 as int, kk, steps) < self.height
                        ==> self.buffer@[pixel_index(
                        self.width as int,
                        #[trigger] line_coord(x0 as int, x1 as int, kk, steps),
                        line_coord(y0 as int, y1 as int, kk, steps),
                    )] == color,
                forall|j: int|
                    0 <= j < old(self).buffer@.len() ==> #[trigger] self.buffer@[j]
                        == old(self).buffer@[j] || self.buffer@[j] == color,
            decreases n + 1 - k,
        {
            let px = step_coord(ax, bx, k, n);
            let py = step_coord(ay, by, k, n);
            let ghost before = self.buffer@;
            if px >= 0 && py >= 0 && (px as u64) < (self.width as u64) && (py as u64) < (
            self.height as u64) {
                proof {
                    lemma_index_in_frame(self.width as int, self.height as int, px as int, py as int);
                }
                let i = (py as usize) * self.width + (px as usize);
                self.buffer.set(i, color);
                proof {
                    assert forall|kk: int|
                        0 <= kk < k + 1 && 0 <= line_coord(x0 as int, x1 as int, kk, steps)
                            < self.width && 0 <= line_coord(y0 as int, y1 as int, kk, steps)
                            < self.height implies self.buffer@[pixel_index(
                        self.width as int,
                        #[trigger] line_coord(x0 as int, x1 as int, kk, steps),
                        line_coord(y0 as int, y1 as int, kk, steps),
                    )] == color by {
                        let (qx, qy) = (
                            line_coord(x0 as int, x1 as int, kk, steps),
                            line_coord(y0 as int, y1 as int, kk, steps),
                        );
                        lemma_index_in_frame(self.width as int, self.height as int, qx, qy);
                        if kk < k {
                            assert(before[pixel_index(self.width as int, qx, qy)] == color);
                        }
                    }
                    assert forall|j: int|
                        0 <= j < old(self).buffer@.len() implies #[trigger] self.buffer@[j]
                            == old(self).buffer@[j] || self.buffer@[j] == color by {
                        assert(before[j] == old(self).buffer@[j] || before[j] == color);
                    }
                }
            }
            k = k + 1;
        }
    }

    /// Composites the fragments in order: each one that lies in the frame is
    /// drawn in its colour where it is nearer than what the pixel holds.
    pub fn draw_fragments(&mut self, fragments: &Vec<Fragment>)
        requires
            old(self).wf(),
        ensures
            final(self).wf(),
            final(self).width == old(self).width && final(self).height == old(self).height,
            final(self).background_color == old(self).background_color,
            final(self).current_color == old(self).current_color,
            (final(self).buffer@, final(self).zbuffer@) == composite_all(
                old(self).width as int,
                old(self).height as int,
                (old(self).buffer@, old(self).zbuffer@),
                fragments@,
            ),
    {
        let mut k: usize = 0;
        while k < fragments.len()
            invariant
                k <= fragments@.len(),
                self.wf(),
                self.width == old(self).width && self.height == old(self).height,
                self.background_color == old(self).background_color,
                self.current_color == old(self).current_color,
                (self.buffer@, self.zbuffer@) == composite_all(
                    old(self).width as int,
                    old(self).height as int,
                    (old(self).buffer@, old(self).zbuffer@),
                    fragments@.take(k as int),
                ),
            decreases fragments@.len() - k,
        {
            let f = fragments[k];
            proof {
                let prefix = fragments@.take(k as int + 1);
                assert(prefix.drop_last() =~= fragments@.take(k as int));
                assert(prefix.last() == f);
            }
            let ghost before = (self.buffer@, self.zbuffer@);
            if f.x >= 0 && f.y >= 0 && (f.x as u64) < (self.width as u64) && (f.y as u64) < (
            self.height as u64) {
                let hex = f.color.to_hex();
                assert(hex == hex_of(f.color));
                self.depth_write(f.x as usize, f.y as usize, hex, f.depth);
            }
            assert((self.buffer@, self.zbuffer@) == composite_one(
                old(self).width as int,
                old(self).height as int,
                before,
                f,
            ));
            k = k + 1;
        }
        proof {
            assert(fragments@.take(fragments@.len() as int) =~= fragments@);
        }
    }
}

/// Number of steps of a line from `(x0, y0)` to `(x1, y1)`: the larger of
/// the two distances along the axes.
pub open spec fn line_steps(x0: int, y0: int, x1: int, y1: int) -> int {
    let dx = if x1 >= x0 { x1 - x0 } else { x0 - x1 };
    let dy = if y1 >= y0 { y1 - y0 } else { y0 - y1 };
    if dx >= dy {
        dx
    } else {
        dy
    }
}

/// The coordinate `k` of `n` steps along from `a` to `b`, rounded to the
/// nearest integer (halves round up).
pub open spec fn line_coord(a: int, b: int, k: int, n: int) -> int {
    if n == 0 {
        a
    } else {
        a + (2 * (b - a) * k + n) / (2 * n)
    }
}

/// Coordinate `k` of `n` steps from `a` to `b`, rounded to nearest.
fn step_coord(a: i64, b: i64, k: i64, n: i64) -> (r: i64)
    requires
        -2147483648 <= a <= 2147483647,
        -2147483648 <= b <= 2147483647,
        0 <= k <= n,
        n <= 4294967295,
        n >= (if b >= a { b - a } else { a - b }),
    ensures
        r == line_coord(a as int, b as int, k as int, n as int),
{
    if n == 0 {
        return a;
    }
    let d = (b - a) as i128;
    proof {
        let (di, ki, ni) = (d as int, k as int, n as int);
        assert(-ni <= di <= ni);
        assert(-(ni * ni) <= di * ki <= ni * ni) by (nonlinear_arith)
            requires
                -ni <= di <= ni,
                0 <= ki <= ni,
        ;
        assert(ni * ni <= 4294967295int * 4294967295int) by (nonlinear_arith)
            requires
                0 <= ni <= 4294967295int,
        ;
        assert(2 * di * ki == 2 * (di * ki)) by (nonlinear_arith);
        assert(-ni <= (2 * di * ki + ni) / (2 * ni) <= ni) by (nonlinear_arith)
            requires
                -(ni * ni) <= di * ki <= ni * ni,
                2 * di * ki == 2 * (di * ki),
                ni > 0,
        {
            vstd::arithmetic::div_mod::lemma_fundamental_div_mod(2 * di * ki + ni, 2 * ni);
        }
    }
    let num: i128 = 2 * d * (k as i128) + (n as i128);
    match num.checked_div_euclid(2 * (n as i128)) {
        Some(q) => a + q as i64,
        None => a,
    }
}

proof fn lemma_index_in_frame(width: int, height: int, x: int, y: int)
    requires
        0 <= x < width,
        0 <= y < height,
    ensures
        0 <= pixel_index(width, x, y) < width * height,
{
    assert(0 <= y * width + x < width * height) by (nonlinear_arith)
        requires
            0 <= x < width,
            0 <= y < height,
    ;
}

/// Of two fragments on the same pixel, the nearer one is what the pixel shows
/// afterwards, in whichever order the two are composited, provided the pixel
/// held something farther than it.
pub proof fn lemma_nearer_fragment_wins(
    width: int,
    height: int,
    state: (Seq<u32>, Seq<i64>),
    near: Fragment,
    far: Fragment,
)
    requires
        state.0.len() == width * height,
        state.1.len() == width * height,
        0 <= near.x < width,
        0 <= near.y < height,
        far.x == near.x && far.y == near.y,
        near.depth < far.depth,
        near.depth < state.1[pixel_index(width, near.x as int, near.y as int)],
    ensures
        composite_all(width, height, state, seq![near, far]).0[pixel_index(
            width,
            near.x as int,
            near.y as int,
        )] == hex_of(near.color),
        composite_all(width, height, state, seq![far, near]).0[pixel_index(
            width,
            near.x as int,
            near.y as int,
        )] == hex_of(near.color),
{
    reveal_with_fuel(composite_all, 3);
    let i = pixel_index(width, near.x as int, near.y as int);
    lemma_index_in_frame(width, height, near.x as int, near.y as int);
    let nf = seq![near, far];
    let fnr = seq![far, near];
    assert(nf.drop_last() =~= seq![near]);
    assert(seq![near].drop_last() =~= Seq::<Fragment>::empty());
    assert(fnr.drop_last() =~= seq![far]);
    assert(seq![far].drop_last() =~= Seq::<Fragment>::empty());
}

} // verus!
