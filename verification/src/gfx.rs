//! A software RGBA framebuffer with integer pixel operations, used for
//! procedurally generated imagery.

use vstd::prelude::*;

verus! {

/// How two textures are combined when drawn.
#[derive(Debug, PartialEq, Eq, Structural, Copy, Clone)]
pub enum BlendMode {
    Blend,
    Add,
}

/// Index of the first channel of pixel `(x, y)` in the RGBA byte buffer.
pub open spec fn pix_index(width: int, x: int, y: int) -> int {
    (y * width + x) * 4
}

/// One channel byte of pixel `(x, y)`.
pub open spec fn channel_at(buf: Seq<u8>, width: int, x: int, y: int, c: int) -> u8 {
    buf[pix_index(width, x, y) + c]
}

/// Every pixel outside the rectangle `[x, x+w) x [y, y+h)` carries the
/// same channel bytes in `post` as in `pre`.
pub open spec fn box_frame(
    pre: Seq<u8>,
    post: Seq<u8>,
    width: int,
    height: int,
    x: int,
    y: int,
    w: int,
    h: int,
) -> bool {
    forall|xx: int, yy: int, c: int|
        0 <= xx < width && 0 <= yy < height && !(x <= xx < x + w && y <= yy < y + h) && 0 <= c < 4
            ==> #[trigger] channel_at(post, width, xx, yy, c) == channel_at(pre, width, xx, yy, c)
}

/// Row `y` carries the colour on every column of `[lo, hi]`.
pub open spec fn row_filled(
    buf: Seq<u8>,
    width: int,
    y: int,
    lo: int,
    hi: int,
    color: [u8; 4],
) -> bool {
    forall|xx: int, c: int|
        lo <= xx <= hi && 0 <= c < 4 ==> #[trigger] channel_at(buf, width, xx, y, c) == color@[c]
}

/// Every column of `[lo, hi]` on row `yc` already carries the colour,
/// except possibly those the span `[x0, x0+w0)` on that row is about to
/// overwrite.
pub open spec fn centre_ready(
    buf: Seq<u8>,
    width: int,
    yc: int,
    lo: int,
    hi: int,
    row: int,
    x0: int,
    w0: int,
    color: [u8; 4],
) -> bool {
    forall|xx: int, c: int|
        lo <= xx <= hi && 0 <= c < 4 ==> #[trigger] channel_at(buf, width, xx, yc, c) == color@[c]
            || (row == yc && x0 <= xx < x0 + w0)
}

/// Every pixel farther than Chebyshev distance `d` from `(x, y)`
/// carries the same channel bytes in `post` as in `pre`.
pub open spec fn pix_frame(
    pre: Seq<u8>,
    post: Seq<u8>,
    width: int,
    height: int,
    x: int,
    y: int,
    d: int,
) -> bool {
    forall|xx: int, yy: int, c: int|
        0 <= xx < width && 0 <= yy < height && !(x - d <= xx <= x + d && y - d <= yy <= y + d)
            && 0 <= c < 4 ==> #[trigger] channel_at(post, width, xx, yy, c) == channel_at(
            pre,
            width,
            xx,
            yy,
            c,
        )
}

/// Two write steps whose centres both lie inside the Chebyshev-`d` box
/// around `(x, y)` compose to one frame around that box.
proof fn lemma_pix_frame_compose(
    a: Seq<u8>,
    b: Seq<u8>,
    cq: Seq<u8>,
    width: int,
    height: int,
    x0: int,
    y0: int,
    d0: int,
    x1: int,
    y1: int,
    d1: int,
    x: int,
    y: int,
    d: int,
)
    requires
        pix_frame(a, b, width, height, x0, y0, d0),
        pix_frame(b, cq, width, height, x1, y1, d1),
        x - d <= x0 - d0 && x0 + d0 <= x + d && y - d <= y0 - d0 && y0 + d0 <= y + d,
        x - d <= x1 - d1 && x1 + d1 <= x + d && y - d <= y1 - d1 && y1 + d1 <= y + d,
    ensures
        pix_frame(a, cq, width, height, x, y, d),
{
    assert forall|xx: int, yy: int, c: int|
        0 <= xx < width && 0 <= yy < height && !(x - d <= xx <= x + d && y - d <= yy <= y + d)
            && 0 <= c < 4 implies #[trigger] channel_at(cq, width, xx, yy, c) == channel_at(
        a,
        width,
        xx,
        yy,
        c,
    ) by {
        assert(channel_at(b, width, xx, yy, c) == channel_at(a, width, xx, yy, c));
        assert(channel_at(cq, width, xx, yy, c) == channel_at(b, width, xx, yy, c));
    }
}

/// A pixel untouched by a single-pixel write keeps its channels.
proof fn lemma_pix_frame_keep(
    a: Seq<u8>,
    b: Seq<u8>,
    width: int,
    height: int,
    x0: int,
    y0: int,
    xx: int,
    yy: int,
)
    requires
        pix_frame(a, b, width, height, x0, y0, 0),
        0 <= xx < width,
        0 <= yy < height,
        (xx, yy) != (x0, y0),
    ensures
        forall|c: int|
            0 <= c < 4 ==> #[trigger] channel_at(b, width, xx, yy, c) == channel_at(
                a,
                width,
                xx,
                yy,
                c,
            ),
{
}

/// Distinct pixels occupy disjoint byte cells.
proof fn lemma_pix_cells_disjoint(width: int, height: int, x0: int, y0: int, x1: int, y1: int)
    requires
        0 <= width,
        0 <= x0 < width,
        0 <= x1 < width,
        0 <= y0,
        0 <= y1,
        (x0, y0) != (x1, y1),
    ensures
        pix_index(width, x0, y0) + 4 <= pix_index(width, x1, y1) || pix_index(width, x1, y1) + 4
            <= pix_index(width, x0, y0),
{
    if y0 == y1 {
        assert((y0 * width + x0) * 4 + 4 <= (y1 * width + x1) * 4 || (y1 * width + x1) * 4 + 4
            <= (y0 * width + x0) * 4) by (nonlinear_arith)
            requires
                y0 == y1,
                x0 != x1,
        ;
    } else if y0 < y1 {
        assert((y0 * width + x0) * 4 + 4 <= (y1 * width + x1) * 4) by (nonlinear_arith)
            requires
                0 <= width,
                0 <= x0 < width,
                0 <= x1,
                y0 < y1,
        ;
    } else {
        assert((y1 * width + x1) * 4 + 4 <= (y0 * width + x0) * 4) by (nonlinear_arith)
            requires
                0 <= width,
                0 <= x1 < width,
                0 <= x0,
                y1 < y0,
        ;
    }
}

/// An RGBA byte framebuffer.
pub struct Framebuffer {
    pub width: i32,
    pub height: i32,
    pub buffer: Vec<u8>,
}

impl View for Framebuffer {
    type V = Seq<u8>;

    closed spec fn view(&self) -> Seq<u8> {
        self.buffer@
    }
}

impl Framebuffer {
    /// The buffer holds four bytes per pixel and the dimensions stay
    /// moderate, so that all pixel index arithmetic fits.
    pub open spec fn wf(self) -> bool {
        &&& 0 <= self.width <= 16384
        &&& 0 <= self.height <= 16384
        &&& self@.len() == self.width * self.height * 4
    }

    pub fn new(width: i32, height: i32) -> (fb: Framebuffer)
        requires
            0 <= width <= 16384,
            0 <= height <= 16384,
        ensures
            fb.wf(),
            fb.width == width,
            fb.height == height,
            forall|k: int| 0 <= k < fb@.len() ==> fb@[k] == 0,
    {
        proof {
            assert(0 <= width * height && width * height * 4 <= 0x4000_0000) by (nonlinear_arith)
                requires
                    0 <= width <= 16384,
                    0 <= height <= 16384,
            ;
        }
        let n: usize = (width as usize) * (height as usize) * 4;
        let mut buffer: Vec<u8> = Vec::new();
        let mut i: usize = 0;
        while i < n
            invariant
                i <= n,
                buffer@.len() == i,
                forall|k: int| 0 <= k < i ==> buffer@[k] == 0,
            decreases n - i,
        {
            buffer.push(0);
            i += 1;
        }
        Framebuffer { width, height, buffer }
    }

    /// Overwrites the four channels of one pixel.
    pub fn set_pix(&mut self, x: i32, y: i32, color: [u8; 4])
        requires
            old(self).wf(),
            0 <= x < old(self).width,
            0 <= y < old(self).height,
        ensures
            final(self).wf(),
            final(self).width == old(self).width,
            final(self).height == old(self).height,
            final(self)@.len() == old(self)@.len(),
            forall|c: int|
                0 <= c < 4 ==> final(self)@[pix_index(old(self).width as int, x as int, y as int)
                    + c] == color@[c],
            forall|k: int|
                0 <= k < old(self)@.len() && !(pix_index(old(self).width as int, x as int, y as int)
                    <= k < pix_index(old(self).width as int, x as int, y as int) + 4) ==> final(self)@[k] == old(self)@[k],
    {
        proof {
            lemma_pix_index_bounds(self.width as int, self.height as int, x as int, y as int);
        }
        let dpos: usize = ((y * self.width + x) * 4) as usize;
        self.buffer.set(dpos, color[0]);
        self.buffer.set(dpos + 1, color[1]);
        self.buffer.set(dpos + 2, color[2]);
        self.buffer.set(dpos + 3, color[3]);
    }

    /// Blends one pixel with the given colour: source channels weighted
    /// by the source alpha, the stored ones by its complement, rounded
    /// up; the stored alpha becomes the larger of the two.
    pub fn blend_pix(&mut self, x: i32, y: i32, color: [u8; 4])
        requires
            old(self).wf(),
            0 <= x < old(self).width,
            0 <= y < old(self).height,
        ensures
            final(self).wf(),
            final(self).width == old(self).width,
            final(self).height == old(self).height,
            final(self)@.len() == old(self)@.len(),
            ({
                let base = pix_index(old(self).width as int, x as int, y as int);
                let a2 = color@[3] as int;
                &&& final(self)@[base] == blend_channel(old(self)@[base] as int, color@[0] as int, a2)
                &&& final(self)@[base + 1] == blend_channel(
                    old(self)@[base + 1] as int,
                    color@[1] as int,
                    a2,
                )
                &&& final(self)@[base + 2] == blend_channel(
                    old(self)@[base + 2] as int,
                    color@[2] as int,
                    a2,
                )
                &&& final(self)@[base + 3] == if old(self)@[base + 3] as int >= a2 {
                    old(self)@[base + 3]
                } else {
                    color@[3]
                }
            }),
            forall|k: int|
                0 <= k < old(self)@.len() && !(pix_index(old(self).width as int, x as int, y as int)
                    <= k < pix_index(old(self).width as int, x as int, y as int) + 4) ==> final(self)@[k] == old(self)@[k],
    {
        proof {
            lemma_pix_index_bounds(self.width as int, self.height as int, x as int, y as int);
        }
        let dpos: usize = ((y * self.width + x) * 4) as usize;
        let r1 = self.buffer[dpos] as i32;
        let g1 = self.buffer[dpos + 1] as i32;
        let b1 = self.buffer[dpos + 2] as i32;
        let a1 = self.buffer[dpos + 3] as i32;

        let r2 = color[0] as i32;
        let g2 = color[1] as i32;
        let b2 = color[2] as i32;
        let a2 = color[3] as i32;

        proof {
            assert(0 <= r2 * a2 + r1 * (255 - a2) + 255 <= 65280 && 0 <= g2 * a2 + g1 * (255 - a2)
                + 255 <= 65280 && 0 <= b2 * a2 + b1 * (255 - a2) + 255 <= 65280)
                by (nonlinear_arith)
                requires
                    0 <= r1 <= 255 && 0 <= g1 <= 255 && 0 <= b1 <= 255,
                    0 <= r2 <= 255 && 0 <= g2 <= 255 && 0 <= b2 <= 255,
                    0 <= a2 <= 255,
            ;
        }
        // the result is rounded down, so adding 255 to each fractional
        // value gives proper rounding
        let r = r2 * a2 + r1 * (255 - a2) + 255;
        let g = g2 * a2 + g1 * (255 - a2) + 255;
        let b = b2 * a2 + b1 * (255 - a2) + 255;
        let m = if a1 >= a2 {
            a1
        } else {
            a2
        };
        let a = m << 8;

        proof {
            assert(r >> 8 == r / 256 && r / 256 <= 255) by (bit_vector)
                requires
                    0 <= r <= 65280,
            ;
            assert(g >> 8 == g / 256 && g / 256 <= 255) by (bit_vector)
                requires
                    0 <= g <= 65280,
            ;
            assert(b >> 8 == b / 256 && b / 256 <= 255) by (bit_vector)
                requires
                    0 <= b <= 65280,
            ;
            assert(a >> 8 == m) by (bit_vector)
                requires
                    0 <= m <= 255,
                    a == m << 8,
            ;
        }
        self.buffer.set(dpos, (r >> 8) as u8);
        self.buffer.set(dpos + 1, (g >> 8) as u8);
        self.buffer.set(dpos + 2, (b >> 8) as u8);
        self.buffer.set(dpos + 3, (a >> 8) as u8);
    }

    /// Fills one horizontal pixel run with a colour.
    pub fn hline(&mut self, x: i32, y: i32, w: i32, color: [u8; 4])
        requires
            old(self).wf(),
            0 <= x,
            x + w <= old(self).width,
            0 <= y < old(self).height,
        ensures
            final(self).wf(),
            final(self).width == old(self).width,
            final(self).height == old(self).height,
            final(self)@.len() == old(self)@.len(),
            forall|xx: int, c: int|
                #![trigger pix_index(old(self).width as int, xx, y as int), color@[c]]
                x <= xx < x + w && 0 <= c < 4 ==> final(self)@[pix_index(
                    old(self).width as int,
                    xx,
                    y as int,
                ) + c] == color@[c],
            forall|k: int|
                0 <= k < old(self)@.len() && !(pix_index(old(self).width as int, x as int, y as int)
                    <= k < pix_index(old(self).width as int, x as int + w, y as int)) ==> final(self)@[k] == old(self)@[k],
    {
        let mut xx: i32 = x;
        while xx < x + w
            invariant
                self.wf(),
                self.width == old(self).width,
                self.height == old(self).height,
                self@.len() == old(self)@.len(),
                x <= xx,
                xx <= x + w || xx == x,
                0 <= x,
                x + w <= self.width,
                0 <= y < self.height,
                forall|x0: int, c: int|
                    #![trigger pix_index(self.width as int, x0, y as int), color@[c]]
                    x <= x0 < xx && 0 <= c < 4 ==> self@[pix_index(
                        self.width as int,
                        x0,
                        y as int,
                    ) + c] == color@[c],
                forall|k: int|
                    0 <= k < old(self)@.len() && !(pix_index(self.width as int, x as int, y as int)
                        <= k < pix_index(self.width as int, xx as int, y as int)) ==> self@[k]
                        == old(self)@[k],
            decreases x + w - xx,
        {
            let ghost pre = self@;
            self.set_pix(xx, y, color);
            proof {
                let w0 = self.width as int;
                assert(pix_index(w0, xx as int + 1, y as int) == pix_index(w0, xx as int, y as int)
                    + 4);
                assert forall|x0: int, c: int|
                    #![trigger pix_index(w0, x0, y as int), color@[c]]
                    x <= x0 < xx + 1 && 0 <= c < 4 implies self@[pix_index(w0, x0, y as int) + c]
                    == color@[c] by {
                    lemma_pix_index_bounds(w0, self.height as int, x0, y as int);
                    lemma_pix_index_bounds(w0, self.height as int, xx as int, y as int);
                    if x0 < xx {
                        assert(pix_index(w0, x0, y as int) + c < pix_index(w0, xx as int, y as int));
                        assert(self@[pix_index(w0, x0, y as int) + c] == pre[pix_index(
                            w0,
                            x0,
                            y as int,
                        ) + c]);
                    }
                }
                assert forall|k: int|
                    0 <= k < old(self)@.len() && !(pix_index(w0, x as int, y as int) <= k
                        < pix_index(w0, xx as int + 1, y as int)) implies self@[k] == old(self)@[k]
                    by {
                    lemma_pix_index_bounds(w0, self.height as int, x as int, y as int);
                    lemma_pix_index_bounds(w0, self.height as int, xx as int, y as int);
                    assert(!(pix_index(w0, xx as int, y as int) <= k < pix_index(
                        w0,
                        xx as int,
                        y as int,
                    ) + 4));
                    assert(self@[k] == pre[k]);
                }
            }
            xx += 1;
        }
    }

    /// Fills an axis-aligned pixel box with a colour.
    pub fn fill_box(&mut self, x: i32, y: i32, w: i32, h: i32, color: [u8; 4])
        requires
            old(self).wf(),
            0 <= x,
            x + w <= old(self).width,
            0 <= y,
            y + h <= old(self).height,
        ensures
            final(self).wf(),
            final(self).width == old(self).width,
            final(self).height == old(self).height,
            final(self)@.len() == old(self)@.len(),
            forall|xx: int, yy: int, c: int|
                #![trigger pix_index(old(self).width as int, xx, yy), color@[c]]
                x <= xx < x + w && y <= yy < y + h && 0 <= c < 4 ==> final(self)@[pix_index(
                    old(self).width as int,
                    xx,
                    yy,
                ) + c] == color@[c],
            box_frame(
                old(self)@,
                final(self)@,
                old(self).width as int,
                old(self).height as int,
                x as int,
                y as int,
                w as int,
                h as int,
            ),
    {
        let mut yy: i32 = y;
        while yy < y + h
            invariant
                self.wf(),
                self.width == old(self).width,
                self.height == old(self).height,
                self@.len() == old(self)@.len(),
                y <= yy,
                yy <= y + h || yy == y,
                0 <= x,
                x + w <= self.width,
                0 <= y,
                y + h <= self.height,
                forall|x0: int, y0: int, c: int|
                    #![trigger pix_index(self.width as int, x0, y0), color@[c]]
                    x <= x0 < x + w && y <= y0 < yy && 0 <= c < 4 ==> self@[pix_index(
                        self.width as int,
                        x0,
                        y0,
                    ) + c] == color@[c],
                box_frame(
                    old(self)@,
                    self@,
                    old(self).width as int,
                    old(self).height as int,
                    x as int,
                    y as int,
                    w as int,
                    yy - y,
                ),
            decreases y + h - yy,
        {
            let ghost pre = self@;
            let row = yy;
            self.hline(x, row, w, color);
            yy += 1;
            proof {
                assert forall|x0: int, y0: int, c: int|
                    #![trigger pix_index(self.width as int, x0, y0), color@[c]]
                    x <= x0 < x + w && y <= y0 < yy && 0 <= c < 4 implies self@[pix_index(
                    self.width as int,
                    x0,
                    y0,
                ) + c] == color@[c] by {
                    if y0 < row {
                        lemma_pix_rows_disjoint(
                            self.width as int,
                            self.height as int,
                            x0,
                            y0,
                            x as int,
                            x as int + w,
                            row as int,
                        );
                        let k = pix_index(self.width as int, x0, y0) + c;
                        assert(!(pix_index(self.width as int, x as int, row as int) <= k
                            < pix_index(self.width as int, x as int + w, row as int)));
                        lemma_pix_index_bounds(
                            self.width as int,
                            self.height as int,
                            x0,
                            y0,
                        );
                        assert(self@[k] == pre[k]);
                    }
                }
                assert(box_frame(
                    old(self)@,
                    self@,
                    old(self).width as int,
                    old(self).height as int,
                    x as int,
                    y as int,
                    w as int,
                    yy - y,
                )) by {
                    assert forall|x0: int, y0: int, c: int|
                        0 <= x0 < old(self).width && 0 <= y0 < old(self).height && !(x <= x0 < x
                            + w && y <= y0 < y + (yy - y)) && 0 <= c
                            < 4 implies #[trigger] channel_at(
                        self@,
                        old(self).width as int,
                        x0,
                        y0,
                        c,
                    ) == channel_at(old(self)@, old(self).width as int, x0, y0, c) by {
                        let k = pix_index(self.width as int, x0, y0) + c;
                        assert(pix_index(old(self).width as int, x0, y0) == pix_index(
                            self.width as int,
                            x0,
                            y0,
                        ));
                        lemma_pix_index_bounds(self.width as int, self.height as int, x0, y0);
                        if w <= 0 {
                            assert(!(pix_index(self.width as int, x as int, row as int) <= k
                                < pix_index(self.width as int, x as int + w, row as int)));
                        } else if y0 != row {
                            lemma_pix_rows_disjoint(
                                self.width as int,
                                self.height as int,
                                x0,
                                y0,
                                x as int,
                                x as int + w,
                                row as int,
                            );
                            assert(!(pix_index(self.width as int, x as int, row as int) <= k
                                < pix_index(self.width as int, x as int + w, row as int)));
                        } else {
                            assert(!(x <= x0 < x + w));
                            assert(!(pix_index(self.width as int, x as int, row as int) <= k
                                < pix_index(self.width as int, x as int + w, row as int)));
                        }
                        assert(self@[k] == pre[k]);
                        assert(channel_at(pre, old(self).width as int, x0, y0, c) == channel_at(
                            old(self)@,
                            old(self).width as int,
                            x0,
                            y0,
                            c,
                        ));
                    }
                }
            }
        }
        proof {
            assert(box_frame(
                old(self)@,
                self@,
                old(self).width as int,
                old(self).height as int,
                x as int,
                y as int,
                w as int,
                h as int,
            )) by {
                if h <= 0 || yy != y + h {
                    assert forall|xx: int, yy0: int, c: int|
                        0 <= xx < old(self).width && 0 <= yy0 < old(self).height && !(x <= xx < x
                            + w && y <= yy0 < y + h) && 0 <= c < 4 implies #[trigger] channel_at(
                        self@,
                        old(self).width as int,
                        xx,
                        yy0,
                        c,
                    ) == channel_at(old(self)@, old(self).width as int, xx, yy0, c) by {
                        assert(channel_at(self@, old(self).width as int, xx, yy0, c)
                            == channel_at(old(self)@, old(self).width as int, xx, yy0, c));
                    }
                }
            }
        }
    }

    /// Averages each channel over a pixel region, clipped at the right
    /// and bottom buffer edges.
    pub fn sample_region(&self, xp: i32, yp: i32, width: i32, height: i32) -> (r: [u8; 4])
        requires
            self.wf(),
            0 <= xp < self.width,
            0 <= yp < self.height,
            1 <= width,
            1 <= height,
            width * height <= 0xFFFF,
        ensures
            ({
                let cw = if xp + width < self.width {
                    width as int
                } else {
                    self.width - xp
                };
                let ch = if yp + height < self.height {
                    height as int
                } else {
                    self.height - yp
                };
                forall|c: int|
                    0 <= c < 4 ==> r@[c] == rect_sum(
                        self@,
                        self.width as int,
                        xp as int,
                        yp as int,
                        c,
                        cw,
                        ch,
                    ) / (cw * ch)
            }),
    {
        proof {
            assert(width <= 0xFFFF && height <= 0xFFFF) by (nonlinear_arith)
                requires
                    1 <= width,
                    1 <= height,
                    width * height <= 0xFFFF,
            ;
        }
        let mut r: u32 = 0;
        let mut g: u32 = 0;
        let mut b: u32 = 0;
        let mut a: u32 = 0;

        // clipping
        let w = if xp + width < self.width {
            width
        } else {
            self.width - xp
        };
        let h = if yp + height < self.height {
            height
        } else {
            self.height - yp
        };

        let ghost gw = self.width as int;
        proof {
            assert(w as int * (h as int) <= width as int * (height as int)) by (nonlinear_arith)
                requires
                    1 <= w <= width,
                    1 <= h <= height,
            ;
        }
        let mut y: i32 = 0;
        while y < h
            invariant
                self.wf(),
                gw == self.width,
                0 <= xp < self.width,
                0 <= yp < self.height,
                1 <= w,
                xp + w <= self.width,
                1 <= h,
                yp + h <= self.height,
                w <= 16384,
                h <= 16384,
                w * h <= 0xFFFF,
                0 <= y <= h,
                r == rect_sum(self@, gw, xp as int, yp as int, 0, w as int, y as int),
                g == rect_sum(self@, gw, xp as int, yp as int, 1, w as int, y as int),
                b == rect_sum(self@, gw, xp as int, yp as int, 2, w as int, y as int),
                a == rect_sum(self@, gw, xp as int, yp as int, 3, w as int, y as int),
            decreases h - y,
        {
            let mut x: i32 = 0;
            while x < w
                invariant
                    self.wf(),
                    gw == self.width,
                    0 <= xp < self.width,
                    0 <= yp < self.height,
                    1 <= w,
                    xp + w <= self.width,
                    1 <= h,
                    yp + h <= self.height,
                    w <= 16384,
                    h <= 16384,
                    0 <= y < h,
                    0 <= x <= w,
                    r == rect_sum(self@, gw, xp as int, yp as int, 0, w as int, y as int)
                        + row_sum(self@, gw, yp + y, xp as int, 0, x as int),
                    g == rect_sum(self@, gw, xp as int, yp as int, 1, w as int, y as int)
                        + row_sum(self@, gw, yp + y, xp as int, 1, x as int),
                    b == rect_sum(self@, gw, xp as int, yp as int, 2, w as int, y as int)
                        + row_sum(self@, gw, yp + y, xp as int, 2, x as int),
                    a == rect_sum(self@, gw, xp as int, yp as int, 3, w as int, y as int)
                        + row_sum(self@, gw, yp + y, xp as int, 3, x as int),
                    w * h <= 0xFFFF,
                decreases w - x,
            {
                proof {
                    lemma_pix_index_bounds(gw, self.height as int, xp as int + x, yp as int + y);
                    lemma_row_sum_bound(self@, gw, yp + y, xp as int, 0, x as int);
                    lemma_row_sum_bound(self@, gw, yp + y, xp as int, 1, x as int);
                    lemma_row_sum_bound(self@, gw, yp + y, xp as int, 2, x as int);
                    lemma_row_sum_bound(self@, gw, yp + y, xp as int, 3, x as int);
                    lemma_rect_sum_bound(self@, gw, xp as int, yp as int, 0, w as int, y as int);
                    lemma_rect_sum_bound(self@, gw, xp as int, yp as int, 1, w as int, y as int);
                    lemma_rect_sum_bound(self@, gw, xp as int, yp as int, 2, w as int, y as int);
                    lemma_rect_sum_bound(self@, gw, xp as int, yp as int, 3, w as int, y as int);
                    assert(255 * (w as int) * (y as int) + 255 * (x as int) + 255 <= 255
                        * 0xFFFF) by (nonlinear_arith)
                        requires
                            0 <= x < w,
                            0 <= y < h,
                            1 <= w,
                            1 <= h,
                            w as int * (h as int) <= 0xFFFF,
                    ;
                }
                let dpos: usize = (((y + yp) * self.width + (x + xp)) * 4) as usize;
                r += self.buffer[dpos] as u32;
                g += self.buffer[dpos + 1] as u32;
                b += self.buffer[dpos + 2] as u32;
                a += self.buffer[dpos + 3] as u32;
                x += 1;
            }
            proof {
                assert(rect_sum(self@, gw, xp as int, yp as int, 0, w as int, y as int + 1)
                    == rect_sum(self@, gw, xp as int, yp as int, 0, w as int, y as int) + row_sum(
                    self@,
                    gw,
                    yp + y,
                    xp as int,
                    0,
                    w as int,
                ));
            }
            y += 1;
        }

        proof {
            assert(w as int * (h as int) >= 1) by (nonlinear_arith)
                requires
                    1 <= w,
                    1 <= h,
            ;
        }
        let samples = (w * h) as u32;
        proof {
            lemma_rect_sum_bound(self@, gw, xp as int, yp as int, 0, w as int, h as int);
            lemma_rect_sum_bound(self@, gw, xp as int, yp as int, 1, w as int, h as int);
            lemma_rect_sum_bound(self@, gw, xp as int, yp as int, 2, w as int, h as int);
            lemma_rect_sum_bound(self@, gw, xp as int, yp as int, 3, w as int, h as int);
            assert forall|c: int| 0 <= c < 4 implies rect_sum(
                self@,
                gw,
                xp as int,
                yp as int,
                c,
                w as int,
                h as int,
            ) / (w as int * (h as int)) <= 255 by {
                let t = rect_sum(self@, gw, xp as int, yp as int, c, w as int, h as int);
                if 0 <= c < 4 {
                    lemma_rect_sum_bound(self@, gw, xp as int, yp as int, c, w as int, h as int);
                    assert(t / (w as int * (h as int)) <= 255) by (nonlinear_arith)
                        requires
                            1 <= w as int * (h as int),
                            0 <= t,
                            t <= 255 * (w as int) * (h as int),
                    ;
                }
            }
        }
        [(r / samples) as u8, (g / samples) as u8, (b / samples) as u8, (a / samples) as u8]
    }

    /// One horizontal span of the circle rasteriser: fills the run,
    /// stays inside the circle's bounding box, and keeps or completes
    /// the centre row.
    fn circle_span(
        &mut self,
        x0: i32,
        row: i32,
        w0: i32,
        color: [u8; 4],
        Ghost(base): Ghost<Seq<u8>>,
        Ghost(xc): Ghost<int>,
        Ghost(yc): Ghost<int>,
        Ghost(radius): Ghost<int>,
    )
        requires
            old(self).wf(),
            0 <= radius,
            radius <= xc,
            xc + radius < old(self).width,
            radius <= yc,
            yc + radius < old(self).height,
            xc - radius <= x0,
            0 <= w0,
            x0 + w0 <= xc + radius + 1,
            yc - radius <= row <= yc + radius,
            base.len() == old(self)@.len(),
            box_frame(
                base,
                old(self)@,
                old(self).width as int,
                old(self).height as int,
                xc - radius,
                yc - radius,
                2 * radius + 1,
                2 * radius + 1,
            ),
            centre_ready(
                old(self)@,
                old(self).width as int,
                yc,
                xc - radius,
                xc + radius,
                row as int,
                x0 as int,
                w0 as int,
                color,
            ),
        ensures
            final(self).wf(),
            final(self).width == old(self).width,
            final(self).height == old(self).height,
            final(self)@.len() == old(self)@.len(),
            box_frame(
                base,
                final(self)@,
                old(self).width as int,
                old(self).height as int,
                xc - radius,
                yc - radius,
                2 * radius + 1,
                2 * radius + 1,
            ),
            row_filled(
                final(self)@,
                old(self).width as int,
                yc,
                xc - radius,
                xc + radius,
                color,
            ),
    {
        let ghost pre = self@;
        let ghost gw = old(self).width as int;
        let ghost gh = old(self).height as int;
        self.hline(x0, row, w0, color);
        proof {
            // everything outside the bounding box is untouched
            assert forall|xx: int, yy: int, c: int|
                0 <= xx < gw && 0 <= yy < gh && !(xc - radius <= xx < xc - radius + (2 * radius
                    + 1) && yc - radius <= yy < yc - radius + (2 * radius + 1)) && 0 <= c
                    < 4 implies #[trigger] channel_at(self@, gw, xx, yy, c) == channel_at(
                base,
                gw,
                xx,
                yy,
                c,
            ) by {
                let k = pix_index(gw, xx, yy) + c;
                lemma_pix_index_bounds(gw, gh, xx, yy);
                if yy != row {
                    lemma_pix_rows_disjoint(gw, gh, xx, yy, x0 as int, x0 as int + w0, row as int);
                    assert(!(pix_index(gw, x0 as int, row as int) <= k < pix_index(
                        gw,
                        x0 as int + w0,
                        row as int,
                    )));
                } else {
                    assert(!(x0 <= xx < x0 + w0));
                    assert(!(pix_index(gw, x0 as int, row as int) <= k < pix_index(
                        gw,
                        x0 as int + w0,
                        row as int,
                    )));
                }
                assert(self@[k] == pre[k]);
                assert(channel_at(pre, gw, xx, yy, c) == channel_at(base, gw, xx, yy, c));
            }
            // the centre row either keeps its colour or has just been
            // painted with it
            assert forall|xx: int, c: int|
                xc - radius <= xx <= xc + radius && 0 <= c < 4 implies #[trigger] channel_at(
                self@,
                gw,
                xx,
                yc,
                c,
            ) == color@[c] by {
                let k = pix_index(gw, xx, yc) + c;
                lemma_pix_index_bounds(gw, gh, xx, yc);
                if row == yc && x0 <= xx < x0 + w0 {
                    assert(self@[pix_index(gw, xx, row as int) + c] == color@[c]);
                } else {
                    if yc != row {
                        lemma_pix_rows_disjoint(
                            gw,
                            gh,
                            xx,
                            yc,
                            x0 as int,
                            x0 as int + w0,
                            row as int,
                        );
                        assert(!(pix_index(gw, x0 as int, row as int) <= k < pix_index(
                            gw,
                            x0 as int + w0,
                            row as int,
                        )));
                    } else {
                        assert(!(x0 <= xx < x0 + w0));
                        assert(!(pix_index(gw, x0 as int, row as int) <= k < pix_index(
                            gw,
                            x0 as int + w0,
                            row as int,
                        )));
                    }
                    assert(self@[k] == pre[k]);
                    assert(channel_at(pre, gw, xx, yc, c) == color@[c]);
                }
            }
        }
    }

    /// Fills a circle of the given radius around a centre point, one
    /// horizontal line per scanline, each scanline painted only once.
    pub fn fill_circle(&mut self, xc: i32, yc: i32, radius: i32, color: [u8; 4])
        requires
            old(self).wf(),
            0 <= radius,
            radius <= xc,
            xc + radius < old(self).width,
            radius <= yc,
            yc + radius < old(self).height,
        ensures
            final(self).wf(),
            final(self).width == old(self).width,
            final(self).height == old(self).height,
            final(self)@.len() == old(self)@.len(),
            box_frame(
                old(self)@,
                final(self)@,
                old(self).width as int,
                old(self).height as int,
                xc - radius,
                yc - radius,
                2 * radius + 1,
                2 * radius + 1,
            ),
            row_filled(
                final(self)@,
                old(self).width as int,
                yc as int,
                xc - radius,
                xc + radius,
                color,
            ),
    {
        proof {
            assert(radius < 16384);
        }
        let ghost base = self@;
        let ghost gw = old(self).width as int;
        let mut f: i32 = 1 - radius;
        let mut ddf_x: i32 = 1;
        let mut ddf_y: i32 = 0 - 2 * radius;
        let mut x: i32 = 0;
        let mut y: i32 = radius;

        // one mark per scanline offset, so no line is drawn twice
        let mut line_marks: Vec<bool> = Vec::new();
        let mut k: usize = 0;
        let marks_len: usize = radius as usize + 1;
        while k < marks_len
            invariant
                line_marks@.len() == k,
                k <= marks_len,
            decreases marks_len - k,
        {
            line_marks.push(false);
            k += 1;
        }

        proof {
            // nothing has been painted yet
            assert(box_frame(
                base,
                self@,
                gw,
                old(self).height as int,
                xc - radius,
                yc - radius,
                2 * radius + 1,
                2 * radius + 1,
            ));
        }
        self.circle_span(
            xc - radius,
            yc,
            radius + radius + 1,
            color,
            Ghost(base),
            Ghost(xc as int),
            Ghost(yc as int),
            Ghost(radius as int),
        );

        while x < y
            invariant
                self.wf(),
                self.width == old(self).width,
                self.height == old(self).height,
                self@.len() == old(self)@.len(),
                base == old(self)@,
                gw == old(self).width,
                line_marks@.len() == radius + 1,
                0 <= x,
                0 <= y,
                x <= y + 1,
                y <= radius,
                radius <= xc,
                xc + radius < self.width,
                radius <= yc,
                yc + radius < self.height,
                ddf_x == 2 * x + 1,
                ddf_y == -2 * y,
                -(2 * radius + 2) <= f,
                f <= 2 * x + 6 || x >= y,
                box_frame(
                    base,
                    self@,
                    gw,
                    old(self).height as int,
                    xc - radius,
                    yc - radius,
                    2 * radius + 1,
                    2 * radius + 1,
                ),
                row_filled(self@, gw, yc as int, xc - radius, xc + radius, color),
            decreases y - x + 1,
        {
            if f >= 0 {
                y = y - 1;
                ddf_y = ddf_y + 2;
                f = f + ddf_y;
            }
            x = x + 1;
            ddf_x = ddf_x + 2;
            f = f + ddf_x;

            if !line_marks[y as usize] {
                self.circle_span(
                    xc - x,
                    yc + y,
                    x + x,
                    color,
                    Ghost(base),
                    Ghost(xc as int),
                    Ghost(yc as int),
                    Ghost(radius as int),
                );
                self.circle_span(
                    xc - x,
                    yc - y,
                    x + x,
                    color,
                    Ghost(base),
                    Ghost(xc as int),
                    Ghost(yc as int),
                    Ghost(radius as int),
                );
                line_marks.set(y as usize, true);
            }

            if !line_marks[x as usize] {
                self.circle_span(
                    xc - y,
                    yc + x,
                    y + y,
                    color,
                    Ghost(base),
                    Ghost(xc as int),
                    Ghost(yc as int),
                    Ghost(radius as int),
                );
                self.circle_span(
                    xc - y,
                    yc - x,
                    y + y,
                    color,
                    Ghost(base),
                    Ghost(xc as int),
                    Ghost(yc as int),
                    Ghost(radius as int),
                );
                line_marks.set(x as usize, true);
            }
        }
    }

    /// Writes one pixel and records that no other pixel changed.
    fn dot(&mut self, x: i32, y: i32, color: [u8; 4])
        requires
            old(self).wf(),
            0 <= x < old(self).width,
            0 <= y < old(self).height,
        ensures
            final(self).wf(),
            final(self).width == old(self).width,
            final(self).height == old(self).height,
            final(self)@.len() == old(self)@.len(),
            forall|c: int|
                0 <= c < 4 ==> #[trigger] channel_at(
                    final(self)@,
                    old(self).width as int,
                    x as int,
                    y as int,
                    c,
                ) == color@[c],
            pix_frame(
                old(self)@,
                final(self)@,
                old(self).width as int,
                old(self).height as int,
                x as int,
                y as int,
                0,
            ),
    {
        self.set_pix(x, y, color);
        proof {
            assert forall|xx: int, yy: int, c: int|
                0 <= xx < old(self).width && 0 <= yy < old(self).height && !(x - 0 <= xx <= x + 0
                    && y - 0 <= yy <= y + 0) && 0 <= c < 4 implies #[trigger] channel_at(
                self@,
                old(self).width as int,
                xx,
                yy,
                c,
            ) == channel_at(old(self)@, old(self).width as int, xx, yy, c) by {
                lemma_pix_cells_disjoint(
                    old(self).width as int,
                    old(self).height as int,
                    xx,
                    yy,
                    x as int,
                    y as int,
                );
                lemma_pix_index_bounds(
                    old(self).width as int,
                    old(self).height as int,
                    xx,
                    yy,
                );
            }
        }
    }

    /// Draws a vector ball: a size-graded star or box of shaded pixels
    /// around a centre point. Only pixels within Chebyshev distance two
    /// of the centre are touched — none at all for size zero, only the
    /// centre itself for sizes up to three.
    pub fn vball(&mut self, x: i32, y: i32, size: i32, color: [u8; 4])
        requires
            old(self).wf(),
            0 <= size <= 7,
            1 <= size ==> 0 <= x < old(self).width && 0 <= y < old(self).height,
            4 <= size ==> x + 1 < old(self).width && y + 1 < old(self).height,
            5 <= size ==> 1 <= x && 1 <= y,
            size == 7 ==> 2 <= x && x + 2 < old(self).width && 2 <= y && y + 2 < old(self).height,
        ensures
            final(self).wf(),
            final(self).width == old(self).width,
            final(self).height == old(self).height,
            final(self)@.len() == old(self)@.len(),
            size == 0 ==> final(self)@ == old(self)@,
            1 <= size ==> pix_frame(
                old(self)@,
                final(self)@,
                old(self).width as int,
                old(self).height as int,
                x as int,
                y as int,
                if size <= 3 {
                    0int
                } else if size <= 6 {
                    1int
                } else {
                    2int
                },
            ),
            3 <= size ==> forall|c: int|
                0 <= c < 4 ==> #[trigger] channel_at(
                    final(self)@,
                    old(self).width as int,
                    x as int,
                    y as int,
                    c,
                ) == color@[c],
            size == 1 || size == 2 ==> {
                let amount = if size == 1 {
                    128int
                } else {
                    192int
                };
                &&& channel_at(final(self)@, old(self).width as int, x as int, y as int, 0)
                    == color@[0] * amount / 256
                &&& channel_at(final(self)@, old(self).width as int, x as int, y as int, 1)
                    == color@[1] * amount / 256
                &&& channel_at(final(self)@, old(self).width as int, x as int, y as int, 2)
                    == color@[2] * amount / 256
                &&& channel_at(final(self)@, old(self).width as int, x as int, y as int, 3)
                    == color@[3]
            },
        decreases size,
{
        let ghost gw = old(self).width as int;
        let ghost gh = old(self).height as int;
        if size == 0 {
            // nothing to draw
        } else if size == 1 {
            // darkened pixel
            self.dot(x, y, shade(color, 128));
        } else if size == 2 {
            self.dot(x, y, shade(color, 192));
        } else if size == 3 {
            // one full pixel
            self.dot(x, y, color);
        } else if size == 4 {
            // half star
            self.dot(x, y, color);
            let ghost f1 = self@;
            let c2 = shade(color, 192);
            self.dot(x + 1, y, c2);
            let ghost f2 = self@;
            self.dot(x, y + 1, c2);
            proof {
                lemma_pix_frame_compose(old(self)@, f1, f2, gw, gh, x as int, y as int, 0, x as int
                    + 1, y as int, 0, x as int, y as int, 1);
                lemma_pix_frame_compose(old(self)@, f2, self@, gw, gh, x as int, y as int, 1,
                    x as int, y as int + 1, 0, x as int, y as int, 1);
                lemma_pix_frame_keep(f1, f2, gw, gh, x as int + 1, y as int, x as int, y as int);
                lemma_pix_frame_keep(f2, self@, gw, gh, x as int, y as int + 1, x as int, y as int);
            }
        } else if size == 5 {
            // star shape, centre is brightest
            self.dot(x, y, color);
            let ghost f1 = self@;
            let c1 = shade(color, 224);
            self.dot(x - 1, y, c1);
            let ghost f2 = self@;
            self.dot(x, y - 1, c1);
            let ghost f3 = self@;
            let c2 = shade(color, 192);
            self.dot(x + 1, y, c2);
            let ghost f4 = self@;
            self.dot(x, y + 1, c2);
            proof {
                lemma_pix_frame_compose(old(self)@, f1, f2, gw, gh, x as int, y as int, 0, x as int
                    - 1, y as int, 0, x as int, y as int, 1);
                lemma_pix_frame_compose(old(self)@, f2, f3, gw, gh, x as int, y as int, 1, x as int,
                    y as int - 1, 0, x as int, y as int, 1);
                lemma_pix_frame_compose(old(self)@, f3, f4, gw, gh, x as int, y as int, 1, x as int
                    + 1, y as int, 0, x as int, y as int, 1);
                lemma_pix_frame_compose(old(self)@, f4, self@, gw, gh, x as int, y as int, 1,
                    x as int, y as int + 1, 0, x as int, y as int, 1);
                lemma_pix_frame_keep(f1, f2, gw, gh, x as int - 1, y as int, x as int, y as int);
                lemma_pix_frame_keep(f2, f3, gw, gh, x as int, y as int - 1, x as int, y as int);
                lemma_pix_frame_keep(f3, f4, gw, gh, x as int + 1, y as int, x as int, y as int);
                lemma_pix_frame_keep(f4, self@, gw, gh, x as int, y as int + 1, x as int, y as int);
            }
        } else if size == 6 {
            // 3x3 box shape, centre is brightest
            self.dot(x, y, color);
            let ghost f1 = self@;
            let c1 = shade(color, 224);
            self.dot(x - 1, y, c1);
            let ghost f2 = self@;
            self.dot(x, y - 1, c1);
            let ghost f3 = self@;
            let c2 = shade(color, 192);
            self.dot(x + 1, y, c2);
            let ghost f4 = self@;
            self.dot(x, y + 1, c2);
            let ghost f5 = self@;
            self.dot(x - 1, y - 1, c2);
            let ghost f6 = self@;
            let c3 = shade(color, 160);
            self.dot(x + 1, y - 1, c3);
            let ghost f7 = self@;
            self.dot(x - 1, y + 1, c3);
            let ghost f8 = self@;
            self.dot(x + 1, y + 1, c3);
            proof {
                lemma_pix_frame_compose(old(self)@, f1, f2, gw, gh, x as int, y as int, 0, x as int
                    - 1, y as int, 0, x as int, y as int, 1);
                lemma_pix_frame_compose(old(self)@, f2, f3, gw, gh, x as int, y as int, 1, x as int,
                    y as int - 1, 0, x as int, y as int, 1);
                lemma_pix_frame_compose(old(self)@, f3, f4, gw, gh, x as int, y as int, 1, x as int
                    + 1, y as int, 0, x as int, y as int, 1);
                lemma_pix_frame_compose(old(self)@, f4, f5, gw, gh, x as int, y as int, 1, x as int,
                    y as int + 1, 0, x as int, y as int, 1);
                lemma_pix_frame_compose(old(self)@, f5, f6, gw, gh, x as int, y as int, 1, x as int
                    - 1, y as int - 1, 0, x as int, y as int, 1);
                lemma_pix_frame_compose(old(self)@, f6, f7, gw, gh, x as int, y as int, 1, x as int
                    + 1, y as int - 1, 0, x as int, y as int, 1);
                lemma_pix_frame_compose(old(self)@, f7, f8, gw, gh, x as int, y as int, 1, x as int
                    - 1, y as int + 1, 0, x as int, y as int, 1);
                lemma_pix_frame_compose(old(self)@, f8, self@, gw, gh, x as int, y as int, 1,
                    x as int + 1, y as int + 1, 0, x as int, y as int, 1);
                lemma_pix_frame_keep(f1, f2, gw, gh, x as int - 1, y as int, x as int, y as int);
                lemma_pix_frame_keep(f2, f3, gw, gh, x as int, y as int - 1, x as int, y as int);
                lemma_pix_frame_keep(f3, f4, gw, gh, x as int + 1, y as int, x as int, y as int);
                lemma_pix_frame_keep(f4, f5, gw, gh, x as int, y as int + 1, x as int, y as int);
                lemma_pix_frame_keep(f5, f6, gw, gh, x as int - 1, y as int - 1, x as int, y as int);
                lemma_pix_frame_keep(f6, f7, gw, gh, x as int + 1, y as int - 1, x as int, y as int);
                lemma_pix_frame_keep(f7, f8, gw, gh, x as int - 1, y as int + 1, x as int, y as int);
                lemma_pix_frame_keep(f8, self@, gw, gh, x as int + 1, y as int + 1, x as int, y as int);
            }
        } else {
            // a box-shape base with four more star ray dots
            self.vball(x, y, 6, color);
            let ghost f1 = self@;
            let c1 = shade(color, 128);
            self.dot(x - 2, y, c1);
            let ghost f2 = self@;
            self.dot(x + 2, y, c1);
            let ghost f3 = self@;
            self.dot(x, y - 2, c1);
            let ghost f4 = self@;
            self.dot(x, y + 2, c1);
            proof {
                lemma_pix_frame_compose(old(self)@, f1, f2, gw, gh, x as int, y as int, 1, x as int
                    - 2, y as int, 0, x as int, y as int, 2);
                lemma_pix_frame_compose(old(self)@, f2, f3, gw, gh, x as int, y as int, 2, x as int
                    + 2, y as int, 0, x as int, y as int, 2);
                lemma_pix_frame_compose(old(self)@, f3, f4, gw, gh, x as int, y as int, 2, x as int,
                    y as int - 2, 0, x as int, y as int, 2);
                lemma_pix_frame_compose(old(self)@, f4, self@, gw, gh, x as int, y as int, 2,
                    x as int, y as int + 2, 0, x as int, y as int, 2);
                lemma_pix_frame_keep(f1, f2, gw, gh, x as int - 2, y as int, x as int, y as int);
                lemma_pix_frame_keep(f2, f3, gw, gh, x as int + 2, y as int, x as int, y as int);
                lemma_pix_frame_keep(f3, f4, gw, gh, x as int, y as int - 2, x as int, y as int);
                lemma_pix_frame_keep(f4, self@, gw, gh, x as int, y as int + 2, x as int, y as int);
            }
        }
    }
}

/// Sum of one channel over a run of `k` pixels of row `y` starting at
/// `xp`.
pub open spec fn row_sum(buf: Seq<u8>, width: int, y: int, xp: int, c: int, k: int) -> int
    decreases k,
{
    if k <= 0 {
        0
    } else {
        row_sum(buf, width, y, xp, c, k - 1) + buf[pix_index(width, xp + (k - 1), y) + c]
    }
}

/// Sum of one channel over the `w` by `k` pixel rectangle at
/// `(xp, yp)`.
pub open spec fn rect_sum(
    buf: Seq<u8>,
    width: int,
    xp: int,
    yp: int,
    c: int,
    w: int,
    k: int,
) -> int
    decreases k,
{
    if k <= 0 {
        0
    } else {
        rect_sum(buf, width, xp, yp, c, w, k - 1) + row_sum(buf, width, yp + (k - 1), xp, c, w)
    }
}

/// A channel sum over `k` pixels stays within `255 * k`.
proof fn lemma_row_sum_bound(buf: Seq<u8>, width: int, y: int, xp: int, c: int, k: int)
    requires
        0 <= k,
    ensures
        0 <= row_sum(buf, width, y, xp, c, k) <= 255 * k,
    decreases k,
{
    if k > 0 {
        lemma_row_sum_bound(buf, width, y, xp, c, k - 1);
    }
}

/// A channel sum over a `w` by `k` rectangle stays within `255 * w * k`.
proof fn lemma_rect_sum_bound(buf: Seq<u8>, width: int, xp: int, yp: int, c: int, w: int, k: int)
    requires
        0 <= w,
        0 <= k,
    ensures
        0 <= rect_sum(buf, width, xp, yp, c, w, k) <= 255 * w * k,
    decreases k,
{
    if k > 0 {
        lemma_rect_sum_bound(buf, width, xp, yp, c, w, k - 1);
        lemma_row_sum_bound(buf, width, yp + (k - 1), xp, c, w);
        assert(255 * w * k == 255 * w * (k - 1) + 255 * w) by (nonlinear_arith);
        assert(row_sum(buf, width, yp + (k - 1), xp, c, w) <= 255 * w);
    } else {
        assert(255 * w * k >= 0) by (nonlinear_arith)
            requires
                0 <= w,
                0 <= k,
        ;
    }
}

/// All four channel indices of a pixel are inside the buffer.
proof fn lemma_pix_index_bounds(width: int, height: int, x: int, y: int)
    requires
        0 <= width <= 16384,
        0 <= height <= 16384,
        0 <= x < width,
        0 <= y < height,
    ensures
        0 <= pix_index(width, x, y),
        pix_index(width, x, y) + 4 <= width * height * 4,
        0 <= y * width,
        y * width + x < width * height,
        y * width + x < 0x1000_0000,
        width * height * 4 <= 0x4000_0000,
{
    assert(0 <= (y * width + x) * 4 && (y * width + x) * 4 + 4 <= width * height * 4 && 0 <= y
        * width && y * width + x < width * height && y * width + x < 0x1000_0000 && width * height
        * 4 <= 0x4000_0000) by (nonlinear_arith)
        requires
            0 <= width <= 16384,
            0 <= height <= 16384,
            0 <= x < width,
            0 <= y < height,
    ;
}

/// Pixel runs on different rows use disjoint buffer indices.
proof fn lemma_pix_rows_disjoint(
    width: int,
    height: int,
    x0: int,
    y0: int,
    lo: int,
    hi: int,
    row: int,
)
    requires
        0 <= width,
        0 <= x0 < width,
        0 <= lo <= hi <= width,
        y0 != row,
        0 <= y0,
        0 <= row,
    ensures
        pix_index(width, x0, y0) + 4 <= pix_index(width, lo, row) || pix_index(width, x0, y0)
            >= pix_index(width, hi, row),
{
    if y0 < row {
        assert((y0 * width + x0) * 4 + 4 <= (row * width + lo) * 4) by (nonlinear_arith)
            requires
                0 <= width,
                0 <= x0 < width,
                0 <= lo,
                y0 < row,
                0 <= y0,
        ;
    } else {
        assert((y0 * width + x0) * 4 >= (row * width + hi) * 4) by (nonlinear_arith)
            requires
                0 <= width,
                0 <= x0,
                hi <= width,
                row < y0,
                0 <= row,
        ;
    }
}

/// The result channel of multiplying a channel by a shade factor.
pub open spec fn blend_channel(dst: int, src: int, a: int) -> int {
    (src * a + dst * (255 - a) + 255) / 256
}

/// Darkens the colour channels of a colour by `shade / 256`, keeping
/// its alpha.
pub fn shade(color: [u8; 4], amount: i32) -> (r: [u8; 4])
    requires
        0 <= amount <= 256,
    ensures
        r@[0] == (color@[0] * amount) / 256,
        r@[1] == (color@[1] * amount) / 256,
        r@[2] == (color@[2] * amount) / 256,
        r@[3] == color@[3],
{
    proof {
        assert(0 <= color@[0] as i32 * amount <= 0xFF00 && 0 <= color@[1] as i32 * amount
            <= 0xFF00 && 0 <= color@[2] as i32 * amount <= 0xFF00) by (nonlinear_arith)
            requires
                0 <= amount <= 256,
                0 <= color@[0] as i32 <= 255,
                0 <= color@[1] as i32 <= 255,
                0 <= color@[2] as i32 <= 255,
        ;
    }
    let p0: i32 = color[0] as i32 * amount;
    let p1: i32 = color[1] as i32 * amount;
    let p2: i32 = color[2] as i32 * amount;
    let r = p0 >> 8;
    let g = p1 >> 8;
    let b = p2 >> 8;
    proof {
        assert(p0 >> 8 == p0 / 256 && p0 / 256 <= 255) by (bit_vector)
            requires
                0 <= p0 <= 0xFF00,
        ;
        assert(p1 >> 8 == p1 / 256 && p1 / 256 <= 255) by (bit_vector)
            requires
                0 <= p1 <= 0xFF00,
        ;
        assert(p2 >> 8 == p2 / 256 && p2 / 256 <= 255) by (bit_vector)
            requires
                0 <= p2 <= 0xFF00,
        ;
    }
    [r as u8, g as u8, b as u8, color[3]]
}

/// Multiplies two channel bytes as fractions of 255-ish, by shifting
/// the 16-bit product down eight bits.
pub fn c_imul(a: u8, b: u8) -> (r: u8)
    ensures
        r == (a * b) / 256,
{
    proof {
        assert(a as int * b as int <= 65025) by (nonlinear_arith)
            requires
                a <= 255,
                b <= 255,
        ;
    }
    let c = a as u32 * b as u32;
    proof {
        assert(c >> 8 == c / 256 && c / 256 <= 255) by (bit_vector)
            requires
                c <= 0xFE01,
        ;
    }
    (c >> 8) as u8
}

} // verus!
