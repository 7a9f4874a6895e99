//! Owned RGBA8 bitmaps and the pixel operations the codec needs: blank
//! allocation, clamped paste (overwrite, no blending) and clamped
//! extraction of a rectangle.

use vstd::prelude::*;

verus! {

/// An owned bitmap: raw RGBA8 bytes, row-major, four bytes per pixel.
#[derive(Debug)]
pub struct Image {
    pub width: u32,
    pub height: u32,
    pub pixels: Vec<u8>,
}

/// Byte offset of channel `c` of the pixel at `(x, y)` in a bitmap
/// `w` pixels wide.
pub open spec fn pix_idx(w: int, x: int, y: int, c: int) -> int {
    4 * (y * w + x) + c
}

/// Two distinct in-bounds pixel coordinates never share a byte offset.
pub proof fn lemma_pix_idx_injective(w: int, x1: int, y1: int, c1: int, x2: int, y2: int, c2: int)
    requires
        0 <= x1 < w,
        0 <= x2 < w,
        0 <= y1,
        0 <= y2,
        0 <= c1 < 4,
        0 <= c2 < 4,
        pix_idx(w, x1, y1, c1) == pix_idx(w, x2, y2, c2),
    ensures
        x1 == x2 && y1 == y2 && c1 == c2,
{
    assert(y1 * w + x1 == y2 * w + x2 && c1 == c2) by (nonlinear_arith)
        requires
            0 <= c1 < 4,
            0 <= c2 < 4,
            4 * (y1 * w + x1) + c1 == 4 * (y2 * w + x2) + c2,
    {}
    assert(y1 == y2 && x1 == x2) by (nonlinear_arith)
        requires
            0 <= x1 < w,
            0 <= x2 < w,
            0 <= y1,
            0 <= y2,
            y1 * w + x1 == y2 * w + x2,
    {}
}

/// Every in-bounds coordinate addresses a byte inside the buffer.
pub proof fn lemma_pix_idx_bounds(w: int, h: int, x: int, y: int, c: int)
    requires
        0 <= x < w,
        0 <= y < h,
        0 <= c < 4,
    ensures
        0 <= pix_idx(w, x, y, c) < 4 * (w * h),
{
    assert(0 <= 4 * (y * w + x) + c < 4 * (w * h)) by (nonlinear_arith)
        requires
            0 <= x < w,
            0 <= y < h,
            0 <= c < 4,
    {}
}

/// Compute the byte offset of a pixel channel, proved in bounds for a
/// buffer of exactly `len == 4 * w * h` bytes.
fn byte_index(w: u32, h: u32, x: u32, y: u32, c: u32, len: usize) -> (i: usize)
    requires
        x < w,
        y < h,
        c < 4,
        len == 4 * ((w as int) * (h as int)),
    ensures
        i == pix_idx(w as int, x as int, y as int, c as int),
        i < len,
{
    proof {
        lemma_pix_idx_bounds(w as int, h as int, x as int, y as int, c as int);
        assert((y as int) * (w as int) + (x as int) < (w as int) * (h as int))
            by (nonlinear_arith)
            requires
                0 <= (x as int) < (w as int),
                0 <= (y as int) < (h as int),
        {}
        assert((y as int) * (w as int) >= 0) by (nonlinear_arith)
            requires
                0 <= (y as int),
                0 <= (w as int),
        {}
    }
    4 * ((y as usize) * (w as usize) + (x as usize)) + (c as usize)
}

impl Image {
    /// The buffer holds exactly its `width * height` pixels.
    pub open spec fn wf(self) -> bool {
        self.pixels@.len() == 4 * (self.width * self.height)
    }

    /// Channel `c` of the pixel at `(x, y)`.
    pub open spec fn pixel(self, x: int, y: int, c: int) -> u8 {
        self.pixels@[pix_idx(self.width as int, x, y, c)]
    }

    /// Both images have the same dimensions and the same pixel bytes.
    pub open spec fn same_image(self, other: Image) -> bool {
        self.width == other.width && self.height == other.height && self.pixels@
            == other.pixels@
    }

    /// A fully transparent bitmap; `None` exactly when the buffer would
    /// not fit in `usize`.
    pub fn blank(width: u32, height: u32) -> (r: Option<Image>)
        ensures
            r is Some <==> 4 * ((width as int) * (height as int)) <= usize::MAX,
            r is Some ==> {
                let img = r->Some_0;
                &&& img.width == width
                &&& img.height == height
                &&& img.wf()
                &&& forall|k: int| 0 <= k < img.pixels@.len() ==> img.pixels@[k] == 0u8
            },
    {
        let count = match (width as u64).checked_mul(height as u64) {
            Some(c) => c,
            None => {
                proof {
                    assert((width as int) * (height as int) > u64::MAX) by (nonlinear_arith)
                        requires
                            (width as u64) * (height as u64) > u64::MAX,
                    {}
                }
                return None;
            },
        };
        let bytes = match count.checked_mul(4) {
            Some(b) => b,
            None => {
                return None;
            },
        };
        if bytes > usize::MAX as u64 {
            return None;
        }
        let pixels: Vec<u8> = vec![0u8; bytes as usize];
        Some(Image { width, height, pixels })
    }

    /// Paste `src` over `self` at offset `(x, y)` with overwrite
    /// semantics, clipping `src` to the destination bounds, as
    /// `imageops::replace` does.
    pub fn paste(&mut self, src: &Image, x: u32, y: u32)
        requires
            old(self).wf(),
            src.wf(),
        ensures
            final(self).wf(),
            final(self).width == old(self).width,
            final(self).height == old(self).height,
            final(self).pixels@.len() == old(self).pixels@.len(),
            forall|px: int, py: int, c: int|
                0 <= px < old(self).width && 0 <= py < old(self).height && 0 <= c < 4
                    ==> final(self).pixel(px, py, c) == {
                    if x <= px < x + src.width && y <= py < y + src.height {
                        src.pixel(px - x, py - y, c)
                    } else {
                        old(self).pixel(px, py, c)
                    }
                },
    {
        let cw: u32 = if x >= self.width {
            0
        } else if src.width < self.width - x {
            src.width
        } else {
            self.width - x
        };
        let ch: u32 = if y >= self.height {
            0
        } else if src.height < self.height - y {
            src.height
        } else {
            self.height - y
        };
        let ghost orig = *self;
        let dw = self.width;
        let dh = self.height;
        let mut dy: u32 = 0;
        while dy < ch
            invariant
                0 <= dy <= ch,
                cw <= src.width,
                ch <= src.height,
                cw == 0 || x + cw <= dw,
                ch == 0 || y + ch <= dh,
                orig.wf(),
                src.wf(),
                dw == orig.width,
                dh == orig.height,
                self.width == dw,
                self.height == dh,
                self.pixels@.len() == orig.pixels@.len(),
                forall|px: int, py: int, c: int|
                    0 <= px < dw && 0 <= py < dh && 0 <= c < 4 ==> self.pixel(px, py, c) == {
                        if x <= px < x + cw && y <= py < y + dy {
                            src.pixel(px - x, py - y, c)
                        } else {
                            orig.pixel(px, py, c)
                        }
                    },
            decreases ch - dy,
        {
            let mut dx: u32 = 0;
            while dx < cw
                invariant
                    0 <= dx <= cw,
                    0 <= dy < ch,
                    cw <= src.width,
                    ch <= src.height,
                    cw == 0 || x + cw <= dw,
                    ch == 0 || y + ch <= dh,
                    orig.wf(),
                    src.wf(),
                    dw == orig.width,
                    dh == orig.height,
                    self.width == dw,
                    self.height == dh,
                    self.pixels@.len() == orig.pixels@.len(),
                    forall|px: int, py: int, c: int|
                        0 <= px < dw && 0 <= py < dh && 0 <= c < 4 ==> self.pixel(px, py, c)
                            == {
                            if x <= px < x + cw && y <= py < y + dy {
                                src.pixel(px - x, py - y, c)
                            } else if py == y + dy && x <= px < x + dx {
                                src.pixel(px - x, py - y, c)
                            } else {
                                orig.pixel(px, py, c)
                            }
                        },
                decreases cw - dx,
            {
                let mut c: u32 = 0;
                while c < 4
                    invariant
                        0 <= c <= 4,
                        0 <= dx < cw,
                        0 <= dy < ch,
                        cw <= src.width,
                        ch <= src.height,
                        cw == 0 || x + cw <= dw,
                        ch == 0 || y + ch <= dh,
                        orig.wf(),
                        src.wf(),
                        dw == orig.width,
                        dh == orig.height,
                        self.width == dw,
                        self.height == dh,
                        self.pixels@.len() == orig.pixels@.len(),
                        forall|px: int, py: int, cc: int|
                            0 <= px < dw && 0 <= py < dh && 0 <= cc < 4 ==> self.pixel(
                                px,
                                py,
                                cc,
                            ) == {
                                if x <= px < x + cw && y <= py < y + dy {
                                    src.pixel(px - x, py - y, cc)
                                } else if py == y + dy && x <= px < x + dx {
                                    src.pixel(px - x, py - y, cc)
                                } else if py == y + dy && px == x + dx && cc < c {
                                    src.pixel(px - x, py - y, cc)
                                } else {
                                    orig.pixel(px, py, cc)
                                }
                            },
                    decreases 4 - c,
                {
                    let slen = src.pixels.len();
                    let dlen = self.pixels.len();
                    let si = byte_index(src.width, src.height, dx, dy, c, slen);
                    let di = byte_index(dw, dh, x + dx, y + dy, c, dlen);
                    let v = src.pixels[si];
                    let ghost entry = *self;
                    let ghost prev = self.pixels@;
                    self.pixels.set(di, v);
                    proof {
                        assert forall|px: int, py: int, cc: int|
                            0 <= px < dw && 0 <= py < dh && 0 <= cc < 4 && (px != x + dx || py
                                != y + dy || cc != c) implies pix_idx(dw as int, px, py, cc)
                            != di && self.pixels@[pix_idx(dw as int, px, py, cc)]
                            == prev[pix_idx(dw as int, px, py, cc)] by {
                            if pix_idx(dw as int, px, py, cc) == di {
                                lemma_pix_idx_injective(dw as int, px, py, cc, x + dx, y + dy,
                                    c as int);
                            }
                            lemma_pix_idx_bounds(dw as int, dh as int, px, py, cc);
                        }
                        assert(self.pixels@[di as int] == v);
                        assert forall|px: int, py: int, cc: int|
                            0 <= px < dw && 0 <= py < dh && 0 <= cc < 4 implies self.pixel(
                            px,
                            py,
                            cc,
                        ) == {
                            if x <= px < x + cw && y <= py < y + dy {
                                src.pixel(px - x, py - y, cc)
                            } else if py == y + dy && x <= px < x + dx {
                                src.pixel(px - x, py - y, cc)
                            } else if py == y + dy && px == x + dx && cc < c + 1 {
                                src.pixel(px - x, py - y, cc)
                            } else {
                                orig.pixel(px, py, cc)
                            }
                        } by {
                            lemma_pix_idx_bounds(dw as int, dh as int, px, py, cc);
                            if px == x + dx && py == y + dy && cc == c {
                                assert(self.pixels@[di as int] == v);
                            } else {
                                if pix_idx(dw as int, px, py, cc) == di {
                                    lemma_pix_idx_injective(dw as int, px, py, cc, x + dx,
                                        y + dy, c as int);
                                }
                                assert(self.pixels@[pix_idx(dw as int, px, py, cc)]
                                    == prev[pix_idx(dw as int, px, py, cc)]);
                                assert(self.pixel(px, py, cc) == entry.pixel(px, py, cc));
                            }
                        }
                    }
                    c = c + 1;
                }
                dx = dx + 1;
            }
            dy = dy + 1;
        }
    }

    /// Extract the rectangle `(x, y, w, h)`, clamped to the source
    /// bounds as `DynamicImage::crop` clamps it; the result's dimensions
    /// equal the request only when the rectangle lay fully inside.
    pub fn extract(&self, x: u32, y: u32, w: u32, h: u32) -> (r: Image)
        requires
            self.wf(),
        ensures
            r.wf(),
            r.width == crop_w(self.width as int, x as int, w as int),
            r.height == crop_h(self.height as int, y as int, h as int),
            forall|px: int, py: int, c: int|
                0 <= px < r.width && 0 <= py < r.height && 0 <= c < 4 ==> r.pixel(px, py, c)
                    == self.pixel(crop_x(self.width as int, x as int) + px, crop_y(
                    self.height as int,
                    y as int,
                ) + py, c),
    {
        let cx: u32 = if x < self.width {
            x
        } else {
            self.width
        };
        let cy: u32 = if y < self.height {
            y
        } else {
            self.height
        };
        let cw: u32 = if w < self.width - cx {
            w
        } else {
            self.width - cx
        };
        let ch: u32 = if h < self.height - cy {
            h
        } else {
            self.height - cy
        };
        let mut out: Vec<u8> = Vec::new();
        let mut py: u32 = 0;
        while py < ch
            invariant
                0 <= py <= ch,
                cx + cw <= self.width,
                cy + ch <= self.height,
                self.wf(),
                out@.len() == 4 * (py * cw),
                forall|qx: int, qy: int, c: int|
                    0 <= qx < cw && 0 <= qy < py && 0 <= c < 4 ==> out@[pix_idx(
                        cw as int,
                        qx,
                        qy,
                        c,
                    )] == self.pixel(cx + qx, cy + qy, c),
            decreases ch - py,
        {
            let mut px: u32 = 0;
            while px < cw
                invariant
                    0 <= px <= cw,
                    0 <= py < ch,
                    cx + cw <= self.width,
                    cy + ch <= self.height,
                    self.wf(),
                    out@.len() == 4 * (py * cw) + 4 * px,
                    forall|qx: int, qy: int, c: int|
                        0 <= qx < cw && 0 <= qy < py && 0 <= c < 4 ==> out@[pix_idx(
                            cw as int,
                            qx,
                            qy,
                            c,
                        )] == self.pixel(cx + qx, cy + qy, c),
                    forall|qx: int, c: int|
                        0 <= qx < px && 0 <= c < 4 ==> out@[pix_idx(cw as int, qx, py as int, c)]
                            == self.pixel(cx + qx, cy + py, c),
                decreases cw - px,
            {
                let mut c: u32 = 0;
                while c < 4
                    invariant
                        0 <= c <= 4,
                        0 <= px < cw,
                        0 <= py < ch,
                        cx + cw <= self.width,
                        cy + ch <= self.height,
                        self.wf(),
                        out@.len() == 4 * (py * cw) + 4 * px + c,
                        forall|qx: int, qy: int, cc: int|
                            0 <= qx < cw && 0 <= qy < py && 0 <= cc < 4 ==> out@[pix_idx(
                                cw as int,
                                qx,
                                qy,
                                cc,
                            )] == self.pixel(cx + qx, cy + qy, cc),
                        forall|qx: int, cc: int|
                            0 <= qx < px && 0 <= cc < 4 ==> out@[pix_idx(
                                cw as int,
                                qx,
                                py as int,
                                cc,
                            )] == self.pixel(cx + qx, cy + py, cc),
                        forall|cc: int|
                            0 <= cc < c ==> out@[pix_idx(cw as int, px as int, py as int, cc)]
                                == self.pixel(cx + px, cy + py, cc),
                    decreases 4 - c,
                {
                    proof {
                        assert(4 * ((py as int) * (cw as int)) + 4 * px + c == pix_idx(
                            cw as int,
                            px as int,
                            py as int,
                            c as int,
                        ));
                    }
                    let slen = self.pixels.len();
                    let si = byte_index(self.width, self.height, cx + px, cy + py, c, slen);
                    let v = self.pixels[si];
                    let ghost before = out@;
                    out.push(v);
                    proof {
                        assert forall|qx: int, qy: int, cc: int|
                            0 <= qx < cw && 0 <= qy < py && 0 <= cc < 4 implies {
                            &&& 0 <= pix_idx(cw as int, qx, qy, cc) < before.len()
                            &&& out@[pix_idx(cw as int, qx, qy, cc)] == before[pix_idx(
                                cw as int,
                                qx,
                                qy,
                                cc,
                            )]
                        } by {
                            lemma_pix_idx_bounds(cw as int, py as int, qx, qy, cc);
                            assert((cw as int) * (py as int) == (py as int) * (cw as int))
                                by (nonlinear_arith);
                        }
                        assert forall|qx: int, cc: int|
                            0 <= qx < px && 0 <= cc < 4 implies {
                            &&& 0 <= pix_idx(cw as int, qx, py as int, cc) < before.len()
                            &&& out@[pix_idx(cw as int, qx, py as int, cc)] == before[pix_idx(
                                cw as int,
                                qx,
                                py as int,
                                cc,
                            )]
                        } by {}
                        assert(out@[pix_idx(cw as int, px as int, py as int, c as int)] == v);
                    }
                    c = c + 1;
                }
                px = px + 1;
            }
            proof {
                assert(((py + 1) as int) * (cw as int) == (py as int) * (cw as int)
                    + (cw as int)) by (nonlinear_arith);
            }
            py = py + 1;
        }
        proof {
            assert(4 * ((ch as int) * (cw as int)) == 4 * ((cw as int) * (ch as int)))
                by (nonlinear_arith);
        }
        Image { width: cw, height: ch, pixels: out }
    }
}

/// The clamps that `DynamicImage::crop` applies to a requested rectangle.
pub open spec fn crop_x(sw: int, x: int) -> int {
    if x < sw {
        x
    } else {
        sw
    }
}

pub open spec fn crop_y(sh: int, y: int) -> int {
    if y < sh {
        y
    } else {
        sh
    }
}

pub open spec fn crop_w(sw: int, x: int, w: int) -> int {
    if w < sw - crop_x(sw, x) {
        w
    } else {
        sw - crop_x(sw, x)
    }
}

pub open spec fn crop_h(sh: int, y: int, h: int) -> int {
    if h < sh - crop_y(sh, y) {
        h
    } else {
        sh - crop_y(sh, y)
    }
}

} // verus!
