use vstd::prelude::*;

verus! {

/// An RGBA bitmap, 8 bits per channel, rows stored top to bottom with the
/// four channel bytes of each pixel adjacent.
pub struct Bitmap {
    pub width: u32,
    pub height: u32,
    pub data: Vec<u8>,
}

/// What one channel of one pixel holds after copying `src` onto `dst0` with
/// its top-left corner at (x, y): the source pixel where the source covers
/// the point, the old value elsewhere.
pub open spec fn blit_chan(
    dst0: Bitmap,
    src: Bitmap,
    x: int,
    y: int,
    px: int,
    py: int,
    c: int,
) -> u8 {
    if x <= px < x + src.spec_width() && y <= py < y + src.spec_height() {
        src.chan(px - x, py - y, c)
    } else {
        dst0.chan(px, py, c)
    }
}

/// Distinct pixel channels live at distinct byte offsets.
proof fn lemma_chan_index_injective(
    w: int,
    px: int,
    py: int,
    c: int,
    px2: int,
    py2: int,
    c2: int,
)
    requires
        0 <= px < w,
        0 <= px2 < w,
        0 <= c < 4,
        0 <= c2 < 4,
        0 <= py,
        0 <= py2,
        !(px == px2 && py == py2 && c == c2),
    ensures
        4 * (py * w + px) + c != 4 * (py2 * w + px2) + c2,
{
    if py != py2 {
        assert(4 * (py * w + px) + c != 4 * (py2 * w + px2) + c2) by (nonlinear_arith)
            requires
                0 <= px < w,
                0 <= px2 < w,
                0 <= c < 4,
                0 <= c2 < 4,
                py != py2,
        ;
    }
}

impl Bitmap {
    /// The bytes hold exactly four channel bytes for every pixel.
    pub open spec fn wf(self) -> bool {
        self.data@.len() == 4 * ((self.width as int) * (self.height as int))
    }

    pub open spec fn spec_width(self) -> int {
        self.width as int
    }

    pub open spec fn spec_height(self) -> int {
        self.height as int
    }

    /// The raw bytes of the bitmap.
    pub open spec fn bytes(self) -> Seq<u8> {
        self.data@
    }

    /// Channel `c` of the pixel at (x, y).
    pub open spec fn chan(self, x: int, y: int, c: int) -> u8 {
        self.data@[4 * (y * self.width + x) + c]
    }

    pub fn width(&self) -> (r: u32)
        ensures
            r == self.spec_width(),
    {
        self.width
    }

    pub fn height(&self) -> (r: u32)
        ensures
            r == self.spec_height(),
    {
        self.height
    }

    pub fn data(&self) -> (r: &Vec<u8>)
        ensures
            r@ == self.bytes(),
    {
        &self.data
    }

    /// Wrap raw RGBA bytes; refused unless the length matches the dimensions.
    pub fn from_raw(width: u32, height: u32, data: Vec<u8>) -> (r: Option<Bitmap>)
        ensures
            match r {
                Some(b) => {
                    &&& b.wf()
                    &&& b.spec_width() == width
                    &&& b.spec_height() == height
                    &&& b.bytes() == data@
                    &&& data@.len() == 4 * ((width as int) * (height as int))
                },
                None => data@.len() != 4 * ((width as int) * (height as int)),
            },
    {
        let dl: usize = data.len();
        proof {
            assert((width as int) * (height as int) <= u64::MAX) by (nonlinear_arith)
                requires
                    width <= u32::MAX,
                    height <= u32::MAX,
            ;
        }
        let px: u64 = (width as u64) * (height as u64);
        if px > u64::MAX / 4 {
            return None;
        }
        let want: u64 = 4 * px;
        if (dl as u64) == want {
            Some(Bitmap { width, height, data })
        } else {
            None
        }
    }

    /// A fully transparent bitmap of the given size.
    pub fn blank(width: u32, height: u32) -> (r: Bitmap)
        requires
            4 * ((width as int) * (height as int)) <= usize::MAX,
        ensures
            r.wf(),
            r.spec_width() == width,
            r.spec_height() == height,
            forall|i: int| 0 <= i < r.bytes().len() ==> r.bytes()[i] == 0,
    {
        let px: u64 = (width as u64) * (height as u64);
        let n: usize = (4 * px) as usize;
        let mut data: Vec<u8> = Vec::new();
        while data.len() < n
            invariant
                data@.len() <= n,
                n == 4 * ((width as int) * (height as int)),
                forall|i: int| 0 <= i < data@.len() ==> data@[i] == 0,
            decreases n - data@.len(),
        {
            data.push(0);
        }
        Bitmap { width, height, data }
    }

    /// Copy every pixel of `src` into `self`, top-left corner at (x, y).
    /// Placements never overlap, so a plain overwrite is the whole of
    /// compositing.
    pub fn blit(&mut self, src: &Bitmap, x: u32, y: u32)
        requires
            old(self).wf(),
            src.wf(),
            x + src.spec_width() <= old(self).spec_width(),
            y + src.spec_height() <= old(self).spec_height(),
        ensures
            final(self).wf(),
            final(self).spec_width() == old(self).spec_width(),
            final(self).spec_height() == old(self).spec_height(),
            forall|px: int, py: int, c: int|
                0 <= px < old(self).spec_width() && 0 <= py < old(self).spec_height() && 0 <= c < 4
                    ==> final(self).chan(px, py, c) == blit_chan(
                    *old(self),
                    *src,
                    x as int,
                    y as int,
                    px,
                    py,
                    c,
                ),
    {
        let sw = src.width;
        let sh = src.height;
        let dw = self.width;
        let dlen: usize = self.data.len();
        let slen: usize = src.data.len();
        let mut j: u32 = 0;
        while j < sh
            invariant
                old(self).wf(),
                src.wf(),
                x + src.spec_width() <= old(self).spec_width(),
                y + src.spec_height() <= old(self).spec_height(),
                sw == src.spec_width(),
                sh == src.spec_height(),
                dw == old(self).spec_width(),
                0 <= j <= sh,
                self.width == old(self).width,
                self.height == old(self).height,
                self.data@.len() == old(self).data@.len(),
                dlen == self.data@.len(),
                slen == src.data@.len(),
                forall|px: int, py: int, c: int|
                    0 <= px < old(self).spec_width() && 0 <= py < old(self).spec_height() && 0 <= c
                        < 4 ==> self.chan(px, py, c) == (if y <= py < y + j {
                        blit_chan(*old(self), *src, x as int, y as int, px, py, c)
                    } else {
                        old(self).chan(px, py, c)
                    }),
            decreases sh - j,
        {
            let mut i: u32 = 0;
            let ghost row_start = *self;
            while i < sw
                invariant
                    old(self).wf(),
                    src.wf(),
                    x + src.spec_width() <= old(self).spec_width(),
                    y + src.spec_height() <= old(self).spec_height(),
                    sw == src.spec_width(),
                    sh == src.spec_height(),
                    dw == old(self).spec_width(),
                    0 <= j < sh,
                    0 <= i <= sw,
                    self.width == old(self).width,
                    self.height == old(self).height,
                    self.data@.len() == old(self).data@.len(),
                    dlen == self.data@.len(),
                    slen == src.data@.len(),
                    forall|px: int, py: int, c: int|
                        0 <= px < old(self).spec_width() && 0 <= py < old(self).spec_height() && 0
                            <= c < 4 ==> self.chan(px, py, c) == (if y <= py < y + j || (py == y + j
                            && x <= px < x + i) {
                            blit_chan(*old(self), *src, x as int, y as int, px, py, c)
                        } else {
                            old(self).chan(px, py, c)
                        }),
                decreases sw - i,
            {
                let px: u32 = x + i;
                let py: u32 = y + j;
                let ghost before = *self;
                proof {
                    let dh = old(self).spec_height();
                    assert((py * dw + px) < dw * dh) by (nonlinear_arith)
                        requires
                            0 <= px < dw,
                            0 <= py < dh,
                    ;
                    assert((j * sw + i) < sw * sh) by (nonlinear_arith)
                        requires
                            0 <= i < sw,
                            0 <= j < sh,
                    ;
                    assert(4 * ((py as int) * (dw as int) + (px as int)) + 3 < dlen as int);
                    assert(4 * ((j as int) * (sw as int) + (i as int)) + 3 < slen as int);
                }
                let di: usize = 4 * ((py as usize) * (dw as usize) + (px as usize));
                let si: usize = 4 * ((j as usize) * (sw as usize) + (i as usize));
                let b0 = src.data[si];
                let b1 = src.data[si + 1];
                let b2 = src.data[si + 2];
                let b3 = src.data[si + 3];
                self.data.set(di, b0);
                self.data.set(di + 1, b1);
                self.data.set(di + 2, b2);
                self.data.set(di + 3, b3);
                proof {
                    assert forall|qx: int, qy: int, qc: int|
                        0 <= qx < old(self).spec_width() && 0 <= qy < old(self).spec_height() && 0
                            <= qc < 4 && !(qx == px && qy == py) implies self.chan(qx, qy, qc)
                        == before.chan(qx, qy, qc) by {
                        let dh2 = old(self).spec_height();
                        assert((qy * (dw as int) + qx) < (dw as int) * dh2) by (nonlinear_arith)
                            requires
                                0 <= qx < dw as int,
                                0 <= qy < dh2,
                        ;
                        assert(4 * (qy * (dw as int) + qx) + qc < dlen as int);
                        lemma_chan_index_injective(
                            dw as int,
                            qx,
                            qy,
                            qc,
                            px as int,
                            py as int,
                            0,
                        );
                        lemma_chan_index_injective(
                            dw as int,
                            qx,
                            qy,
                            qc,
                            px as int,
                            py as int,
                            1,
                        );
                        lemma_chan_index_injective(
                            dw as int,
                            qx,
                            qy,
                            qc,
                            px as int,
                            py as int,
                            2,
                        );
                        lemma_chan_index_injective(
                            dw as int,
                            qx,
                            qy,
                            qc,
                            px as int,
                            py as int,
                        3,
                        );
                    }
                    assert(self.chan(px as int, py as int, 0) == src.chan(i as int, j as int, 0)
                        && self.chan(px as int, py as int, 1) == src.chan(i as int, j as int, 1)
                        && self.chan(px as int, py as int, 2) == src.chan(i as int, j as int, 2)
                        && self.chan(px as int, py as int, 3) == src.chan(
                        i as int,
                        j as int,
                        3,
                    )) by {
                        lemma_chan_index_injective(dw as int, px as int, py as int, 0, px as int, py as int, 1);
                        lemma_chan_index_injective(dw as int, px as int, py as int, 0, px as int, py as int, 2);
                        lemma_chan_index_injective(dw as int, px as int, py as int, 0, px as int, py as int, 3);
                        lemma_chan_index_injective(dw as int, px as int, py as int, 1, px as int, py as int, 2);
                        lemma_chan_index_injective(dw as int, px as int, py as int, 1, px as int, py as int, 3);
                        lemma_chan_index_injective(dw as int, px as int, py as int, 2, px as int, py as int, 3);
                    }
                    assert forall|qx: int, qy: int, qc: int|
                        0 <= qx < old(self).spec_width() && 0 <= qy < old(self).spec_height() && 0
                            <= qc < 4 implies self.chan(qx, qy, qc) == (if y <= qy < y + j || (qy
                        == y + j && x <= qx < x + i + 1) {
                        blit_chan(*old(self), *src, x as int, y as int, qx, qy, qc)
                    } else {
                        old(self).chan(qx, qy, qc)
                    }) by {
                        if qx == px && qy == py {
                            assert(blit_chan(*old(self), *src, x as int, y as int, qx, qy, qc)
                                == src.chan(i as int, j as int, qc));
                        } else {
                            assert(self.chan(qx, qy, qc) == before.chan(qx, qy, qc));
                            assert(before.chan(qx, qy, qc) == (if y <= qy < y + j || (qy == y + j
                                && x <= qx < x + i) {
                                blit_chan(*old(self), *src, x as int, y as int, qx, qy, qc)
                            } else {
                                old(self).chan(qx, qy, qc)
                            }));
                        }
                    }
                }
                i = i + 1;
            }
            j = j + 1;
        }
    }
}

} // verus!
