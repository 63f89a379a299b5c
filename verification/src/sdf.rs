use vstd::prelude::*;
use crate::bitmap::Bitmap;

verus! {

/// The number of transparent pixels added on every side of a sprite before
/// its signed distance field is computed.
pub const SDF_BUFFER: u32 = 3;

/// What the external distance-field renderer returns for a padded alpha
/// bitmap of the given unpadded dimensions, padding and radius, after
/// quantisation to one byte per pixel: a pure function of its inputs.
pub uninterp spec fn sdf_quantized(
    alpha: Seq<u8>,
    width: int,
    height: int,
    buffer: int,
    radius: int,
) -> Seq<u8>;

/// Relies on sdf_glyph_renderer: BitmapGlyph::new accepts exactly a buffer
/// of the declared padded size, render_sdf computes the signed Euclidean
/// distance field out to the radius, and clamp_to_u8 (here with the cutoff
/// fixed at one quarter) maps it one byte per pixel, so that values of 192
/// and above mean inside the shape. The result has one byte for every byte
/// of the padded input.
#[verifier::external_body]
fn render_sdf_bytes(alpha: &Vec<u8>, width: usize, height: usize, buffer: usize) -> (r: Vec<u8>)
    requires
        alpha@.len() == (width + 2 * buffer) * (height + 2 * buffer),
        (width + 2 * buffer) * (width + 2 * buffer) <= usize::MAX,
        (height + 2 * buffer) * (height + 2 * buffer) <= usize::MAX,
    ensures
        r@ == sdf_quantized(alpha@, width as int, height as int, buffer as int, 8),
        r@.len() == alpha@.len(),
{
    let glyph = sdf_glyph_renderer::BitmapGlyph::new(alpha.clone(), width, height, buffer)
        .unwrap();
    let sdf = glyph.render_sdf(8);
    // The cutoff that puts the inside of a shape at 192 and above.
    let cutoff = "0.25".parse().ok().unwrap();
    sdf_glyph_renderer::clamp_to_u8(&sdf, cutoff).unwrap()
}

/// The alpha channel of a raster of the given dimensions and RGBA bytes,
/// padded by `buffer` fully transparent pixels on every side, one byte per
/// pixel, rows top to bottom.
pub open spec fn padded_alpha_of(w: int, h: int, bytes: Seq<u8>, buffer: int) -> Seq<u8> {
    let bw = w + 2 * buffer;
    let bh = h + 2 * buffer;
    Seq::new(
        (bw * bh) as nat,
        |k: int|
            {
                let x = k % bw;
                let y = k / bw;
                if buffer <= x < buffer + w && buffer <= y < buffer + h {
                    bytes[4 * ((y - buffer) * w + (x - buffer)) + 3]
                } else {
                    0u8
                }
            },
    )
}

/// The padded alpha channel of a bitmap.
pub open spec fn padded_alpha(b: Bitmap, buffer: int) -> Seq<u8> {
    padded_alpha_of(b.spec_width(), b.spec_height(), b.bytes(), buffer)
}

/// The machine can hold the padded bitmap the distance field needs.
pub open spec fn sdf_fits(w: int, h: int) -> bool {
    &&& (w + 6) * (w + 6) <= usize::MAX
    &&& (h + 6) * (h + 6) <= usize::MAX
    &&& 4 * ((w + 6) * (h + 6)) <= usize::MAX
}

/// True when `out` is the signed-distance-field rendering of a raster of
/// the given dimensions and RGBA bytes: three pixels of padding on every
/// side, every pixel black, and the alpha channel carrying the quantised
/// distance field of the padded alpha at radius 8.
pub open spec fn sdf_output_ok(w: int, h: int, bytes: Seq<u8>, out: Bitmap) -> bool {
    &&& out.wf()
    &&& out.spec_width() == w + 6
    &&& out.spec_height() == h + 6
    &&& forall|k: int|
        0 <= k < out.spec_width() * out.spec_height() ==> {
            &&& #[trigger] out.bytes()[4 * k] == 0
            &&& out.bytes()[4 * k + 1] == 0
            &&& out.bytes()[4 * k + 2] == 0
            &&& out.bytes()[4 * k + 3] == sdf_quantized(
                padded_alpha_of(w, h, bytes, 3),
                w,
                h,
                3,
                8,
            )[k]
        }
}

/// True when `out` is the signed-distance-field rendering of the sprite
/// bitmap `raw`.
pub open spec fn sdf_transformed(raw: Bitmap, out: Bitmap) -> bool {
    sdf_output_ok(raw.spec_width(), raw.spec_height(), raw.bytes(), out)
}

/// Compute the signed-distance-field bitmap of a sprite bitmap: pad the
/// alpha channel by three transparent pixels on every side, quantise the
/// distance field the external renderer computes for it, and write it back
/// as a black bitmap whose alpha carries the field. Nothing is returned only
/// when the padded size overflows the machine's limits.
pub fn sdf_bitmap(src: &Bitmap) -> (r: Option<Bitmap>)
    requires
        src.wf(),
    ensures
        r is Some <==> sdf_fits(src.spec_width(), src.spec_height()),
        match r {
            Some(out) => sdf_transformed(*src, out),
            None => true,
        },
{
    let w = src.width();
    let h = src.height();
    if w > u32::MAX - 6 || h > u32::MAX - 6 {
        proof {
            assert((src.spec_width() + 6) * (src.spec_width() + 6) > usize::MAX || (
            src.spec_height() + 6) * (src.spec_height() + 6) > usize::MAX) by (nonlinear_arith)
                requires
                    src.spec_width() > u32::MAX - 6 || src.spec_height() > u32::MAX - 6,
                    usize::MAX <= u64::MAX,
            ;
        }
        return None;
    }
    let bw: u32 = w + 6;
    let bh: u32 = h + 6;
    let bwu: u64 = bw as u64;
    let bhu: u64 = bh as u64;
    proof {
        assert(bwu * bwu <= u64::MAX && bhu * bhu <= u64::MAX && bwu * bhu <= u64::MAX && 4 * (
        bwu * bhu) <= 0x4_0000_0000_0000_0000u128) by (nonlinear_arith)
            requires
                bwu <= u32::MAX,
                bhu <= u32::MAX,
        ;
    }
    if (bwu * bwu) > (usize::MAX as u64) || (bhu * bhu) > (usize::MAX as u64) {
        return None;
    }
    if bwu * bhu > (usize::MAX as u64) / 4 {
        proof {
            assert(4 * ((bwu as int) * (bhu as int)) > usize::MAX);
        }
        return None;
    }
    // Step one: the padded alpha buffer.
    let sdlen: usize = src.data().len();
    let mut alpha: Vec<u8> = Vec::new();
    let ghost pspec = padded_alpha(*src, 3);
    let mut y: u32 = 0;
    while y < bh
        invariant
            src.wf(),
            w == src.spec_width(),
            h == src.spec_height(),
            bw == w + 6,
            bh == h + 6,
            pspec == padded_alpha(*src, 3),
            sdlen == src.bytes().len(),
            0 <= y <= bh,
            alpha@.len() == (y as int) * (bw as int),
            (bw as int) * (bh as int) <= usize::MAX,
            forall|k: int| 0 <= k < alpha@.len() ==> alpha@[k] == pspec[k],
        decreases bh - y,
    {
        let mut x: u32 = 0;
        while x < bw
            invariant
                src.wf(),
                w == src.spec_width(),
                h == src.spec_height(),
                bw == w + 6,
                bh == h + 6,
                pspec == padded_alpha(*src, 3),
                sdlen == src.bytes().len(),
                0 <= y < bh,
                0 <= x <= bw,
                alpha@.len() == (y as int) * (bw as int) + x,
                (bw as int) * (bh as int) <= usize::MAX,
                forall|k: int| 0 <= k < alpha@.len() ==> alpha@[k] == pspec[k],
            decreases bw - x,
        {
            proof {
                assert((y as int) * (bw as int) + x < (bw as int) * (bh as int)) by (nonlinear_arith)
                    requires
                        0 <= x < bw,
                        0 <= y < bh,
                ;
            }
            let v: u8 = if x >= 3 && x < w + 3 && y >= 3 && y < h + 3 {
                let sx = x - 3;
                let sy = y - 3;
                proof {
                    let dh = src.spec_height();
                    assert((sy * (w as int) + sx) < (w as int) * dh) by (nonlinear_arith)
                        requires
                            0 <= sx < w as int,
                            0 <= sy < dh,
                    ;
                    assert(4 * ((sy as int) * (w as int) + (sx as int)) + 3 < sdlen as int);
                }
                let si: usize = 4 * ((sy as usize) * (w as usize) + (sx as usize)) + 3;
                src.data()[si]
            } else {
                0
            };
            alpha.push(v);
            proof {
                let k = (y as int) * (bw as int) + x;
                vstd::arithmetic::div_mod::lemma_fundamental_div_mod_converse(
                    k,
                    bw as int,
                    y as int,
                    x as int,
                );
                assert(pspec[k] == v);
                assert forall|q: int| 0 <= q < alpha@.len() implies alpha@[q] == pspec[q] by {}
            }
            x = x + 1;
        }
        y = y + 1;
        proof {
            assert((y as int) * (bw as int) == (y - 1) * (bw as int) + bw) by (nonlinear_arith);
        }
    }
    proof {
        assert((bh as int) * (bw as int) == (bw as int) * (bh as int)) by (nonlinear_arith);
    }
    proof {
        assert(alpha@ =~= padded_alpha(*src, 3));
    }
    // Step two: the quantised distance field for it.
    let field = render_sdf_bytes(&alpha, w as usize, h as usize, 3);
    // Step three: write it back as a black, premultiplied bitmap.
    let mut data: Vec<u8> = Vec::new();
    let total: usize = (bwu * bhu) as usize;
    let mut k: usize = 0;
    while k < total
        invariant
            0 <= k <= total,
            total == (bw as int) * (bh as int),
            field@.len() == total,
            data@.len() == 4 * k,
            forall|q: int|
                0 <= q < k ==> {
                    &&& #[trigger] data@[4 * q] == 0
                    &&& data@[4 * q + 1] == 0
                    &&& data@[4 * q + 2] == 0
                    &&& data@[4 * q + 3] == field@[q]
                },
        decreases total - k,
    {
        let a = field[k];
        let ghost pre = data@;
        data.push(0);
        data.push(0);
        data.push(0);
        data.push(a);
        proof {
            assert(data@ =~= pre + seq![0u8, 0u8, 0u8, a]);
            assert forall|q: int|
                0 <= q < k + 1 implies {
                &&& #[trigger] data@[4 * q] == 0
                &&& data@[4 * q + 1] == 0
                &&& data@[4 * q + 2] == 0
                &&& data@[4 * q + 3] == field@[q]
            } by {
                if q < k {
                    assert(pre[4 * q] == 0);
                    assert(pre[4 * q + 1] == 0);
                    assert(pre[4 * q + 2] == 0);
                    assert(pre[4 * q + 3] == field@[q]);
                    assert(data@[4 * q] == pre[4 * q]);
                    assert(data@[4 * q + 1] == pre[4 * q + 1]);
                    assert(data@[4 * q + 2] == pre[4 * q + 2]);
                    assert(data@[4 * q + 3] == pre[4 * q + 3]);
                } else {
                    assert(data@[4 * q] == (pre + seq![0u8, 0u8, 0u8, a])[4 * q]);
                    assert(data@[4 * q + 1] == (pre + seq![0u8, 0u8, 0u8, a])[4 * q + 1]);
                    assert(data@[4 * q + 2] == (pre + seq![0u8, 0u8, 0u8, a])[4 * q + 2]);
                    assert(data@[4 * q + 3] == (pre + seq![0u8, 0u8, 0u8, a])[4 * q + 3]);
                }
            }
        }
        k = k + 1;
    }
    let out = Bitmap { width: bw, height: bh, data };
    proof {
        assert(out.bytes() == data@);
        assert(out.wf());
        let ghost q = sdf_quantized(padded_alpha(*src, 3), src.spec_width(), src.spec_height(), 3, 8);
        assert(field@ == q);
        assert forall|k2: int| 0 <= k2 < out.spec_width() * out.spec_height() implies {
            &&& #[trigger] out.bytes()[4 * k2] == 0
            &&& out.bytes()[4 * k2 + 1] == 0
            &&& out.bytes()[4 * k2 + 2] == 0
            &&& out.bytes()[4 * k2 + 3] == q[k2]
        } by {
            assert(data@[4 * k2] == 0);
            assert(data@[4 * k2 + 1] == 0);
            assert(data@[4 * k2 + 2] == 0);
            assert(data@[4 * k2 + 3] == field@[k2]);
        }
        assert(sdf_transformed(*src, out));
    }
    Some(out)
}

} // verus!
