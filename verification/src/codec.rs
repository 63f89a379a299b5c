use vstd::prelude::*;

verus! {

/// What the PNG encoder produces for a bitmap of the given size and
/// premultiplied RGBA bytes, or that it refuses them: a pure function of
/// its inputs.
pub uninterp spec fn png_of(width: int, height: int, data: Seq<u8>) -> Result<Seq<u8>, ()>;

/// What the PNG optimiser produces for an encoded image at its default
/// settings, or that it refuses it: a pure function of the input bytes.
pub uninterp spec fn optimized_png_of(data: Seq<u8>) -> Result<Seq<u8>, ()>;

/// Bytes as a successful codec result.
pub open spec fn ok_bytes(b: Seq<u8>) -> Result<Seq<u8>, ()> {
    Ok(b)
}

/// Relies on tiny_skia::Pixmap::from_vec and Pixmap::encode_png: wraps the
/// bytes as a bitmap, which succeeds exactly when the dimensions are
/// positive and the buffer holds four bytes per pixel, and encodes it as a
/// PNG byte stream.
#[verifier::external_body]
pub(crate) fn encode_png_raw(width: u32, height: u32, data: &Vec<u8>) -> (r: Result<
    Vec<u8>,
    String,
>)
    ensures
        match r {
            Ok(b) => width >= 1 && height >= 1 && data@.len() == 4 * ((width as int) * (
            height as int)) && png_of(width as int, height as int, data@) == ok_bytes(b@),
            Err(_) => png_of(width as int, height as int, data@) is Err,
        },
{
    let size = match resvg::tiny_skia::IntSize::from_wh(width, height) {
        Some(s) => s,
        None => {
            return Err("the bitmap is empty".to_owned());
        },
    };
    let pixmap = match resvg::tiny_skia::Pixmap::from_vec(data.clone(), size) {
        Some(p) => p,
        None => {
            return Err("the byte buffer does not fit the dimensions".to_owned());
        },
    };
    pixmap.encode_png().map_err(|e| e.to_string())
}

/// Relies on oxipng::optimize_from_memory at default options: losslessly
/// recompresses a PNG byte stream; the result depends on the input bytes
/// alone.
#[verifier::external_body]
pub(crate) fn optimize_png(data: &Vec<u8>) -> (r: Result<Vec<u8>, String>)
    ensures
        match r {
            Ok(b) => optimized_png_of(data@) == ok_bytes(b@),
            Err(_) => optimized_png_of(data@) is Err,
        },
{
    oxipng::optimize_from_memory(data.as_slice(), &oxipng::Options::default()).map_err(
        |e| e.to_string(),
    )
}

} // verus!
