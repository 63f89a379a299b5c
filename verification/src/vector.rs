use vstd::prelude::*;

verus! {

/// A parsed vector image, as the external renderer holds it. The library
/// only ever reads two things out of it: a rasterisation, and the bounding
/// boxes of elements looked up by id.
#[verifier::external_type_specification]
#[verifier::external_body]
pub struct ExTree(resvg::usvg::Tree);

/// What the vector image holds at each element id: for every id that
/// resolves to a renderable element, the element's bounding box as
/// (left, top, right, bottom), each coordinate in thousandths of a pixel.
pub uninterp spec fn tree_nodes(t: resvg::usvg::Tree) -> Map<Seq<char>, (int, int, int, int)>;

/// Relies on usvg::Tree::node_by_id and usvg::Node::abs_bounding_box: looks
/// up the renderable element with the given id and hands back its bounding
/// box, each coordinate scaled to thousandths of a pixel and rounded to the
/// nearest whole thousandth (values beyond the i64 range saturate).
/// Elements that usvg dropped while parsing (hidden ones, or ones without
/// renderable geometry) resolve to nothing.
#[verifier::external_body]
pub(crate) fn node_box_milli(tree: &resvg::usvg::Tree, id: &str) -> (r: Option<(i64, i64, i64, i64)>)
    ensures
        match r {
            Some(b) => tree_nodes(*tree).dom().contains(id@) && tree_nodes(*tree)[id@] == (
                b.0 as int,
                b.1 as int,
                b.2 as int,
                b.3 as int,
            ),
            None => !tree_nodes(*tree).dom().contains(id@),
        },
{
    let node = tree.node_by_id(id)?;
    let b = node.abs_bounding_box();
    // Scale the box to thousandths of a pixel; a box that leaves the
    // finite range under this scale resolves to nothing.
    let k = "1000".parse().ok()?;
    let sb = b.transform(resvg::tiny_skia::Transform::from_scale(k, k))?;
    Some((
        sb.left().round() as i64,
        sb.top().round() as i64,
        sb.right().round() as i64,
        sb.bottom().round() as i64,
    ))
}

/// What the rasteriser produces for the vector image at a pixel ratio:
/// nothing when the scaled size is empty or overflows, else the bitmap's
/// dimensions and raw RGBA bytes. Rendering is deterministic, so this is a
/// function of the image and the ratio.
pub uninterp spec fn raster_of(t: resvg::usvg::Tree, ratio: u8) -> Option<(u32, u32, Seq<u8>)>;

/// Relies on resvg::render and tiny_skia::Pixmap: rasterises the vector
/// image scaled by the pixel ratio and hands back the bitmap as its
/// dimensions and raw RGBA bytes, four bytes per pixel. Nothing is returned
/// exactly when the scaled size is empty or overflows.
#[verifier::external_body]
pub(crate) fn rasterize_tree(tree: &resvg::usvg::Tree, pixel_ratio: u8) -> (r: Option<
    (u32, u32, Vec<u8>),
>)
    ensures
        match r {
            Some(p) => raster_of(*tree, pixel_ratio) == Some((p.0, p.1, p.2@)) && p.2@.len() == 4
                * ((p.0 as int) * (p.1 as int)) && p.0 >= 1 && p.1 >= 1,
            None => raster_of(*tree, pixel_ratio) is None,
        },
{
    let ratio = pixel_ratio.into();
    let size = tree.size().to_int_size().scale_by(ratio)?;
    let mut pixmap = resvg::tiny_skia::Pixmap::new(size.width(), size.height())?;
    let ts = resvg::tiny_skia::Transform::from_scale(ratio, ratio);
    resvg::render(tree, ts, &mut pixmap.as_mut());
    let w = pixmap.width();
    let h = pixmap.height();
    Some((w, h, pixmap.take()))
}

} // verus!
