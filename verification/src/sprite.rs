use vstd::prelude::*;
use crate::bitmap::Bitmap;
use crate::sdf::{sdf_bitmap, sdf_transformed};
use crate::text::push_dec;
use crate::vector::{node_box_milli, raster_of, rasterize_tree, tree_nodes};

verus! {

/// Metadata coordinates are held in thousandths of a pixel; a box whose
/// coordinates leave this bound is treated as malformed and dropped.
pub const MILLI_BOUND: i64 = 1099511627776;

/// A box a metadata lookup returns is usable when its corners are ordered
/// and its coordinates stay within the protocol's bound.
pub open spec fn valid_box(b: (int, int, int, int)) -> bool {
    &&& -(MILLI_BOUND as int) <= b.0 <= b.2 <= MILLI_BOUND as int
    &&& -(MILLI_BOUND as int) <= b.1 <= b.3 <= MILLI_BOUND as int
}

/// True when the id resolves to a usable box.
pub open spec fn has_valid(m: Map<Seq<char>, (int, int, int, int)>, id: Seq<char>) -> bool {
    m.dom().contains(id) && valid_box(m[id])
}

/// The box a metadata lookup yields for one id: present exactly when the id
/// resolves to a usable box, each coordinate scaled by the pixel ratio.
pub open spec fn node_box_spec(
    m: Map<Seq<char>, (int, int, int, int)>,
    ratio: int,
    id: Seq<char>,
) -> Option<(int, int, int, int)> {
    if has_valid(m, id) {
        let b = m[id];
        Some((b.0 * ratio, b.1 * ratio, b.2 * ratio, b.3 * ratio))
    } else {
        None
    }
}

/// Numbered stretch ids are scanned upward from 1 until one is missing; the
/// scan gives up past this many.
pub const STRETCH_SCAN_CAP: u64 = 999999999;

/// The id of the `i`th numbered variant of a metadata element.
pub open spec fn numbered_id(base: Seq<char>, i: int) -> Seq<char> {
    base + seq!['-'] + crate::text::dec_str(i as nat)
}

/// The numbered variants 1 through `k` of `base` all resolve to usable
/// boxes.
pub open spec fn run_ok(m: Map<Seq<char>, (int, int, int, int)>, base: Seq<char>, k: int) -> bool {
    forall|i: int| 1 <= i <= k ==> has_valid(m, #[trigger] numbered_id(base, i))
}

/// The scan stops after `k`: the next numbered variant is missing, or the
/// cap is reached.
pub open spec fn run_end(m: Map<Seq<char>, (int, int, int, int)>, base: Seq<char>, k: int) -> bool {
    k == STRETCH_SCAN_CAP as int || !has_valid(m, numbered_id(base, k + 1))
}

/// One stretch range of a box: its left and right edges on the horizontal
/// axis, its top and bottom edges otherwise, scaled by the pixel ratio.
pub open spec fn range_of(b: (int, int, int, int), ratio: int, axis_x: bool) -> (int, int) {
    if axis_x {
        (b.0 * ratio, b.2 * ratio)
    } else {
        (b.1 * ratio, b.3 * ratio)
    }
}

/// The ranges the explicit stretch ids yield: the bare id first where it
/// resolves, then the numbered run of length `k`.
pub open spec fn stretch_list(
    m: Map<Seq<char>, (int, int, int, int)>,
    ratio: int,
    base: Seq<char>,
    axis_x: bool,
    k: int,
) -> Seq<(int, int)> {
    let head: Seq<(int, int)> = if has_valid(m, base) {
        seq![range_of(m[base], ratio, axis_x)]
    } else {
        Seq::empty()
    };
    head + Seq::new(k as nat, |i: int| range_of(m[numbered_id(base, i + 1)], ratio, axis_x))
}

/// What a stretch query returns, given where the numbered scan stopped: the
/// explicit ranges where any exist, else the shorthand's range where the
/// shorthand id resolves, else nothing.
pub open spec fn stretch_result(
    m: Map<Seq<char>, (int, int, int, int)>,
    ratio: int,
    base: Seq<char>,
    shorthand: Seq<char>,
    axis_x: bool,
    k: int,
    rv: Option<Seq<(int, int)>>,
) -> bool {
    let vals = stretch_list(m, ratio, base, axis_x, k);
    if vals.len() > 0 {
        rv == Some(vals)
    } else if has_valid(m, shorthand) {
        rv == Some(seq![range_of(m[shorthand], ratio, axis_x)])
    } else {
        rv is None
    }
}

/// The mathematical ranges a returned vector stands for.
pub open spec fn ranges_view(v: Seq<(i64, i64)>) -> Seq<(int, int)> {
    v.map_values(|p: (i64, i64)| (p.0 as int, p.1 as int))
}

/// The ranges an optional returned vector stands for.
pub open spec fn opt_ranges_view(r: Option<Vec<(i64, i64)>>) -> Option<Seq<(int, int)>> {
    match r {
        Some(v) => Some(ranges_view(v@)),
        None => None,
    }
}

/// A single icon within a spritesheet: a parsed vector image together with
/// its rasterisation at the sprite's pixel ratio.
pub struct Sprite {
    /// Parsed source vector image.
    pub tree: resvg::usvg::Tree,
    /// Ratio between destination pixels and source pixels.
    pub pixel_ratio: u8,
    /// Bitmap generated from the vector image.
    pub pixmap: Bitmap,
}

impl Sprite {
    /// The sprite's bitmap carries exactly four bytes per pixel.
    pub open spec fn wf(self) -> bool {
        self.pixmap.wf()
    }

    /// The metadata the sprite's vector image holds, by element id.
    pub open spec fn nodes(self) -> Map<Seq<char>, (int, int, int, int)> {
        tree_nodes(self.tree)
    }

    /// Rasterise a vector image at the given pixel ratio. A sprite comes
    /// back exactly when the rasteriser yields a bitmap, and the sprite
    /// holds exactly that bitmap.
    pub fn new(tree: resvg::usvg::Tree, pixel_ratio: u8) -> (r: Option<Sprite>)
        ensures
            r is Some <==> raster_of(tree, pixel_ratio) is Some,
            match r {
                Some(s) => {
                    &&& s.wf()
                    &&& s.pixel_ratio == pixel_ratio
                    &&& s.tree == tree
                    &&& raster_of(tree, pixel_ratio) matches Some(p) && s.pixmap.spec_width()
                        == p.0 && s.pixmap.spec_height() == p.1 && s.pixmap.bytes() == p.2
                    &&& s.pixmap.spec_width() >= 1
                    &&& s.pixmap.spec_height() >= 1
                },
                None => true,
            },
    {
        match rasterize_tree(&tree, pixel_ratio) {
            Some((w, h, data)) => match Bitmap::from_raw(w, h, data) {
                Some(pixmap) => Some(Sprite { tree, pixel_ratio, pixmap }),
                None => {
                    // The rasteriser's buffer always fits its dimensions.
                    proof {
                        assert(false);
                    }
                    unreached()
                },
            },
            None => None,
        }
    }

    /// Rasterise a vector image and turn the raster into its
    /// signed-distance-field form: padded by three pixels a side, black,
    /// with the quantised field in the alpha channel. A sprite comes back
    /// exactly when the rasteriser yields a bitmap and the padded size
    /// stays within the machine's limits, and the sprite's bitmap is
    /// exactly the field of that raster.
    pub fn new_sdf(tree: resvg::usvg::Tree, pixel_ratio: u8) -> (r: Option<Sprite>)
        ensures
            r is Some <==> (raster_of(tree, pixel_ratio) matches Some(p) && crate::sdf::sdf_fits(
                p.0 as int,
                p.1 as int,
            )),
            match r {
                Some(s) => {
                    &&& s.wf()
                    &&& s.pixel_ratio == pixel_ratio
                    &&& s.tree == tree
                    &&& raster_of(tree, pixel_ratio) matches Some(p) && crate::sdf::sdf_output_ok(
                        p.0 as int,
                        p.1 as int,
                        p.2,
                        s.pixmap,
                    )
                },
                None => true,
            },
    {
        match rasterize_tree(&tree, pixel_ratio) {
            Some((w, h, data)) => match Bitmap::from_raw(w, h, data) {
                Some(raw) => match sdf_bitmap(&raw) {
                    Some(out) => {
                        proof {
                            assert(sdf_transformed(raw, out));
                        }
                        Some(Sprite { tree, pixel_ratio, pixmap: out })
                    },
                    None => None,
                },
                None => {
                    // The rasteriser's buffer always fits its dimensions.
                    proof {
                        assert(false);
                    }
                    unreached()
                },
            },
            None => None,
        }
    }

    /// Get the sprite's parsed vector image.
    pub fn tree(&self) -> (r: &resvg::usvg::Tree)
        ensures
            *r == self.tree,
    {
        &self.tree
    }

    /// Get the sprite's pixel ratio.
    pub fn pixel_ratio(&self) -> (r: u8)
        ensures
            r == self.pixel_ratio,
    {
        self.pixel_ratio
    }

    /// Get the sprite's bitmap.
    pub fn pixmap(&self) -> (r: &Bitmap)
        ensures
            *r == self.pixmap,
    {
        &self.pixmap
    }

    /// Look up one element id and hand back its box scaled by the pixel
    /// ratio, in thousandths of a pixel; malformed boxes are dropped.
    fn lookup_box(&self, id: &str) -> (r: Option<(i64, i64, i64, i64)>)
        ensures
            match r {
                Some(b) => node_box_spec(self.nodes(), self.pixel_ratio as int, id@) == Some(
                    (b.0 as int, b.1 as int, b.2 as int, b.3 as int),
                ) && b.0 > i64::MIN && b.1 > i64::MIN && b.2 > i64::MIN && b.3 > i64::MIN,
                None => node_box_spec(self.nodes(), self.pixel_ratio as int, id@) is None,
            },
    {
        match node_box_milli(&self.tree, id) {
            None => None,
            Some(b) => {
                if b.0 >= -MILLI_BOUND && b.0 <= b.2 && b.2 <= MILLI_BOUND && b.1 >= -MILLI_BOUND
                    && b.1 <= b.3 && b.3 <= MILLI_BOUND {
                    let q = self.pixel_ratio as i64;
                    proof {
                        let bound = MILLI_BOUND as int;
                        assert(-(bound * 255) <= (b.0 as int) * (q as int) <= bound * 255
                            && -(bound * 255) <= (b.1 as int) * (q as int) <= bound * 255
                            && -(bound * 255) <= (b.2 as int) * (q as int) <= bound * 255
                            && -(bound * 255) <= (b.3 as int) * (q as int) <= bound * 255)
                            by (nonlinear_arith)
                            requires
                                -bound <= b.0 as int <= bound,
                                -bound <= b.1 as int <= bound,
                                -bound <= b.2 as int <= bound,
                                -bound <= b.3 as int <= bound,
                                0 <= q as int <= 255,
                                bound == MILLI_BOUND as int,
                        ;
                    }
                    Some((b.0 * q, b.1 * q, b.2 * q, b.3 * q))
                } else {
                    None
                }
            },
        }
    }

    /// Metadata for a stretchable icon: the content area, from the element
    /// with id `mapbox-content`, as (left, top, right, bottom) in
    /// thousandths of a pixel, scaled by the sprite's pixel ratio. Absent
    /// when no such renderable element exists or its box is malformed.
    pub fn content_area(&self) -> (r: Option<(i64, i64, i64, i64)>)
        ensures
            match r {
                Some(b) => node_box_spec(self.nodes(), self.pixel_ratio as int, "mapbox-content"@)
                    == Some((b.0 as int, b.1 as int, b.2 as int, b.3 as int)) && b.0 > i64::MIN
                    && b.1 > i64::MIN && b.2 > i64::MIN && b.3 > i64::MIN,
                None => node_box_spec(self.nodes(), self.pixel_ratio as int, "mapbox-content"@)
                    is None,
            },
    {
        self.lookup_box("mapbox-content")
    }

    /// The shared scan behind the two stretch queries: the bare id, then the
    /// numbered variants until the first gap, then the shorthand fallback.
    fn stretch_areas_axis(&self, base: &str, axis_x: bool) -> (r: Option<Vec<(i64, i64)>>)
        ensures
            match r {
                Some(v) => forall|j: int|
                    0 <= j < v@.len() ==> (#[trigger] v@[j]).0 > i64::MIN && v@[j].1 > i64::MIN,
                None => true,
            },
            exists|k: int|
                {
                    &&& 0 <= k <= STRETCH_SCAN_CAP
                    &&& #[trigger] run_ok(self.nodes(), base@, k)
                    &&& run_end(self.nodes(), base@, k)
                    &&& stretch_result(
                        self.nodes(),
                        self.pixel_ratio as int,
                        base@,
                        "mapbox-stretch"@,
                        axis_x,
                        k,
                        opt_ranges_view(r),
                    )
                },
    {
        let ghost m = self.nodes();
        let ghost q = self.pixel_ratio as int;
        let mut values: Vec<(i64, i64)> = Vec::new();
        match self.lookup_box(base) {
            Some(b) => {
                let p: (i64, i64) = if axis_x {
                    (b.0, b.2)
                } else {
                    (b.1, b.3)
                };
                values.push(p);
            },
            None => {},
        }
        proof {
            assert(ranges_view(values@) =~= stretch_list(m, q, base@, axis_x, 0));
        }
        let mut i: u64 = 1;
        let mut done: bool = false;
        while !done && i <= STRETCH_SCAN_CAP
            invariant
                1 <= i <= STRETCH_SCAN_CAP + 1,
                m == self.nodes(),
                q == self.pixel_ratio as int,
                run_ok(m, base@, i - 1),
                ranges_view(values@) == stretch_list(m, q, base@, axis_x, i - 1),
                forall|j: int|
                    0 <= j < values@.len() ==> (#[trigger] values@[j]).0 > i64::MIN
                        && values@[j].1 > i64::MIN,
                done ==> !has_valid(m, numbered_id(base@, i as int)),
            decreases (if done {
                0int
            } else {
                1int
            }), STRETCH_SCAN_CAP + 1 - i,
        {
            let mut sid = String::from_str(base);
            sid.append("-");
            push_dec(&mut sid, i);
            proof {
                reveal_strlit("-");
                assert(sid@ =~= numbered_id(base@, i as int));
            }
            match self.lookup_box(sid.as_str()) {
                Some(b) => {
                    let p: (i64, i64) = if axis_x {
                        (b.0, b.2)
                    } else {
                        (b.1, b.3)
                    };
                    let ghost old_values = values@;
                    values.push(p);
                    proof {
                        let idv = numbered_id(base@, i as int);
                        assert(has_valid(m, idv));
                        assert forall|t: int| 1 <= t <= i as int implies has_valid(
                            m,
                            #[trigger] numbered_id(base@, t),
                        ) by {}
                        assert((p.0 as int, p.1 as int) == range_of(m[idv], q, axis_x));
                        assert(ranges_view(values@) =~= ranges_view(old_values) + seq![
                            (p.0 as int, p.1 as int),
                        ]);
                        assert(stretch_list(m, q, base@, axis_x, i as int) =~= stretch_list(
                            m,
                            q,
                            base@,
                            axis_x,
                            i - 1,
                        ) + seq![range_of(m[idv], q, axis_x)]);
                        assert(ranges_view(values@) =~= stretch_list(
                            m,
                            q,
                            base@,
                            axis_x,
                            i as int,
                        ));
                    }
                    i = i + 1;
                },
                None => {
                    done = true;
                },
            }
        }
        let ghost k = i - 1;
        proof {
            assert(run_end(m, base@, k));
        }
        if values.len() > 0 {
            proof {
                assert(stretch_result(m, q, base@, "mapbox-stretch"@, axis_x, k, Some(
                    ranges_view(values@),
                )));
            }
            Some(values)
        } else {
            proof {
                assert(stretch_list(m, q, base@, axis_x, k).len() == 0);
            }
            match self.lookup_box("mapbox-stretch") {
                Some(b) => {
                    let p: (i64, i64) = if axis_x {
                        (b.0, b.2)
                    } else {
                        (b.1, b.3)
                    };
                    let mut one: Vec<(i64, i64)> = Vec::new();
                    one.push(p);
                    proof {
                        assert(ranges_view(one@) =~= seq![
                            range_of(m["mapbox-stretch"@], q, axis_x),
                        ]);
                    }
                    Some(one)
                },
                None => None,
            }
        }
    }

    /// Metadata for a stretchable icon: the horizontal stretch ranges, as
    /// (left, right) pairs in thousandths of a pixel scaled by the pixel
    /// ratio. The element with id `mapbox-stretch-x` comes first if it
    /// exists, then `mapbox-stretch-x-1`, `mapbox-stretch-x-2` and so on
    /// until the first missing one; when none exist, the element with id
    /// `mapbox-stretch` serves as a shorthand for both axes.
    pub fn stretch_x_areas(&self) -> (r: Option<Vec<(i64, i64)>>)
        ensures
            match r {
                Some(v) => forall|j: int|
                    0 <= j < v@.len() ==> (#[trigger] v@[j]).0 > i64::MIN && v@[j].1 > i64::MIN,
                None => true,
            },
            exists|k: int|
                {
                    &&& 0 <= k <= STRETCH_SCAN_CAP
                    &&& #[trigger] run_ok(self.nodes(), "mapbox-stretch-x"@, k)
                    &&& run_end(self.nodes(), "mapbox-stretch-x"@, k)
                    &&& stretch_result(
                        self.nodes(),
                        self.pixel_ratio as int,
                        "mapbox-stretch-x"@,
                        "mapbox-stretch"@,
                        true,
                        k,
                        opt_ranges_view(r),
                    )
                },
    {
        self.stretch_areas_axis("mapbox-stretch-x", true)
    }

    /// Metadata for a stretchable icon: the vertical stretch ranges, as
    /// (top, bottom) pairs in thousandths of a pixel scaled by the pixel
    /// ratio, found as for `stretch_x_areas` under the `mapbox-stretch-y`
    /// ids with the same `mapbox-stretch` shorthand.
    pub fn stretch_y_areas(&self) -> (r: Option<Vec<(i64, i64)>>)
        ensures
            match r {
                Some(v) => forall|j: int|
                    0 <= j < v@.len() ==> (#[trigger] v@[j]).0 > i64::MIN && v@[j].1 > i64::MIN,
                None => true,
            },
            exists|k: int|
                {
                    &&& 0 <= k <= STRETCH_SCAN_CAP
                    &&& #[trigger] run_ok(self.nodes(), "mapbox-stretch-y"@, k)
                    &&& run_end(self.nodes(), "mapbox-stretch-y"@, k)
                    &&& stretch_result(
                        self.nodes(),
                        self.pixel_ratio as int,
                        "mapbox-stretch-y"@,
                        "mapbox-stretch"@,
                        false,
                        k,
                        opt_ranges_view(r),
                    )
                },
    {
        self.stretch_areas_axis("mapbox-stretch-y", false)
    }
}

/// When an icon carries no axis-specific stretch elements at all, the
/// `mapbox-stretch` shorthand element populates both axes from the one box:
/// the horizontal ranges take its left and right edges, the vertical ranges
/// its top and bottom edges.
pub proof fn lemma_stretch_shorthand(
    m: Map<Seq<char>, (int, int, int, int)>,
    ratio: int,
    kx: int,
    rx: Option<Seq<(int, int)>>,
    ky: int,
    ry: Option<Seq<(int, int)>>,
)
    requires
        !has_valid(m, "mapbox-stretch-x"@),
        !has_valid(m, numbered_id("mapbox-stretch-x"@, 1)),
        !has_valid(m, "mapbox-stretch-y"@),
        !has_valid(m, numbered_id("mapbox-stretch-y"@, 1)),
        has_valid(m, "mapbox-stretch"@),
        0 <= kx,
        run_ok(m, "mapbox-stretch-x"@, kx),
        run_end(m, "mapbox-stretch-x"@, kx),
        stretch_result(m, ratio, "mapbox-stretch-x"@, "mapbox-stretch"@, true, kx, rx),
        0 <= ky,
        run_ok(m, "mapbox-stretch-y"@, ky),
        run_end(m, "mapbox-stretch-y"@, ky),
        stretch_result(m, ratio, "mapbox-stretch-y"@, "mapbox-stretch"@, false, ky, ry),
    ensures
        rx == Some(seq![(m["mapbox-stretch"@].0 * ratio, m["mapbox-stretch"@].2 * ratio)]),
        ry == Some(seq![(m["mapbox-stretch"@].1 * ratio, m["mapbox-stretch"@].3 * ratio)]),
{
    if kx >= 1 {
        assert(has_valid(m, numbered_id("mapbox-stretch-x"@, 1)));
    }
    if ky >= 1 {
        assert(has_valid(m, numbered_id("mapbox-stretch-y"@, 1)));
    }
    assert(stretch_list(m, ratio, "mapbox-stretch-x"@, true, 0).len() == 0);
    assert(stretch_list(m, ratio, "mapbox-stretch-y"@, false, 0).len() == 0);
}

} // verus!
