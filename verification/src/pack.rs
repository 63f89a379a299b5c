use vstd::prelude::*;
use crate::geom::Rect;

verus! {

/// The rectangle `r` grown by `s` pixels of spacing on its right and bottom
/// edges: the area a sprite claims while packing, so that placed sprites
/// stay at least `s` pixels apart.
pub open spec fn padded(r: Rect, s: int) -> Rect {
    Rect { x: r.x, y: r.y, w: (r.w + s) as u32, h: (r.h + s) as u32 }
}

/// The combined pixel area of the boxes, each grown by the spacing.
pub open spec fn padded_area(sizes: Seq<(u32, u32)>, spacing: int) -> int
    decreases sizes.len(),
{
    if sizes.len() == 0 {
        0
    } else {
        padded_area(sizes.drop_last(), spacing) + (sizes.last().0 + spacing) * (sizes.last().1
            + spacing)
    }
}

/// A prefix of the boxes never exceeds the whole in padded area.
proof fn lemma_padded_area_prefix(sizes: Seq<(u32, u32)>, spacing: int, t: int)
    requires
        spacing >= 0,
        0 <= t <= sizes.len(),
    ensures
        padded_area(sizes.take(t), spacing) <= padded_area(sizes, spacing),
    decreases sizes.len(),
{
    if t == sizes.len() {
        assert(sizes.take(t) =~= sizes);
    } else {
        assert(sizes.drop_last().take(t) =~= sizes.take(t));
        lemma_padded_area_prefix(sizes.drop_last(), spacing, t);
        assert((sizes.last().0 + spacing) * (sizes.last().1 + spacing) >= 0) by (nonlinear_arith)
            requires
                sizes.last().0 + spacing >= 0,
                sizes.last().1 + spacing >= 0,
        ;
    }
}

/// The machine can hold the packer's arithmetic for one padded box: both
/// sides fit, and the box's area plus its two sides stays in range.
pub open spec fn box_fits(pw: int, ph: int) -> bool {
    &&& pw <= u32::MAX
    &&& ph <= u32::MAX
    &&& pw * ph + pw + ph <= usize::MAX
}

/// Every padded box stays within the machine's limits.
pub open spec fn boxes_fit(sizes: Seq<(u32, u32)>, spacing: int) -> bool {
    forall|k: int|
        0 <= k < sizes.len() ==> box_fits((#[trigger] sizes[k]).0 + spacing, sizes[k].1 + spacing)
}

/// The growth bound the packer searches under stays within the machine's
/// limits: ten times the padded area as a bin side, its square as a bin
/// area, and four times the padded area for the search's own arithmetic.
pub open spec fn pack_limits_ok(a: int) -> bool {
    &&& 10 * a <= u32::MAX
    &&& (10 * a) * (10 * a) <= usize::MAX
    &&& 4 * a <= usize::MAX
}

/// The boxes as handed to the packer: each grown by the spacing.
pub open spec fn padded_boxes(sizes: Seq<(u32, u32)>, spacing: int) -> Seq<(u32, u32)> {
    sizes.map_values(|p: (u32, u32)| (((p.0 + spacing) as u32), ((p.1 + spacing) as u32)))
}

/// What the external packer chooses for the given boxes and bin-side
/// bound: nothing, or one placement per box, each a tag into the box list
/// together with the top-left corner chosen for it. The packer sorts and
/// places deterministically, so this is a pure function of its inputs.
pub uninterp spec fn crunch_po2_of(sizes: Seq<(u32, u32)>, max_size: usize) -> Option<
    Seq<(usize, u32, u32)>,
>;

/// Relies on crunch::pack_into_po2: packs the given (width, height) boxes,
/// tagged with their position in `sizes`, into a power-of-two bin whose
/// side does not exceed `max_size`. Ok carries one placement per submitted
/// item under the tag it was submitted with. The `requires` keep every
/// multiplication and sum in the packer's search and scoring within the
/// machine's range; coordinates stay below the bin-side bound, so their
/// conversion is exact. The layout itself is re-checked by the caller.
#[verifier::external_body]
fn crunch_pack_po2(sizes: &Vec<(u32, u32)>, max_size: usize) -> (r: Option<
    Vec<(usize, u32, u32)>,
>)
    requires
        forall|k: int|
            0 <= k < sizes@.len() ==> box_fits((#[trigger] sizes@[k]).0 as int, sizes@[k].1 as int),
        4 * padded_area(sizes@, 0) <= usize::MAX,
        (max_size as int) * (max_size as int) <= usize::MAX,
        2 * (max_size as int) <= usize::MAX,
    ensures
        match r {
            Some(v) => {
                &&& crunch_po2_of(sizes@, max_size) == Some(v@)
                &&& v@.len() == sizes@.len()
                &&& forall|k: int| 0 <= k < v@.len() ==> (#[trigger] v@[k]).0 < sizes@.len()
            },
            None => crunch_po2_of(sizes@, max_size) is None,
        },
{
    let items: Vec<crunch::Item<usize>> = sizes
        .iter()
        .enumerate()
        .map(|(idx, wh)| crunch::Item::new(idx, wh.0 as usize, wh.1 as usize, crunch::Rotation::None))
        .collect();
    match crunch::pack_into_po2(max_size, items) {
        Ok(crunch::PackedItems { items, .. }) => Some(
            items.into_iter().map(|it| (it.data, it.rect.x as u32, it.rect.y as u32)).collect(),
        ),
        Err(()) => None,
    }
}

/// The padded placement rectangle one packer choice stands for.
pub open spec fn placed_padded(pl: (usize, u32, u32), sizes: Seq<(u32, u32)>, spacing: int) -> Rect {
    Rect {
        x: pl.1,
        y: pl.2,
        w: ((sizes[pl.0 as int].0 + spacing) as u32),
        h: ((sizes[pl.0 as int].1 + spacing) as u32),
    }
}

/// The position of the placement that carries tag `j`.
pub open spec fn tag_index(v: Seq<(usize, u32, u32)>, j: int) -> int {
    choose|p: int| 0 <= p < v.len() && (#[trigger] v[p]).0 == j
}

/// A usable layout: one placement per box (tags in range, distinct and
/// complete), padded placements pairwise disjoint, and every padded
/// placement inside the bin-side bound.
pub open spec fn placements_ok(
    v: Seq<(usize, u32, u32)>,
    sizes: Seq<(u32, u32)>,
    spacing: int,
    ms: int,
) -> bool {
    &&& v.len() == sizes.len()
    &&& forall|p: int| 0 <= p < v.len() ==> (#[trigger] v[p]).0 < sizes.len()
    &&& forall|p1: int, p2: int|
        0 <= p1 < v.len() && 0 <= p2 < v.len() && p1 != p2 ==> (#[trigger] v[p1]).0 != (
        #[trigger] v[p2]).0
    &&& forall|j: int|
        0 <= j < sizes.len() ==> 0 <= #[trigger] tag_index(v, j) < v.len() && v[tag_index(v, j)].0
            == j
    &&& forall|p1: int, p2: int|
        0 <= p1 < v.len() && 0 <= p2 < v.len() && p1 != p2 ==> placed_padded(
            #[trigger] v[p1],
            sizes,
            spacing,
        ).disjoint(placed_padded(#[trigger] v[p2], sizes, spacing))
    &&& forall|p: int|
        0 <= p < v.len() ==> placed_padded(#[trigger] v[p], sizes, spacing).right() <= ms
            && placed_padded(v[p], sizes, spacing).bottom() <= ms
}

/// The placement rectangles in box order: box `j` at the corner its tagged
/// placement holds, with the box's own (unpadded) size.
pub open spec fn layout_rects(v: Seq<(usize, u32, u32)>, sizes: Seq<(u32, u32)>) -> Seq<Rect> {
    Seq::new(
        sizes.len(),
        |j: int|
            Rect {
                x: v[tag_index(v, j)].1,
                y: v[tag_index(v, j)].2,
                w: sizes[j].0,
                h: sizes[j].1,
            },
    )
}

/// The furthest right edge over the placements.
pub open spec fn max_right(rects: Seq<Rect>) -> int
    decreases rects.len(),
{
    if rects.len() == 0 {
        0
    } else {
        let m = max_right(rects.drop_last());
        if rects.last().right() > m {
            rects.last().right()
        } else {
            m
        }
    }
}

/// The furthest bottom edge over the placements.
pub open spec fn max_bottom(rects: Seq<Rect>) -> int
    decreases rects.len(),
{
    if rects.len() == 0 {
        0
    } else {
        let m = max_bottom(rects.drop_last());
        if rects.last().bottom() > m {
            rects.last().bottom()
        } else {
            m
        }
    }
}

/// When packing the boxes with this spacing succeeds: there is at least
/// one box, every padded box and the growth bound stay within the
/// machine's limits, and the external packer finds a layout that passes
/// every check.
pub open spec fn packable(sizes: Seq<(u32, u32)>, spacing: int) -> bool {
    &&& sizes.len() > 0
    &&& boxes_fit(sizes, spacing)
    &&& pack_limits_ok(padded_area(sizes, spacing))
    &&& match crunch_po2_of(
        padded_boxes(sizes, spacing),
        (10 * padded_area(sizes, spacing)) as usize,
    ) {
        Some(v) => placements_ok(v, sizes, spacing, 10 * padded_area(sizes, spacing)),
        None => false,
    }
}

/// The layout packing yields when it succeeds, in box order.
pub open spec fn packed_layout(sizes: Seq<(u32, u32)>, spacing: int) -> Seq<Rect> {
    match crunch_po2_of(
        padded_boxes(sizes, spacing),
        (10 * padded_area(sizes, spacing)) as usize,
    ) {
        Some(v) => layout_rects(v, sizes),
        None => Seq::empty(),
    }
}

/// The facts the validation loops carry: the limits were checked, the
/// packer was called at the growth bound, and it answered with `pv`.
spec fn pack_pre(sizes: Seq<(u32, u32)>, spacing: int, ms: usize, pv: Seq<(usize, u32, u32)>) -> bool {
    &&& sizes.len() > 0
    &&& boxes_fit(sizes, spacing)
    &&& pack_limits_ok(padded_area(sizes, spacing))
    &&& ms == 10 * padded_area(sizes, spacing)
    &&& crunch_po2_of(padded_boxes(sizes, spacing), ms) == Some(pv)
    &&& pv.len() == sizes.len()
    &&& forall|k: int| 0 <= k < pv.len() ==> (#[trigger] pv[k]).0 < sizes.len()
}

/// Under the carried facts, packing succeeds exactly when the answered
/// layout passes the checks.
proof fn lemma_packable_iff(sizes: Seq<(u32, u32)>, spacing: int, ms: usize, pv: Seq<(usize, u32, u32)>)
    requires
        pack_pre(sizes, spacing, ms, pv),
    ensures
        packable(sizes, spacing) == placements_ok(pv, sizes, spacing, ms as int),
{
}

/// Assign a placement rectangle to every (width, height) box, keeping
/// placed boxes `spacing` pixels apart, and report the tight bin size.
///
/// Packing succeeds exactly when `packable` holds: some box exists, the
/// machine limits are met, and the external packer finds a layout that
/// passes every check here. On success the layout is the packer's own
/// choice (`packed_layout`) in box order, checked in full: one rectangle
/// per box with the box's own size, pairwise disjoint even after padding
/// by `spacing`, all inside the reported bin, the bin exactly reaching the
/// furthest right and bottom edges in use, and neither bin side beyond ten
/// times the combined padded area, the growth bound.
#[verifier::rlimit(100)]
pub fn pack_rects(sizes: &Vec<(u32, u32)>, spacing: u32) -> (r: Option<(Vec<Rect>, u32, u32)>)
    ensures
        r is Some <==> packable(sizes@, spacing as int),
        match r {
            Some((rects, bw, bh)) => {
                &&& rects@ == packed_layout(sizes@, spacing as int)
                &&& rects@.len() == sizes@.len()
                &&& rects@.len() > 0
                &&& forall|k: int|
                    0 <= k < rects@.len() ==> (#[trigger] rects@[k]).w == sizes@[k].0
                        && rects@[k].h == sizes@[k].1
                &&& forall|k1: int, k2: int|
                    0 <= k1 < rects@.len() && 0 <= k2 < rects@.len() && k1 != k2 ==> padded(
                        #[trigger] rects@[k1],
                        spacing as int,
                    ).disjoint(padded(#[trigger] rects@[k2], spacing as int))
                &&& forall|k: int|
                    0 <= k < rects@.len() ==> (#[trigger] rects@[k]).inside(bw as int, bh as int)
                &&& bw == max_right(rects@)
                &&& bh == max_bottom(rects@)
                &&& exists|k: int| 0 <= k < rects@.len() && (#[trigger] rects@[k]).right() == bw
                &&& exists|k: int| 0 <= k < rects@.len() && (#[trigger] rects@[k]).bottom() == bh
                &&& bw <= 10 * padded_area(sizes@, spacing as int)
                &&& bh <= 10 * padded_area(sizes@, spacing as int)
                &&& forall|k: int|
                    0 <= k < rects@.len() ==> (#[trigger] rects@[k]).w + spacing <= u32::MAX
                        && rects@[k].h + spacing <= u32::MAX
                &&& forall|k: int|
                    0 <= k < sizes@.len() ==> (#[trigger] sizes@[k]).0 <= bw && sizes@[k].1 <= bh
            },
            None => true,
        },
{
    let n = sizes.len();
    if n == 0 {
        return None;
    }
    // The combined padded pixel area, and the padded boxes to hand over;
    // any box or total beyond the machine's limits refuses the packing.
    let mut area: u64 = 0;
    let mut t: usize = 0;
    let mut padded_sizes: Vec<(u32, u32)> = Vec::new();
    while t < n
        invariant
            0 <= t <= n,
            n == sizes@.len(),
            padded_sizes@.len() == t,
            padded_sizes@ =~= padded_boxes(sizes@, spacing as int).take(t as int),
            area as int == padded_area(sizes@.take(t as int), spacing as int),
            forall|k: int|
                0 <= k < t ==> box_fits((#[trigger] sizes@[k]).0 + spacing, sizes@[k].1 + spacing),
        decreases n - t,
    {
        let (w, h) = sizes[t];
        if w > u32::MAX - spacing || h > u32::MAX - spacing {
            return None;
        }
        let pw = w + spacing;
        let ph = h + spacing;
        proof {
            assert(0 <= (pw as int) * (ph as int) <= u64::MAX) by (nonlinear_arith)
                requires
                    0 <= pw <= u32::MAX,
                    0 <= ph <= u32::MAX,
            ;
        }
        let cell: u64 = (pw as u64) * (ph as u64);
        let sides: u64 = pw as u64 + ph as u64;
        if cell > u64::MAX - sides || cell + sides > usize::MAX as u64 {
            proof {
                assert(!box_fits(pw as int, ph as int));
            }
            return None;
        }
        if area > u64::MAX - cell {
            // The running area already leaves the machine's range.
            proof {
                assert(sizes@.take(t + 1).drop_last() =~= sizes@.take(t as int));
                assert(sizes@.take(t + 1).last() == sizes@[t as int]);
                lemma_padded_area_prefix(sizes@, spacing as int, t + 1);
                assert(10 * padded_area(sizes@, spacing as int) > u32::MAX);
            }
            return None;
        }
        area = area + cell;
        padded_sizes.push((pw, ph));
        proof {
            assert(sizes@.take(t + 1).drop_last() =~= sizes@.take(t as int));
            assert(sizes@.take(t + 1).last() == sizes@[t as int]);
            assert(padded_sizes@ =~= padded_boxes(sizes@, spacing as int).take(t + 1));
        }
        t = t + 1;
    }
    let ghost aint = padded_area(sizes@, spacing as int);
    proof {
        assert(sizes@.take(n as int) =~= sizes@);
        assert(padded_boxes(sizes@, spacing as int).take(n as int) =~= padded_boxes(
            sizes@,
            spacing as int,
        ));
        assert(area as int == aint);
    }
    // The growth bound: ten times the padded area as the bin-side limit,
    // with its arithmetic checked to stay in range.
    if area > (u32::MAX / 10) as u64 {
        return None;
    }
    let m10: u64 = 10 * area;
    proof {
        assert((m10 as int) * (m10 as int) <= u64::MAX) by (nonlinear_arith)
            requires
                m10 <= u32::MAX,
        ;
    }
    if m10 * m10 > usize::MAX as u64 || 4 * area > usize::MAX as u64 {
        return None;
    }
    let max_size: usize = m10 as usize;
    proof {
        assert(pack_limits_ok(aint));
        assert(2 * (max_size as int) <= usize::MAX) by (nonlinear_arith)
            requires
                (max_size as int) * (max_size as int) <= usize::MAX,
                0 <= max_size,
        ;
        assert forall|k: int| 0 <= k < padded_sizes@.len() implies box_fits(
            (#[trigger] padded_sizes@[k]).0 as int,
            padded_sizes@[k].1 as int,
        ) by {
            assert(box_fits(sizes@[k].0 + spacing, sizes@[k].1 + spacing));
            assert(padded_sizes@[k].0 == ((sizes@[k].0 + spacing) as u32));
        }
        lemma_padded_boxes_area(sizes@, spacing as int, n as int);
        assert(padded_boxes(sizes@, spacing as int).take(n as int) =~= padded_sizes@);
        assert(sizes@.take(n as int) =~= sizes@);
        assert(4 * padded_area(padded_sizes@, 0) <= usize::MAX);
    }
    let packed = match crunch_pack_po2(&padded_sizes, max_size) {
        Some(p) => p,
        None => {
            return None;
        },
    };
    let ghost pv = packed@;
    proof {
        assert(pack_pre(sizes@, spacing as int, max_size, pv));
    }
    // Re-check everything the packer decided: one placement per box, tags
    // complete and distinct, padded placements pairwise disjoint and
    // inside the bin-side bound. The ghost `wits` records, for each box,
    // which placement carries its tag.
    let mut slots: Vec<Option<Rect>> = Vec::new();
    let mut t2: usize = 0;
    while t2 < n
        invariant
            0 <= t2 <= n,
            slots@.len() == t2,
            forall|k: int| 0 <= k < t2 ==> (#[trigger] slots@[k]) is None,
        decreases n - t2,
    {
        slots.push(None);
        t2 = t2 + 1;
    }
    let m = packed.len();
    let mut p: usize = 0;
    while p < m
        invariant
            0 <= p <= m,
            m == n,
            n == sizes@.len(),
            pv == packed@,
            pack_pre(sizes@, spacing as int, max_size, pv),
            slots@.len() == n,
            forall|q1: int, q2: int|
                0 <= q1 < q2 < p ==> (#[trigger] pv[q1]).0 != (#[trigger] pv[q2]).0,
            forall|k: int|
                0 <= k < n ==> match #[trigger] slots@[k] {
                    Some(rc) => exists|w: int|
                        0 <= w < p && (#[trigger] pv[w]).0 == k && rc == (Rect {
                            x: pv[w].1,
                            y: pv[w].2,
                            w: sizes@[k].0,
                            h: sizes@[k].1,
                        }),
                    None => forall|w: int| 0 <= w < p ==> (#[trigger] pv[w]).0 != k,
                },
        decreases m - p,
    {
        let (idx, x, y) = packed[p];
        match slots[idx] {
            Some(prev) => {
                // Two placements carry the same tag: not a usable layout.
                proof {
                    let q0 = choose|w: int|
                        0 <= w < p && (#[trigger] pv[w]).0 == idx as int && prev == (Rect {
                            x: pv[w].1,
                            y: pv[w].2,
                            w: sizes@[idx as int].0,
                            h: sizes@[idx as int].1,
                        });
                    assert(pv[q0].0 == pv[p as int].0 && q0 != p as int);
                    assert(!placements_ok(pv, sizes@, spacing as int, max_size as int)) by {
                        if placements_ok(pv, sizes@, spacing as int, max_size as int) {
                            assert(pv[q0].0 != pv[p as int].0);
                        }
                    }
                    lemma_packable_iff(sizes@, spacing as int, max_size, pv);
                }
                return None;
            },
            None => {},
        }
        let (w, h) = sizes[idx];
        slots.set(idx, Some(Rect { x, y, w, h }));
        p = p + 1;
    }
    // Every box must have received a placement; `wits[k]` is the position
    // of the placement whose tag is `k`.
    let mut rects: Vec<Rect> = Vec::new();
    let ghost mut wits: Seq<int> = Seq::empty();
    let mut q: usize = 0;
    while q < n
        invariant
            0 <= q <= n,
            n == sizes@.len(),
            n == pv.len(),
            pv == packed@,
            pack_pre(sizes@, spacing as int, max_size, pv),
            slots@.len() == n,
            rects@.len() == q,
            wits.len() == q,
            forall|q1: int, q2: int|
                0 <= q1 < q2 < n ==> (#[trigger] pv[q1]).0 != (#[trigger] pv[q2]).0,
            forall|k: int|
                0 <= k < n ==> match #[trigger] slots@[k] {
                    Some(rc) => exists|w: int|
                        0 <= w < n && (#[trigger] pv[w]).0 == k && rc == (Rect {
                            x: pv[w].1,
                            y: pv[w].2,
                            w: sizes@[k].0,
                            h: sizes@[k].1,
                        }),
                    None => forall|w: int| 0 <= w < n ==> (#[trigger] pv[w]).0 != k,
                },
            forall|k: int|
                0 <= k < q ==> 0 <= #[trigger] wits[k] < n && pv[wits[k]].0 == k && rects@[k] == (
                Rect { x: pv[wits[k]].1, y: pv[wits[k]].2, w: sizes@[k].0, h: sizes@[k].1 }),
        decreases n - q,
    {
        match slots[q] {
            Some(rc) => {
                rects.push(rc);
                proof {
                    let w0 = choose|w: int|
                        0 <= w < n && (#[trigger] pv[w]).0 == q as int && rc == (Rect {
                            x: pv[w].1,
                            y: pv[w].2,
                            w: sizes@[q as int].0,
                            h: sizes@[q as int].1,
                        });
                    wits = wits.push(w0);
                }
            },
            None => {
                // No placement carries this tag: not a usable layout.
                proof {
                    assert(!placements_ok(pv, sizes@, spacing as int, max_size as int)) by {
                        if placements_ok(pv, sizes@, spacing as int, max_size as int) {
                            let ti = tag_index(pv, q as int);
                            assert(0 <= ti < pv.len() && pv[ti].0 == q as int);
                            assert(false);
                        }
                    }
                    lemma_packable_iff(sizes@, spacing as int, max_size, pv);
                }
                return None;
            },
        }
        q = q + 1;
    }
    proof {
        assert forall|k: int| 0 <= k < n implies (#[trigger] rects@[k]).w == sizes@[k].0
            && rects@[k].h == sizes@[k].1 by {
            assert(rects@[k] == (Rect {
                x: pv[wits[k]].1,
                y: pv[wits[k]].2,
                w: sizes@[k].0,
                h: sizes@[k].1,
            }));
        }
    }
    // Padded placements must not overlap and must stay inside the
    // bin-side bound.
    let mut a: usize = 0;
    while a < n
        invariant
            0 <= a <= n,
            n == rects@.len(),
            n == sizes@.len(),
            n == pv.len(),
            pv == packed@,
            pack_pre(sizes@, spacing as int, max_size, pv),
            wits.len() == n,
            forall|q1: int, q2: int|
                0 <= q1 < q2 < n ==> (#[trigger] pv[q1]).0 != (#[trigger] pv[q2]).0,
            forall|k: int|
                0 <= k < n ==> 0 <= #[trigger] wits[k] < n && pv[wits[k]].0 == k && rects@[k] == (
                Rect { x: pv[wits[k]].1, y: pv[wits[k]].2, w: sizes@[k].0, h: sizes@[k].1 }),
            forall|k: int|
                0 <= k < n ==> (#[trigger] rects@[k]).w == sizes@[k].0 && rects@[k].h
                    == sizes@[k].1,
            forall|k: int|
                0 <= k < a ==> padded(#[trigger] rects@[k], spacing as int).right()
                    <= max_size as int && padded(rects@[k], spacing as int).bottom()
                    <= max_size as int,
            forall|k1: int, k2: int|
                0 <= k1 < a && 0 <= k2 < n && k1 != k2 ==> padded(
                    #[trigger] rects@[k1],
                    spacing as int,
                ).disjoint(padded(#[trigger] rects@[k2], spacing as int)),
        decreases n - a,
    {
        let ra = rects[a];
        proof {
            assert(box_fits(sizes@[a as int].0 + spacing, sizes@[a as int].1 + spacing));
        }
        let pa = Rect { x: ra.x, y: ra.y, w: ra.w + spacing, h: ra.h + spacing };
        if (pa.x as u64) + (pa.w as u64) > max_size as u64 || (pa.y as u64) + (pa.h as u64)
            > max_size as u64 {
            // A padded placement leaves the growth bound.
            proof {
                let w0 = wits[a as int];
                assert(placed_padded(pv[w0], sizes@, spacing as int) == pa);
                assert(!placements_ok(pv, sizes@, spacing as int, max_size as int)) by {
                    if placements_ok(pv, sizes@, spacing as int, max_size as int) {
                        assert(placed_padded(pv[w0], sizes@, spacing as int).right()
                            <= max_size as int && placed_padded(
                            pv[w0],
                            sizes@,
                            spacing as int,
                        ).bottom() <= max_size as int);
                    }
                }
                lemma_packable_iff(sizes@, spacing as int, max_size, pv);
            }
            return None;
        }
        let mut b: usize = 0;
        while b < n
            invariant
                0 <= b <= n,
                a < n,
                n == rects@.len(),
                n == sizes@.len(),
                n == pv.len(),
                pv == packed@,
                pack_pre(sizes@, spacing as int, max_size, pv),
                wits.len() == n,
                forall|q1: int, q2: int|
                    0 <= q1 < q2 < n ==> (#[trigger] pv[q1]).0 != (#[trigger] pv[q2]).0,
                forall|k: int|
                    0 <= k < n ==> 0 <= #[trigger] wits[k] < n && pv[wits[k]].0 == k && rects@[k]
                        == (Rect {
                        x: pv[wits[k]].1,
                        y: pv[wits[k]].2,
                        w: sizes@[k].0,
                        h: sizes@[k].1,
                    }),
                forall|k: int|
                    0 <= k < n ==> box_fits(
                        (#[trigger] sizes@[k]).0 + spacing,
                        sizes@[k].1 + spacing,
                    ),
                forall|k: int|
                    0 <= k < n ==> (#[trigger] rects@[k]).w == sizes@[k].0 && rects@[k].h
                        == sizes@[k].1,
                ra == rects@[a as int],
                pa == padded(rects@[a as int], spacing as int),
                pa.right() <= u64::MAX,
                pa.bottom() <= u64::MAX,
                forall|k: int|
                    0 <= k < b && k != a ==> padded(#[trigger] rects@[k], spacing as int).disjoint(
                        padded(rects@[a as int], spacing as int),
                    ),
            decreases n - b,
        {
            if b != a {
                let rb = rects[b];
                proof {
                    assert(box_fits(sizes@[b as int].0 + spacing, sizes@[b as int].1 + spacing));
                }
                let pb = Rect { x: rb.x, y: rb.y, w: rb.w + spacing, h: rb.h + spacing };
                if !pb.check_disjoint(&pa) {
                    // Two padded placements overlap: not a usable layout.
                    proof {
                        let wa = wits[a as int];
                        let wb = wits[b as int];
                        assert(pv[wa].0 != pv[wb].0 && wa != wb);
                        assert(placed_padded(pv[wa], sizes@, spacing as int) == pa);
                        assert(placed_padded(pv[wb], sizes@, spacing as int) == pb);
                        assert(!placements_ok(pv, sizes@, spacing as int, max_size as int)) by {
                            if placements_ok(pv, sizes@, spacing as int, max_size as int) {
                                assert(placed_padded(pv[wa], sizes@, spacing as int).disjoint(
                                    placed_padded(pv[wb], sizes@, spacing as int),
                                ));
                            }
                        }
                        lemma_packable_iff(sizes@, spacing as int, max_size, pv);
                    }
                    return None;
                }
            }
            b = b + 1;
        }
        proof {
            assert forall|k1: int, k2: int|
                0 <= k1 < a + 1 && 0 <= k2 < n && k1 != k2 implies padded(
                #[trigger] rects@[k1],
                spacing as int,
            ).disjoint(padded(#[trigger] rects@[k2], spacing as int)) by {
                if k1 == a {
                    assert(padded(rects@[k2], spacing as int).disjoint(
                        padded(rects@[a as int], spacing as int),
                    ));
                }
            }
        }
        a = a + 1;
    }
    // The tight bin: exactly the furthest right and bottom edges in use.
    let mut bw: u64 = 0;
    let mut bh: u64 = 0;
    let mut c: usize = 0;
    while c < n
        invariant
            0 <= c <= n,
            n == rects@.len(),
            n > 0,
            bw as int == max_right(rects@.take(c as int)),
            bh as int == max_bottom(rects@.take(c as int)),
            forall|k: int|
                0 <= k < c ==> (#[trigger] rects@[k]).right() <= bw && rects@[k].bottom() <= bh,
            c > 0 ==> exists|k: int| 0 <= k < c && (#[trigger] rects@[k]).right() == bw,
            c > 0 ==> exists|k: int| 0 <= k < c && (#[trigger] rects@[k]).bottom() == bh,
        decreases n - c,
    {
        let rc = rects[c];
        let right: u64 = rc.x as u64 + rc.w as u64;
        let bottom: u64 = rc.y as u64 + rc.h as u64;
        proof {
            assert(rects@.take(c + 1).drop_last() =~= rects@.take(c as int));
            assert(rects@.take(c + 1).last() == rects@[c as int]);
        }
        if right > bw {
            bw = right;
        }
        if bottom > bh {
            bh = bottom;
        }
        proof {
            assert(exists|k: int| 0 <= k < c + 1 && (#[trigger] rects@[k]).right() == bw);
            assert(exists|k: int| 0 <= k < c + 1 && (#[trigger] rects@[k]).bottom() == bh);
        }
        c = c + 1;
    }
    proof {
        assert(rects@.take(n as int) =~= rects@);
        // The bin is tight, so it stays within the growth bound the
        // padded placements were checked against.
        let w0 = choose|k: int| 0 <= k < n && (#[trigger] rects@[k]).right() == bw;
        assert(padded(rects@[w0], spacing as int).right() <= max_size as int);
        let h0 = choose|k: int| 0 <= k < n && (#[trigger] rects@[k]).bottom() == bh;
        assert(padded(rects@[h0], spacing as int).bottom() <= max_size as int);
        assert(bw <= u32::MAX && bh <= u32::MAX);
        assert forall|k: int| 0 <= k < sizes@.len() implies (#[trigger] sizes@[k]).0 <= bw as int
            && sizes@[k].1 <= bh as int by {
            assert(rects@[k].w == sizes@[k].0 && rects@[k].h == sizes@[k].1);
            assert(rects@[k].right() <= bw as int && rects@[k].bottom() <= bh as int);
        }
        // Every check passed, so the packer's named layout is usable and
        // the built rectangles are exactly that layout in box order.
        assert(placements_ok(pv, sizes@, spacing as int, max_size as int)) by {
            assert forall|p1: int, p2: int|
                0 <= p1 < pv.len() && 0 <= p2 < pv.len() && p1 != p2 implies (#[trigger] pv[p1]).0
                != (#[trigger] pv[p2]).0 by {
                if p1 < p2 {
                } else {
                }
            }
            assert forall|j: int|
                0 <= j < sizes@.len() implies 0 <= #[trigger] tag_index(pv, j) < pv.len()
                && pv[tag_index(pv, j)].0 == j by {
                assert(0 <= wits[j] < pv.len() && pv[wits[j]].0 == j);
                assert(exists|p2: int| 0 <= p2 < pv.len() && (#[trigger] pv[p2]).0 == j);
            }
            assert forall|p1: int| 0 <= p1 < pv.len() implies placed_padded(
                #[trigger] pv[p1],
                sizes@,
                spacing as int,
            ).right() <= max_size as int && placed_padded(pv[p1], sizes@, spacing as int).bottom()
                <= max_size as int by {
                let k = pv[p1].0 as int;
                assert(0 <= wits[k] < n && pv[wits[k]].0 == k);
                if wits[k] != p1 {
                    if wits[k] < p1 {
                        assert(pv[wits[k]].0 != pv[p1].0);
                    } else {
                        assert(pv[p1].0 != pv[wits[k]].0);
                    }
                }
                assert(wits[k] == p1);
                assert(placed_padded(pv[p1], sizes@, spacing as int) == padded(
                    rects@[k],
                    spacing as int,
                ));
            }
            assert forall|p1: int, p2: int|
                0 <= p1 < pv.len() && 0 <= p2 < pv.len() && p1 != p2 implies placed_padded(
                #[trigger] pv[p1],
                sizes@,
                spacing as int,
            ).disjoint(placed_padded(#[trigger] pv[p2], sizes@, spacing as int)) by {
                let k1 = pv[p1].0 as int;
                let k2 = pv[p2].0 as int;
                assert(0 <= wits[k1] < n && pv[wits[k1]].0 == k1);
                assert(0 <= wits[k2] < n && pv[wits[k2]].0 == k2);
                if wits[k1] != p1 {
                    if wits[k1] < p1 {
                        assert(pv[wits[k1]].0 != pv[p1].0);
                    } else {
                        assert(pv[p1].0 != pv[wits[k1]].0);
                    }
                }
                if wits[k2] != p2 {
                    if wits[k2] < p2 {
                        assert(pv[wits[k2]].0 != pv[p2].0);
                    } else {
                        assert(pv[p2].0 != pv[wits[k2]].0);
                    }
                }
                assert(wits[k1] == p1 && wits[k2] == p2);
                assert(k1 != k2);
                assert(placed_padded(pv[p1], sizes@, spacing as int) == padded(
                    rects@[k1],
                    spacing as int,
                ));
                assert(placed_padded(pv[p2], sizes@, spacing as int) == padded(
                    rects@[k2],
                    spacing as int,
                ));
            }
        }
        assert(pv.len() == sizes@.len());
        assert(forall|p2: int| 0 <= p2 < pv.len() ==> (#[trigger] pv[p2]).0 < sizes@.len());
        assert(forall|p1: int, p2: int|
            0 <= p1 < pv.len() && 0 <= p2 < pv.len() && p1 != p2 ==> (#[trigger] pv[p1]).0 != (
            #[trigger] pv[p2]).0);

        assert(forall|p1: int, p2: int|
            0 <= p1 < pv.len() && 0 <= p2 < pv.len() && p1 != p2 ==> placed_padded(
                #[trigger] pv[p1],
                sizes@,
                spacing as int,
            ).disjoint(placed_padded(#[trigger] pv[p2], sizes@, spacing as int)));
        assert(forall|p2: int|
            0 <= p2 < pv.len() ==> placed_padded(#[trigger] pv[p2], sizes@, spacing as int).right()
                <= max_size as int && placed_padded(pv[p2], sizes@, spacing as int).bottom()
                <= max_size as int);
        lemma_packable_iff(sizes@, spacing as int, max_size, pv);
        assert(rects@ =~= layout_rects(pv, sizes@)) by {
            assert forall|j: int| 0 <= j < n implies rects@[j] == layout_rects(pv, sizes@)[j] by {
                assert(0 <= wits[j] < pv.len() && pv[wits[j]].0 == j);
                let ti = tag_index(pv, j);
                assert(0 <= ti < pv.len() && pv[ti].0 == j);
                if ti != wits[j] {
                    if ti < wits[j] {
                        assert(pv[ti].0 != pv[wits[j]].0);
                    } else {
                        assert(pv[wits[j]].0 != pv[ti].0);
                    }
                }
                assert(ti == wits[j]);
            }
        }
        assert(rects@ == packed_layout(sizes@, spacing as int));
    }
    Some((rects, bw as u32, bh as u32))
}

/// The padded boxes' own (unpadded) area sum is the padded area of the
/// original boxes.
proof fn lemma_padded_boxes_area(sizes: Seq<(u32, u32)>, spacing: int, t: int)
    requires
        spacing >= 0,
        0 <= t <= sizes.len(),
        forall|k: int|
            0 <= k < sizes.len() ==> (#[trigger] sizes[k]).0 + spacing <= u32::MAX && sizes[k].1
                + spacing <= u32::MAX,
    ensures
        padded_area(padded_boxes(sizes, spacing).take(t), 0) == padded_area(sizes.take(t), spacing),
    decreases t,
{
    if t > 0 {
        lemma_padded_boxes_area(sizes, spacing, t - 1);
        assert(padded_boxes(sizes, spacing).take(t).drop_last() =~= padded_boxes(
            sizes,
            spacing,
        ).take(t - 1));
        assert(sizes.take(t).drop_last() =~= sizes.take(t - 1));
        assert(padded_boxes(sizes, spacing).take(t).last() == padded_boxes(sizes, spacing)[t - 1]);
        assert(sizes.take(t).last() == sizes[t - 1]);
    }
}

} // verus!
