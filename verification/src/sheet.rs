use vstd::prelude::*;
use crate::bitmap::{blit_chan, Bitmap};
use crate::codec::{encode_png_raw, optimize_png, optimized_png_of, png_of};
use crate::dedup::{deduplicate, multimap_contents, multimap_get_vec, multimap_new, AliasMap};
use crate::error::{Error, SpreetResult};
use crate::geom::Rect;
use crate::index::{
    desc_model, desc_ok, desc_wf, index_json, SpriteDescription, SpriteIndex,
};
use crate::pack::{
    max_bottom, max_right, pack_rects, packable, packed_layout, padded, padded_area,
};
use crate::sprite::Sprite;
use crate::strmap::StrMap;

verus! {

/// The collection the spritesheet is built from: names mapped to sprites,
/// iterated in lexicographic name order.
pub type SpriteCollection = StrMap<Sprite>;

/// A placement layout for the sprites `vals`, in their order: one rectangle
/// per sprite of exactly the sprite's size, pairwise disjoint even after
/// growing each by the spacing, all inside the `bw` by `bh` bin, and the
/// bin tight: some placement touches its right edge and some its bottom
/// edge, so the bin is at least as large as the largest sprite and wastes
/// no trailing space.
pub open spec fn sheet_layout(
    vals: Seq<Sprite>,
    spacing: int,
    rects: Seq<Rect>,
    bw: int,
    bh: int,
) -> bool {
    &&& rects.len() == vals.len()
    &&& rects.len() > 0
    &&& forall|k: int|
        0 <= k < rects.len() ==> (#[trigger] rects[k]).w == vals[k].pixmap.spec_width()
            && rects[k].h == vals[k].pixmap.spec_height()
    &&& forall|k1: int, k2: int|
        0 <= k1 < rects.len() && 0 <= k2 < rects.len() && k1 != k2 ==> padded(
            #[trigger] rects[k1],
            spacing,
        ).disjoint(padded(#[trigger] rects[k2], spacing))
    &&& forall|k: int| 0 <= k < rects.len() ==> (#[trigger] rects[k]).inside(bw, bh)
    &&& exists|k: int| 0 <= k < rects.len() && (#[trigger] rects[k]).right() == bw
    &&& exists|k: int| 0 <= k < rects.len() && (#[trigger] rects[k]).bottom() == bh
    &&& forall|k: int|
        0 <= k < rects.len() ==> (#[trigger] rects[k]).w + spacing <= u32::MAX && rects[k].h
            + spacing <= u32::MAX
}

/// The pixel channel a finished spritesheet holds at (px, py): the pixel of
/// the sprite placed over that point, transparent black where no placement
/// covers it. Only the first `upto` placements are drawn.
pub open spec fn composed_chan(
    vals: Seq<Sprite>,
    rects: Seq<Rect>,
    upto: int,
    px: int,
    py: int,
    c: int,
) -> u8 {
    if exists|k: int| 0 <= k < upto && (#[trigger] rects[k]).covers(px, py) {
        let k = choose|k: int| 0 <= k < upto && (#[trigger] rects[k]).covers(px, py);
        vals[k].pixmap.chan(px - rects[k].x, py - rects[k].y, c)
    } else {
        0u8
    }
}

/// Two placements that stay apart cannot cover the same pixel.
proof fn lemma_cover_unique(ra: Rect, rb: Rect, s: int, px: int, py: int)
    requires
        s >= 0,
        ra.w + s <= u32::MAX,
        rb.w + s <= u32::MAX,
        ra.h + s <= u32::MAX,
        rb.h + s <= u32::MAX,
        padded(ra, s).disjoint(padded(rb, s)),
    ensures
        !(ra.covers(px, py) && rb.covers(px, py)),
{
}

/// No alias name collides with a canonical name or with another alias:
/// what the deduplicator's output always satisfies, since every name there
/// was a distinct key of the input.
pub open spec fn refs_ok(ks: Seq<Seq<char>>, rc: Map<Seq<char>, Seq<Seq<char>>>) -> bool {
    &&& forall|k: int, ai: int, k2: int|
        #![trigger rc[ks[k]][ai], ks[k2]]
        0 <= k < ks.len() && rc.dom().contains(ks[k]) && 0 <= ai < rc[ks[k]].len() && 0 <= k2
            < ks.len() ==> rc[ks[k]][ai] != ks[k2]
    &&& forall|k: int, ai: int, k2: int, ai2: int|
        #![trigger rc[ks[k]][ai], rc[ks[k2]][ai2]]
        0 <= k < ks.len() && rc.dom().contains(ks[k]) && 0 <= ai < rc[ks[k]].len() && 0 <= k2
            < ks.len() && rc.dom().contains(ks[k2]) && 0 <= ai2 < rc[ks[k2]].len() && !(k == k2
            && ai == ai2) ==> rc[ks[k]][ai] != rc[ks[k2]][ai2]
}

/// The deduplicator's output always meets the condition the alias
/// guarantees are stated under: with distinct input names, no alias name
/// collides with a kept canonical name or with another alias, so a
/// spritesheet built from `make_unique`'s output gives every alias its
/// canonical sprite's record.
pub proof fn lemma_dedup_refs_ok(input: Seq<(Seq<char>, Sprite)>)
    requires
        forall|a: int, b: int|
            0 <= a < b < input.len() ==> (#[trigger] input[a]).0 != (#[trigger] input[b]).0,
    ensures
        refs_ok(
            crate::dedup::dedup_spec(input).0.map_values(|e: (Seq<char>, Sprite)| e.0),
            crate::dedup::dedup_spec(input).1,
        ),
{
    crate::dedup::lemma_dedup_prefix_names(input, input.len() as int);
    assert(input.take(input.len() as int) =~= input);
    let kept = crate::dedup::dedup_spec(input).0;
    let refs = crate::dedup::dedup_spec(input).1;
    let ks = kept.map_values(|e: (Seq<char>, Sprite)| e.0);
    assert forall|k: int, ai: int, k2: int|
        #![trigger refs[ks[k]][ai], ks[k2]]
        0 <= k < ks.len() && refs.dom().contains(ks[k]) && 0 <= ai < refs[ks[k]].len() && 0 <= k2
            < ks.len() implies refs[ks[k]][ai] != ks[k2] by {
        assert(ks[k] == kept[k].0);
        assert(ks[k2] == kept[k2].0);
        assert(kept[k2].0 != refs[ks[k]][ai]);
    }
    assert forall|k: int, ai: int, k2: int, ai2: int|
        #![trigger refs[ks[k]][ai], refs[ks[k2]][ai2]]
        0 <= k < ks.len() && refs.dom().contains(ks[k]) && 0 <= ai < refs[ks[k]].len() && 0 <= k2
            < ks.len() && refs.dom().contains(ks[k2]) && 0 <= ai2 < refs[ks[k2]].len() && !(k == k2
            && ai == ai2) implies refs[ks[k]][ai] != refs[ks[k2]][ai2] by {
        assert(ks[k] == kept[k].0);
        assert(ks[k2] == kept[k2].0);
        if k != k2 {
            assert(kept[k].0 != kept[k2].0);
        }
    }
}

/// The boxes to pack: each sprite's bitmap size, in collection order.
pub open spec fn dims_of(vals: Seq<Sprite>) -> Seq<(u32, u32)> {
    vals.map_values(|sp: Sprite| (sp.pixmap.width, sp.pixmap.height))
}

/// When assembling a spritesheet from these sprites succeeds: the packing
/// succeeds (`packable`), and the tight bin it yields can be allocated.
pub open spec fn sheet_possible(sprites: SpriteCollection, spacing: int) -> bool {
    let sizes = dims_of(sprites.vals());
    let rects = packed_layout(sizes, spacing);
    &&& packable(sizes, spacing)
    &&& 4 * (max_right(rects) * max_bottom(rects)) <= usize::MAX
}

/// Everything a finished spritesheet satisfies for the sprites, aliases,
/// flag and spacing it was built from.
pub open spec fn spritesheet_ok(
    sprites: SpriteCollection,
    rc: Map<Seq<char>, Seq<Seq<char>>>,
    sdf: bool,
    spacing: int,
    s: Spritesheet,
) -> bool {
    exists|rects: Seq<Rect>| #[trigger] sheet_built(sprites, rc, sdf, spacing, s, rects)
}

/// The body of `spritesheet_ok`, for one placement layout.
pub open spec fn sheet_built(
    sprites: SpriteCollection,
    rc: Map<Seq<char>, Seq<Seq<char>>>,
    sdf: bool,
    spacing: int,
    s: Spritesheet,
    rects: Seq<Rect>,
) -> bool {
    let ks = sprites.keys();
    let vs = sprites.vals();
    let n = rects.len() as int;
    &&& s.sheet.wf()
    &&& sheet_layout(vs, spacing, rects, s.sheet.spec_width(), s.sheet.spec_height())
    &&& forall|px: int, py: int, c: int|
        0 <= px < s.sheet.spec_width() && 0 <= py < s.sheet.spec_height() && 0 <= c < 4
            ==> #[trigger] s.sheet.chan(px, py, c) == composed_chan(vs, rects, n, px, py, c)
    &&& s.index.wf()
    &&& forall|k: int|
        0 <= k < n ==> s.index.contains_key(#[trigger] ks[k]) && desc_ok(
            s.index.spec_get(ks[k]),
            rects[k],
            vs[k],
            sdf,
        )
    &&& forall|q: Seq<char>| #[trigger] s.index.contains_key(q) ==> desc_wf(s.index.spec_get(q))
    &&& forall|k: int, ai: int|
        #![trigger rc[ks[k]][ai]]
        0 <= k < n && rc.dom().contains(ks[k]) && 0 <= ai < rc[ks[k]].len()
            ==> s.index.contains_key(rc[ks[k]][ai])
    &&& forall|q: Seq<char>|
        #[trigger] s.index.contains_key(q) ==> (exists|k: int| 0 <= k < n && ks[k] == q) || (
        exists|k: int, ai: int|
            #![trigger rc[ks[k]][ai]]
            0 <= k < n && rc.dom().contains(ks[k]) && 0 <= ai < rc[ks[k]].len() && rc[ks[k]][ai]
                == q)
    &&& refs_ok(ks, rc) ==> forall|k: int, ai: int|
        #![trigger rc[ks[k]][ai]]
        0 <= k < n && rc.dom().contains(ks[k]) && 0 <= ai < rc[ks[k]].len() ==> desc_model(
            s.index.spec_get(rc[ks[k]][ai]),
        ) == desc_model(s.index.spec_get(ks[k]))
    &&& forall|q: Seq<char>|
        #[trigger] s.index.contains_key(q) ==> exists|k: int|
            0 <= k < n && desc_model(s.index.spec_get(q)) == desc_model(
                s.index.spec_get(ks[k]),
            )
    &&& rects == packed_layout(dims_of(vs), spacing)
    &&& s.sheet.spec_width() <= 10 * padded_area(dims_of(vs), spacing)
    &&& s.sheet.spec_height() <= 10 * padded_area(dims_of(vs), spacing)
}

/// Build the index for placed sprites: one record per canonical sprite
/// from its placement and metadata, then every alias recorded under its
/// canonical sprite's record, first writer kept.
#[verifier::rlimit(100)]
fn build_index(
    sprites: &SpriteCollection,
    rects: &Vec<Rect>,
    references: &AliasMap,
    sdf: bool,
) -> (index: SpriteIndex)
    requires
        sprites.wf(),
        rects@.len() == sprites.spec_len(),
    ensures
        ({
            let ks = sprites.keys();
            let vs = sprites.vals();
            let rc = multimap_contents(*references);
            let n = sprites.spec_len();
            &&& index.wf()
            &&& forall|k: int|
                0 <= k < n ==> index.contains_key(#[trigger] ks[k]) && desc_ok(
                    index.spec_get(ks[k]),
                    rects@[k],
                    vs[k],
                    sdf,
                )
            &&& forall|q: Seq<char>| #[trigger] index.contains_key(q) ==> desc_wf(index.spec_get(q))
            &&& forall|q: Seq<char>|
                #[trigger] index.contains_key(q) ==> exists|k: int|
                    0 <= k < n && desc_model(index.spec_get(q)) == desc_model(
                        index.spec_get(ks[k]),
                    )
            &&& forall|k: int, ai: int|
                #![trigger rc[ks[k]][ai]]
                0 <= k < n && rc.dom().contains(ks[k]) && 0 <= ai < rc[ks[k]].len()
                    ==> index.contains_key(rc[ks[k]][ai])
            &&& forall|q: Seq<char>|
                #[trigger] index.contains_key(q) ==> (exists|k: int| 0 <= k < n && ks[k] == q) || (
                exists|k: int, ai: int|
                    #![trigger rc[ks[k]][ai]]
                    0 <= k < n && rc.dom().contains(ks[k]) && 0 <= ai < rc[ks[k]].len()
                        && rc[ks[k]][ai] == q)
            &&& refs_ok(ks, rc) ==> forall|k: int, ai: int|
                #![trigger rc[ks[k]][ai]]
                0 <= k < n && rc.dom().contains(ks[k]) && 0 <= ai < rc[ks[k]].len() ==> desc_model(
                    index.spec_get(rc[ks[k]][ai]),
                ) == desc_model(index.spec_get(ks[k]))
        }),
{
    let ghost ks = sprites.keys();
    let ghost vs = sprites.vals();
    let ghost rc = multimap_contents(*references);
    let n = sprites.len();
    let ghost rectsv = rects@;
    // The index: one record per canonical sprite, then the aliases,
    // each sharing its canonical sprite's record.
    let mut index: SpriteIndex = StrMap::new();
    let ghost mut descs: Seq<SpriteDescription> = Seq::empty();
    let mut t1: usize = 0;
    while t1 < n
        invariant
            0 <= t1 <= n,
            n == sprites.spec_len(),
            n == rectsv.len(),
            ks == sprites.keys(),
            vs == sprites.vals(),
            sprites.wf(),
            rectsv == rects@,
            index.wf(),
            descs.len() == t1,
            forall|k: int|
                0 <= k < t1 ==> desc_ok(#[trigger] descs[k], rectsv[k], vs[k], sdf)
                    && desc_wf(descs[k]),
            forall|k: int|
                0 <= k < t1 ==> index.contains_key(#[trigger] ks[k]) && index.spec_get(ks[k])
                    == descs[k],
            forall|q: Seq<char>|
                #[trigger] index.contains_key(q) ==> exists|k: int| 0 <= k < t1 && ks[k] == q,
        decreases n - t1,
    {
        let name = sprites.key_at(t1).clone();
        let d = SpriteDescription::new(&rects[t1], sprites.val_at(t1), sdf);
        let ghost dv = d;
        let ghost preidx = index;
        index.insert(name, d);
        proof {
            descs = descs.push(dv);
            assert forall|k: int| 0 <= k < t1 + 1 implies index.contains_key(#[trigger] ks[k])
                && index.spec_get(ks[k]) == descs[k] by {
                if k < t1 {
                    assert(preidx.contains_key(ks[k]));
                    assert(ks[k] != ks[t1 as int]) by {
                        crate::text::lemma_seq_char_lt_trichotomy(ks[k], ks[t1 as int]);
                    }
                }
            }
        }
        t1 = t1 + 1;
    }
    let ghost canon = index;
    proof {
        assert forall|q: Seq<char>| #[trigger] index.contains_key(q) implies exists|k: int|
            0 <= k < n && desc_model(index.spec_get(q)) == desc_model(descs[k]) by {
            let k0 = choose|k: int| 0 <= k < n && ks[k] == q;
            assert(index.spec_get(ks[k0]) == descs[k0]);
        }
    }
    let mut t2: usize = 0;
    while t2 < n
        invariant
            0 <= t2 <= n,
            n == sprites.spec_len(),
            n == rectsv.len(),
            ks == sprites.keys(),
            vs == sprites.vals(),
            sprites.wf(),
            rc == multimap_contents(*references),
            rectsv == rects@,
            index.wf(),
            descs.len() == n,
            forall|k: int|
                0 <= k < n ==> desc_ok(#[trigger] descs[k], rectsv[k], vs[k], sdf) && desc_wf(
                    descs[k],
                ),
            forall|k: int|
                0 <= k < n ==> index.contains_key(#[trigger] ks[k]) && index.spec_get(ks[k])
                    == descs[k],
            forall|q: Seq<char>|
                #[trigger] index.contains_key(q) ==> desc_wf(index.spec_get(q)),
            forall|q: Seq<char>|
                #[trigger] index.contains_key(q) ==> exists|k: int|
                    0 <= k < n && desc_model(index.spec_get(q)) == desc_model(descs[k]),
            forall|q: Seq<char>|
                #[trigger] index.contains_key(q) ==> (exists|k: int| 0 <= k < n && ks[k] == q)
                    || (exists|k: int, ai: int|
                    #![trigger rc[ks[k]][ai]]
                    0 <= k < t2 && rc.dom().contains(ks[k]) && 0 <= ai < rc[ks[k]].len()
                        && rc[ks[k]][ai] == q),
            forall|k: int, ai: int|
                #![trigger rc[ks[k]][ai]]
                0 <= k < t2 && rc.dom().contains(ks[k]) && 0 <= ai < rc[ks[k]].len()
                    ==> index.contains_key(rc[ks[k]][ai]),
            refs_ok(ks, rc) ==> forall|k: int, ai: int|
                #![trigger rc[ks[k]][ai]]
                0 <= k < t2 && rc.dom().contains(ks[k]) && 0 <= ai < rc[ks[k]].len()
                    ==> desc_model(index.spec_get(rc[ks[k]][ai])) == desc_model(descs[k]),
        decreases n - t2,
    {
        let name = sprites.key_at(t2);
        match multimap_get_vec(references, name) {
            None => {},
            Some(aliases) => {
                let m2 = aliases.len();
                let mut ai: usize = 0;
                while ai < m2
                    invariant
                        0 <= ai <= m2,
                        0 <= t2 < n,
                        n == sprites.spec_len(),
                        n == rectsv.len(),
                        ks == sprites.keys(),
                        vs == sprites.vals(),
                        sprites.wf(),
                        rc == multimap_contents(*references),
                        rectsv == rects@,
                        index.wf(),
                        descs.len() == n,
                        m2 == aliases@.len(),
                        rc.dom().contains(ks[t2 as int]),
                        name@ == ks[t2 as int],
                        aliases@.map_values(|s2: String| s2@) == rc[ks[t2 as int]],
                        forall|k: int|
                            0 <= k < n ==> desc_ok(#[trigger] descs[k], rectsv[k], vs[k], sdf)
                                && desc_wf(descs[k]),
                        forall|k: int|
                            0 <= k < n ==> index.contains_key(#[trigger] ks[k])
                                && index.spec_get(ks[k]) == descs[k],
                        forall|q: Seq<char>|
                            #[trigger] index.contains_key(q) ==> desc_wf(index.spec_get(q)),
                        forall|q: Seq<char>|
                            #[trigger] index.contains_key(q) ==> exists|k: int|
                                0 <= k < n && desc_model(index.spec_get(q)) == desc_model(
                                    descs[k],
                                ),
                        forall|q: Seq<char>|
                            #[trigger] index.contains_key(q) ==> (exists|k: int|
                                0 <= k < n && ks[k] == q) || (exists|k: int, ai2: int|
                                #![trigger rc[ks[k]][ai2]]
                                0 <= k < t2 && rc.dom().contains(ks[k]) && 0 <= ai2
                                    < rc[ks[k]].len() && rc[ks[k]][ai2] == q) || (exists|
                                ai2: int,
                            |
                                0 <= ai2 < ai && #[trigger] rc[ks[t2 as int]][ai2] == q),
                        forall|k: int, ai2: int|
                            #![trigger rc[ks[k]][ai2]]
                            0 <= k < t2 && rc.dom().contains(ks[k]) && 0 <= ai2
                                < rc[ks[k]].len() ==> index.contains_key(rc[ks[k]][ai2]),
                        forall|ai2: int|
                            0 <= ai2 < ai ==> index.contains_key(
                                #[trigger] rc[ks[t2 as int]][ai2],
                            ),
                        refs_ok(ks, rc) ==> forall|k: int, ai2: int|
                            #![trigger rc[ks[k]][ai2]]
                            0 <= k < t2 && rc.dom().contains(ks[k]) && 0 <= ai2
                                < rc[ks[k]].len() ==> desc_model(
                                index.spec_get(rc[ks[k]][ai2]),
                            ) == desc_model(descs[k]),
                        refs_ok(ks, rc) ==> forall|ai2: int|
                            0 <= ai2 < ai ==> desc_model(
                                index.spec_get(#[trigger] rc[ks[t2 as int]][ai2]),
                            ) == desc_model(descs[t2 as int]),
                    decreases m2 - ai,
                {
                    let aname = &aliases[ai];
                    proof {
                        assert(aname@ == rc[ks[t2 as int]][ai as int]);
                    }
                    let present = match index.get(aname.as_str()) {
                        Some(_) => true,
                        None => false,
                    };
                    if !present {
                        let cd = match index.get(name.as_str()) {
                            Some(v) => v.duplicate(),
                            None => {
                                proof {
                                    assert(index.contains_key(ks[t2 as int]));
                                    assert(false);
                                }
                                unreached()
                            },
                        };
                        let ghost preidx = index;
                        let ghost cdv = cd;
                        index.insert(aname.clone(), cd);
                        proof {
                            assert forall|k: int| 0 <= k < n implies index.contains_key(
                                #[trigger] ks[k],
                            ) && index.spec_get(ks[k]) == descs[k] by {
                                assert(preidx.contains_key(ks[k]));
                                if ks[k] == aname@ {
                                    assert(preidx.contains_key(aname@));
                                    assert(false);
                                }
                            }
                            assert forall|q2: Seq<char>| #[trigger] index.contains_key(
                                q2,
                            ) implies exists|k: int|
                                0 <= k < n && desc_model(index.spec_get(q2)) == desc_model(
                                    descs[k],
                                ) by {
                                if q2 == aname@ {
                                    assert(index.spec_get(aname@) == cdv);
                                    assert(desc_model(cdv) == desc_model(descs[t2 as int]));
                                } else {
                                    assert(preidx.contains_key(q2));
                                    let k0 = choose|k: int|
                                        0 <= k < n && desc_model(preidx.spec_get(q2))
                                            == desc_model(descs[k]);
                                    assert(index.spec_get(q2) == preidx.spec_get(q2));
                                }
                            }
                        }
                    }
                    ai = ai + 1;
                }
            },
        }
        t2 = t2 + 1;
    }
    proof {
        assert forall|q: Seq<char>| #[trigger] index.contains_key(q) implies exists|k: int|
            0 <= k < n && desc_model(index.spec_get(q)) == desc_model(index.spec_get(ks[k])) by {
            let k0 = choose|k: int|
                0 <= k < n && desc_model(index.spec_get(q)) == desc_model(descs[k]);
            assert(index.spec_get(ks[k0]) == descs[k0]);
        }
    }
    index
}

/// A bitmapped spritesheet and its matching index.
pub struct Spritesheet {
    pub sheet: Bitmap,
    pub index: SpriteIndex,
}

impl Spritesheet {
    /// Assemble a spritesheet: pack the sprites' rectangles, composite the
    /// bitmap, and record every name, aliases included, in the index.
    /// Nothing is produced when there are no sprites, when no layout within
    /// the growth bound exists, or when the bin outgrows the machine's
    /// limits; a built sheet satisfies `spritesheet_ok` in full.
    #[verifier::rlimit(100)]
    pub fn new(sprites: SpriteCollection, references: AliasMap, sdf: bool, spacing: u32) -> (r:
        Option<Spritesheet>)
        requires
            sprites.wf(),
            forall|k: int|
                0 <= k < sprites.vals().len() ==> (#[trigger] sprites.vals()[k]).wf(),
        ensures
            r is Some <==> sheet_possible(sprites, spacing as int),
            match r {
                Some(s) => spritesheet_ok(
                    sprites,
                    multimap_contents(references),
                    sdf,
                    spacing as int,
                    s,
                ),
                None => true,
            },
    {
        let ghost ks = sprites.keys();
        let ghost vs = sprites.vals();
        let ghost rc = multimap_contents(references);
        let n = sprites.len();
        if n == 0 {
            proof {
                assert(dims_of(vs).len() == 0);
            }
            return None;
        }
        // The boxes to pack: each sprite's bitmap size.
        let mut sizes: Vec<(u32, u32)> = Vec::new();
        let mut t: usize = 0;
        while t < n
            invariant
                0 <= t <= n,
                n == sprites.spec_len(),
                vs == sprites.vals(),
                sizes@.len() == t,
                forall|k: int|
                    0 <= k < t ==> (#[trigger] sizes@[k]).0 == vs[k].pixmap.spec_width()
                        && sizes@[k].1 == vs[k].pixmap.spec_height(),
            decreases n - t,
        {
            let sp = sprites.val_at(t);
            sizes.push((sp.pixmap().width(), sp.pixmap().height()));
            t = t + 1;
        }
        proof {
            assert(sizes@ =~= dims_of(vs));
        }
        let (rects, bw, bh) = match pack_rects(&sizes, spacing) {
            Some(p) => p,
            None => {
                proof {
                    assert(!packable(dims_of(vs), spacing as int));
                }
                return None;
            },
        };
        let ghost rectsv = rects@;
        proof {
            assert((bw as int) * (bh as int) <= u64::MAX) by (nonlinear_arith)
                requires
                    bw <= u32::MAX,
                    bh <= u32::MAX,
            ;
            assert(rectsv == packed_layout(dims_of(vs), spacing as int));
            assert(bw == max_right(rectsv) && bh == max_bottom(rectsv));
        }
        if (bw as u64) * (bh as u64) > (usize::MAX as u64) / 4 {
            proof {
                assert(4 * ((bw as int) * (bh as int)) > usize::MAX);
                assert(!sheet_possible(sprites, spacing as int));
            }
            return None;
        }
        proof {
            assert(4 * ((bw as int) * (bh as int)) <= usize::MAX);
            assert(sheet_possible(sprites, spacing as int));
        }
        // Composite every sprite at its placement over a transparent sheet.
        let mut sheet = Bitmap::blank(bw, bh);
        proof {
            assert forall|px: int, py: int, c: int|
                0 <= px < bw as int && 0 <= py < bh as int && 0 <= c < 4 implies #[trigger] sheet
                .chan(px, py, c) == composed_chan(vs, rectsv, 0, px, py, c) by {
                let dh = bh as int;
                assert((py * (bw as int) + px) < (bw as int) * dh) by (nonlinear_arith)
                    requires
                        0 <= px < bw as int,
                        0 <= py < dh,
                ;
                assert(4 * (py * (bw as int) + px) + c < sheet.bytes().len());
            }
        }
        let mut b: usize = 0;
        while b < n
            invariant
                0 <= b <= n,
                n == sprites.spec_len(),
                n == rectsv.len(),
                vs == sprites.vals(),
                forall|k: int| 0 <= k < vs.len() ==> (#[trigger] vs[k]).wf(),
                rectsv == rects@,
                sheet.wf(),
                sheet.spec_width() == bw as int,
                sheet.spec_height() == bh as int,
                forall|k: int|
                    0 <= k < n ==> (#[trigger] rectsv[k]).w == vs[k].pixmap.spec_width()
                        && rectsv[k].h == vs[k].pixmap.spec_height(),
                forall|k1: int, k2: int|
                    0 <= k1 < n && 0 <= k2 < n && k1 != k2 ==> padded(
                        #[trigger] rectsv[k1],
                        spacing as int,
                    ).disjoint(padded(#[trigger] rectsv[k2], spacing as int)),
                forall|k: int|
                    0 <= k < n ==> (#[trigger] rectsv[k]).inside(bw as int, bh as int),
                forall|k: int|
                    0 <= k < n ==> (#[trigger] rectsv[k]).w + spacing <= u32::MAX && rectsv[k].h
                        + spacing <= u32::MAX,
                forall|px: int, py: int, c: int|
                    0 <= px < bw as int && 0 <= py < bh as int && 0 <= c < 4 ==> #[trigger] sheet
                        .chan(px, py, c) == composed_chan(vs, rectsv, b as int, px, py, c),
            decreases n - b,
        {
            let rcb = rects[b];
            let ghost pre = sheet;
            sheet.blit(sprites.val_at(b).pixmap(), rcb.x, rcb.y);
            proof {
                assert forall|px: int, py: int, c: int|
                    0 <= px < bw as int && 0 <= py < bh as int && 0 <= c < 4 implies #[trigger] sheet
                    .chan(px, py, c) == composed_chan(vs, rectsv, b + 1, px, py, c) by {
                    let bi = b as int;
                    assert(sheet.chan(px, py, c) == blit_chan(
                        pre,
                        vs[bi].pixmap,
                        rcb.x as int,
                        rcb.y as int,
                        px,
                        py,
                        c,
                    ));
                    if rectsv[bi].covers(px, py) {
                        assert(exists|k: int|
                            0 <= k < bi + 1 && (#[trigger] rectsv[k]).covers(px, py));
                        let k0 = choose|k: int|
                            0 <= k < bi + 1 && (#[trigger] rectsv[k]).covers(px, py);
                        if k0 != bi {
                            lemma_cover_unique(rectsv[k0], rectsv[bi], spacing as int, px, py);
                        }
                        assert(k0 == bi);
                    } else {
                        assert(sheet.chan(px, py, c) == pre.chan(px, py, c));
                        assert(pre.chan(px, py, c) == composed_chan(vs, rectsv, bi, px, py, c));
                        if exists|k: int| 0 <= k < bi + 1 && (#[trigger] rectsv[k]).covers(px, py) {
                            let k1 = choose|k: int|
                                0 <= k < bi + 1 && (#[trigger] rectsv[k]).covers(px, py);
                            assert(k1 != bi);
                            assert(exists|k: int|
                                0 <= k < bi && (#[trigger] rectsv[k]).covers(px, py));
                            let k2 = choose|k: int|
                                0 <= k < bi && (#[trigger] rectsv[k]).covers(px, py);
                            if k1 != k2 {
                                lemma_cover_unique(rectsv[k1], rectsv[k2], spacing as int, px, py);
                            }
                        } else {
                            assert(!exists|k: int|
                                0 <= k < bi && (#[trigger] rectsv[k]).covers(px, py));
                        }
                    }
                }
            }
            b = b + 1;
        }
        let index = build_index(&sprites, &rects, &references, sdf);
        let s = Spritesheet { sheet, index };
        proof {
            assert(sheet_built(sprites, rc, sdf, spacing as int, s, rectsv));
        }
        Some(s)
    }

    /// Start a builder.
    pub fn build() -> (r: SpritesheetBuilder)
        ensures
            r.sprites is None,
            r.references is None,
            r.sdf == false,
            r.spacing == 0,
    {
        SpritesheetBuilder::new()
    }

    /// Encode the spritesheet's bitmap as an optimised PNG byte stream.
    /// Encoding succeeds exactly when the codec accepts the bitmap and the
    /// optimiser its stream; the stage that refused decides the error.
    pub fn encode_png(&self) -> (r: SpreetResult<Vec<u8>>)
        ensures
            r is Ok <==> (png_of(
                self.sheet.spec_width(),
                self.sheet.spec_height(),
                self.sheet.bytes(),
            ) matches Ok(p) && optimized_png_of(p) is Ok),
            match r {
                Ok(b) => png_of(
                    self.sheet.spec_width(),
                    self.sheet.spec_height(),
                    self.sheet.bytes(),
                ) matches Ok(p) && optimized_png_of(p) == crate::codec::ok_bytes(b@),
                Err(e) => {
                    &&& e is PngError || e is OxiPngError
                    &&& e is PngError ==> png_of(
                        self.sheet.spec_width(),
                        self.sheet.spec_height(),
                        self.sheet.bytes(),
                    ) is Err
                },
            },
    {
        match encode_png_raw(self.sheet.width(), self.sheet.height(), self.sheet.data()) {
            Ok(p) => match optimize_png(&p) {
                Ok(o) => Ok(o),
                Err(msg) => Err(Error::OxiPngError(msg)),
            },
            Err(msg) => Err(Error::PngError(msg)),
        }
    }

    /// Get the index that matches the spritesheet.
    pub fn get_index(&self) -> (r: &SpriteIndex)
        ensures
            *r == self.index,
    {
        &self.index
    }

    /// The JSON text of the index: minified, or pretty-printed.
    pub fn index_json(&self, minify: bool) -> (r: String)
        requires
            self.index.wf(),
            forall|q: Seq<char>|
                #[trigger] self.index.contains_key(q) ==> desc_wf(self.index.spec_get(q)),
        ensures
            minify ==> r@ == crate::index::index_json_min(crate::index::index_entries(self.index)),
            !minify ==> r@ == crate::index::index_json_pretty(
                crate::index::index_entries(self.index),
            ),
    {
        proof {
            assert forall|i: int| 0 <= i < self.index.vals().len() implies desc_wf(
                #[trigger] self.index.vals()[i],
            ) by {
                self.index.lemma_key_at(i);
            }
        }
        index_json(&self.index, minify)
    }
}

/// Configuration gathered before a spritesheet is assembled: the sprites,
/// any alias map, the distance-field flag and the spacing.
pub struct SpritesheetBuilder {
    pub sprites: Option<SpriteCollection>,
    pub references: Option<AliasMap>,
    pub sdf: bool,
    pub spacing: u32,
}

impl SpritesheetBuilder {
    /// The held sprites, where set, are a sound collection.
    pub open spec fn wf(self) -> bool {
        match self.sprites {
            Some(m) => m.wf() && forall|k: int|
                0 <= k < m.vals().len() ==> (#[trigger] m.vals()[k]).wf(),
            None => true,
        }
    }

    pub fn new() -> (r: SpritesheetBuilder)
        ensures
            r.sprites is None,
            r.references is None,
            r.sdf == false,
            r.spacing == 0,
            r.wf(),
    {
        SpritesheetBuilder { sprites: None, references: None, sdf: false, spacing: 0 }
    }

    /// Set the sprites the spritesheet will hold.
    pub fn sprites(&mut self, sprites: SpriteCollection)
        requires
            sprites.wf(),
            forall|k: int|
                0 <= k < sprites.vals().len() ==> (#[trigger] sprites.vals()[k]).wf(),
        ensures
            final(self).sprites == Some(sprites),
            final(self).references == old(self).references,
            final(self).sdf == old(self).sdf,
            final(self).spacing == old(self).spacing,
            final(self).wf(),
    {
        self.sprites = Some(sprites);
    }

    /// Set the spacing kept between sprites in the spritesheet.
    pub fn spacing(&mut self, spacing: u32)
        requires
            old(self).wf(),
        ensures
            final(self).spacing == spacing,
            final(self).sprites == old(self).sprites,
            final(self).references == old(self).references,
            final(self).sdf == old(self).sdf,
            final(self).wf(),
    {
        self.spacing = spacing;
    }

    /// Record that every sprite held is a signed-distance-field sprite, so
    /// the index marks each entry as one. The sprites themselves must have
    /// been built with `Sprite::new_sdf` beforehand.
    pub fn make_sdf(&mut self)
        requires
            old(self).wf(),
        ensures
            final(self).sdf == true,
            final(self).sprites == old(self).sprites,
            final(self).references == old(self).references,
            final(self).spacing == old(self).spacing,
            final(self).wf(),
    {
        self.sdf = true;
    }

    /// Remove duplicate sprites: keep one sprite per distinct raster and
    /// record every further name as an alias of its canonical sprite, so
    /// the index still lists every name.
    pub fn make_unique(&mut self)
        requires
            old(self).wf(),
        ensures
            final(self).sdf == old(self).sdf,
            final(self).spacing == old(self).spacing,
            final(self).wf(),
            match old(self).sprites {
                Some(m) => {
                    &&& final(self).sprites matches Some(u) && crate::dedup::entries_view(u)
                        == crate::dedup::dedup_spec(crate::dedup::entries_view(m)).0
                    &&& final(self).references matches Some(rf) && multimap_contents(rf)
                        == crate::dedup::dedup_spec(crate::dedup::entries_view(m)).1
                },
                None => final(self).sprites is None && final(self).references is None,
            },
    {
        let cur = self.sprites.take();
        match cur {
            Some(m) => {
                let ghost mv = m;
                let (unique, refs) = deduplicate(m);
                proof {
                    let uv = crate::dedup::entries_view(unique);
                    let iv = crate::dedup::entries_view(mv);
                    assert forall|k: int| 0 <= k < unique.vals().len() implies (
                    #[trigger] unique.vals()[k]).wf() by {
                        assert(uv[k] == (unique.entries@[k].0@, unique.entries@[k].1));
                        let t = choose|t: int| 0 <= t < iv.len() && uv[k] == iv[t];
                        assert(iv[t] == (mv.entries@[t].0@, mv.entries@[t].1));
                        assert(unique.vals()[k] == mv.vals()[t]);
                    }
                }
                self.sprites = Some(unique);
                self.references = Some(refs);
            },
            None => {
                self.references = None;
            },
        }
    }

    /// Assemble the spritesheet from the gathered configuration.
    pub fn generate(self) -> (r: Option<Spritesheet>)
        requires
            self.wf(),
        ensures
            r is Some <==> (self.sprites matches Some(m) && sheet_possible(
                m,
                self.spacing as int,
            )),
            match r {
                Some(s) => self.sprites matches Some(m) && spritesheet_ok(
                    m,
                    match self.references {
                        Some(rf) => multimap_contents(rf),
                        None => crate::dedup::no_contents(),
                    },
                    self.sdf,
                    self.spacing as int,
                    s,
                ),
                None => true,
            },
    {
        let sdf = self.sdf;
        let spacing = self.spacing;
        let sprites = match self.sprites {
            Some(m) => m,
            None => { return None },
        };
        let references = match self.references {
            Some(rf) => rf,
            None => multimap_new(),
        };
        Spritesheet::new(sprites, references, sdf, spacing)
    }
}

} // verus!
