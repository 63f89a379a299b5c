use vstd::prelude::*;
use crate::bitmap::Bitmap;
use crate::sprite::Sprite;
use crate::strmap::StrMap;

verus! {

/// The name-to-alias map the deduplicator produces, as the external
/// multimap holds it: for each key, the list of values inserted under it,
/// in insertion order.
pub uninterp spec fn multimap_contents(m: multimap::MultiMap<String, String>) -> Map<
    Seq<char>,
    Seq<Seq<char>>,
>;

/// The external multimap type the alias map lives in.
#[verifier::external_type_specification]
#[verifier::external_body]
#[verifier::reject_recursive_types(K)]
#[verifier::reject_recursive_types(V)]
#[verifier::reject_recursive_types(S)]
pub struct ExMultiMap<K, V, S>(multimap::MultiMap<K, V, S>);

/// The alias multimap's concrete type.
pub type AliasMap = multimap::MultiMap<String, String>;

/// An alias map with nothing in it.
pub open spec fn no_contents() -> Map<Seq<char>, Seq<Seq<char>>> {
    Map::empty()
}

/// Relies on multimap::MultiMap::new: a fresh multimap holds nothing.
#[verifier::external_body]
pub fn multimap_new() -> (r: AliasMap)
    ensures
        multimap_contents(r) == no_contents(),
{
    multimap::MultiMap::new()
}

/// Relies on multimap::MultiMap::insert: the value is appended to the list
/// under its key, a fresh key starting with a one-element list.
#[verifier::external_body]
pub fn multimap_insert(m: &mut multimap::MultiMap<String, String>, k: String, v: String)
    ensures
        multimap_contents(*final(m)) == ({
            let c = multimap_contents(*old(m));
            let prev = if c.dom().contains(k@) {
                c[k@]
            } else {
                Seq::empty()
            };
            c.insert(k@, prev.push(v@))
        }),
{
    m.insert(k, v);
}

/// Relies on multimap::MultiMap::get_vec: the list of values under the key,
/// or nothing when the key was never inserted.
#[verifier::external_body]
pub fn multimap_get_vec(m: &multimap::MultiMap<String, String>, k: &String) -> (r: Option<
    Vec<String>,
>)
    ensures
        match r {
            Some(v) => multimap_contents(*m).dom().contains(k@) && v@.map_values(|s: String| s@)
                == multimap_contents(*m)[k@],
            None => !multimap_contents(*m).dom().contains(k@),
        },
{
    m.get_vec(k).cloned()
}

/// Two bitmaps carry byte-identical rasters: same size, same bytes. The
/// raster bytes are a sprite's fingerprint for deduplication.
pub open spec fn same_raster(a: Bitmap, b: Bitmap) -> bool {
    a.spec_width() == b.spec_width() && a.spec_height() == b.spec_height() && a.bytes() == b.bytes()
}

/// Exec mirror of `same_raster`.
pub fn raster_equal(a: &Bitmap, b: &Bitmap) -> (r: bool)
    ensures
        r == same_raster(*a, *b),
{
    if a.width() != b.width() || a.height() != b.height() {
        return false;
    }
    let da = a.data();
    let db = b.data();
    if da.len() != db.len() {
        return false;
    }
    let n = da.len();
    let mut i: usize = 0;
    while i < n
        invariant
            0 <= i <= n,
            n == da@.len(),
            n == db@.len(),
            da@ == a.bytes(),
            db@ == b.bytes(),
            forall|j: int| 0 <= j < i ==> da@[j] == db@[j],
        decreases n - i,
    {
        if da[i] != db[i] {
            return false;
        }
        i = i + 1;
    }
    proof {
        assert(a.bytes() =~= b.bytes());
    }
    true
}

/// The entries a sprite collection holds, as (name, sprite) pairs in
/// storage order.
pub open spec fn entries_view(m: StrMap<Sprite>) -> Seq<(Seq<char>, Sprite)> {
    m.entries@.map_values(|e: (String, Sprite)| (e.0@, e.1))
}

/// The position of the first already-kept sprite with the same raster, or
/// a negative number when there is none.
pub open spec fn find_match(kept: Seq<(Seq<char>, Sprite)>, s: Sprite) -> int
    decreases kept.len(),
{
    if kept.len() == 0 {
        -1
    } else if same_raster(kept[0].1.pixmap, s.pixmap) {
        0
    } else {
        let r = find_match(kept.skip(1), s);
        if r < 0 {
            -1
        } else {
            1 + r
        }
    }
}

/// What deduplication yields, processing sprites in order: the kept
/// canonical entries, and the map from canonical name to the aliases that
/// shared its raster, in first-seen order.
pub open spec fn dedup_spec(input: Seq<(Seq<char>, Sprite)>) -> (
    Seq<(Seq<char>, Sprite)>,
    Map<Seq<char>, Seq<Seq<char>>>,
)
    decreases input.len(),
{
    if input.len() == 0 {
        (Seq::empty(), Map::empty())
    } else {
        let prev = dedup_spec(input.drop_last());
        let kept = prev.0;
        let refs = prev.1;
        let e = input.last();
        let fm = find_match(kept, e.1);
        if fm >= 0 {
            let c = kept[fm].0;
            let before = if refs.dom().contains(c) {
                refs[c]
            } else {
                Seq::empty()
            };
            (kept, refs.insert(c, before.push(e.0)))
        } else {
            (kept.push(e), refs)
        }
    }
}

/// A scan that saw no match before `idx` pins `find_match` down.
proof fn lemma_find_match_at(kept: Seq<(Seq<char>, Sprite)>, s: Sprite, idx: int)
    requires
        0 <= idx <= kept.len(),
        forall|j: int| 0 <= j < idx ==> !same_raster((#[trigger] kept[j]).1.pixmap, s.pixmap),
        idx == kept.len() || same_raster(kept[idx].1.pixmap, s.pixmap),
    ensures
        find_match(kept, s) == if idx == kept.len() {
            -1int
        } else {
            idx
        },
    decreases idx,
{
    if kept.len() == 0 || idx == 0 {
    } else {
        assert(!same_raster(kept[0].1.pixmap, s.pixmap));
        assert forall|j: int| 0 <= j < idx - 1 implies !same_raster(
            (#[trigger] kept.skip(1)[j]).1.pixmap,
            s.pixmap,
        ) by {
            assert(kept.skip(1)[j] == kept[j + 1]);
        }
        lemma_find_match_at(kept.skip(1), s, idx - 1);
    }
}

/// A found match really is a match.
proof fn lemma_find_match_found(kept: Seq<(Seq<char>, Sprite)>, s: Sprite)
    requires
        find_match(kept, s) >= 0,
    ensures
        0 <= find_match(kept, s) < kept.len(),
        same_raster(kept[find_match(kept, s)].1.pixmap, s.pixmap),
    decreases kept.len(),
{
    if kept.len() == 0 {
    } else if same_raster(kept[0].1.pixmap, s.pixmap) {
    } else {
        lemma_find_match_found(kept.skip(1), s);
        assert(kept.skip(1)[find_match(kept.skip(1), s)] == kept[1 + find_match(kept.skip(1), s)]);
    }
}

/// Where some kept sprite shares the raster, a match is found.
proof fn lemma_find_match_exists(kept: Seq<(Seq<char>, Sprite)>, s: Sprite, e: int)
    requires
        0 <= e < kept.len(),
        same_raster(kept[e].1.pixmap, s.pixmap),
    ensures
        find_match(kept, s) >= 0,
    decreases kept.len(),
{
    if same_raster(kept[0].1.pixmap, s.pixmap) {
    } else {
        assert(kept.skip(1)[e - 1] == kept[e]);
        lemma_find_match_exists(kept.skip(1), s, e - 1);
    }
}

/// The facts deduplication maintains over every processed prefix: kept
/// entries come from the input, a sprite whose raster matched an earlier
/// one keeps a same-raster representative among the kept entries, and the
/// duplicate at `j` of the sprite at `i` is recorded as an alias.
proof fn lemma_dedup_prefix(input: Seq<(Seq<char>, Sprite)>, i: int, j: int, t: int)
    requires
        0 <= i < j < input.len(),
        same_raster(input[i].1.pixmap, input[j].1.pixmap),
        forall|a: int, b: int| 0 <= a < b < input.len() ==> (#[trigger] input[a]).0 != (#[trigger] input[b]).0,
        0 <= t <= input.len(),
    ensures
        ({
            let kept = dedup_spec(input.take(t)).0;
            let refs = dedup_spec(input.take(t)).1;
            &&& forall|e: int|
                0 <= e < kept.len() ==> exists|s: int| 0 <= s < t && #[trigger] kept[e] == input[s]
            &&& t > i ==> exists|e: int|
                0 <= e < kept.len() && same_raster(
                    (#[trigger] kept[e]).1.pixmap,
                    input[i].1.pixmap,
                )
            &&& t > j ==> {
                &&& forall|e: int| 0 <= e < kept.len() ==> (#[trigger] kept[e]).0 != input[j].0
                &&& exists|e: int|
                    0 <= e < kept.len() && same_raster(
                        (#[trigger] kept[e]).1.pixmap,
                        input[j].1.pixmap,
                    ) && refs.dom().contains(kept[e].0) && refs[kept[e].0].contains(input[j].0)
            }
        }),
    decreases t,
{
    if t == 0 {
        assert(input.take(0) =~= Seq::<(Seq<char>, Sprite)>::empty());
    } else {
        lemma_dedup_prefix(input, i, j, t - 1);
        let pre = input.take(t - 1);
        let cur = input.take(t);
        assert(cur.drop_last() =~= pre);
        assert(cur.last() == input[t - 1]);
        let kept0 = dedup_spec(pre).0;
        let refs0 = dedup_spec(pre).1;
        let e = input[t - 1];
        let fm = find_match(kept0, e.1);
        if t - 1 == j {
            // The earlier sprite at `i` has a representative, so this one
            // must be aliased, not kept.
            let rep = choose|r: int|
                0 <= r < kept0.len() && same_raster((#[trigger] kept0[r]).1.pixmap, input[i].1.pixmap);
            lemma_find_match_exists(kept0, e.1, rep);
        }
        if fm >= 0 {
            lemma_find_match_found(kept0, e.1);
            let c = kept0[fm].0;
            let kept = dedup_spec(cur).0;
            let refs = dedup_spec(cur).1;
            assert(kept == kept0);
            if t - 1 == j {
                assert(same_raster(kept[fm].1.pixmap, input[j].1.pixmap));
                assert(refs.dom().contains(c));
                assert(refs[c].contains(input[j].0)) by {
                    let before = if refs0.dom().contains(c) {
                        refs0[c]
                    } else {
                        Seq::empty()
                    };
                    assert(refs[c] == before.push(input[j].0));
                    assert(refs[c].last() == input[j].0);
                }
                assert forall|q: int| 0 <= q < kept.len() implies (#[trigger] kept[q]).0
                    != input[j].0 by {
                    let s = choose|s: int| 0 <= s < t - 1 && #[trigger] kept0[q] == input[s];
                    assert(input[s].0 != input[j].0);
                }
            } else if t - 1 > j {
                // The alias record persists: inserting under `c` only
                // appends to a list.
                let olde = choose|q: int|
                    0 <= q < kept0.len() && same_raster(
                        (#[trigger] kept0[q]).1.pixmap,
                        input[j].1.pixmap,
                    ) && refs0.dom().contains(kept0[q].0) && refs0[kept0[q].0].contains(
                        input[j].0,
                    );
                assert(refs.dom().contains(kept[olde].0));
                if kept0[olde].0 == c {
                    let before = refs0[c];
                    assert(refs[c] == before.push(e.0));
                    let w = choose|w: int| 0 <= w < before.len() && before[w] == input[j].0;
                    assert(refs[c][w] == input[j].0);
                } else {
                    assert(refs[kept[olde].0] == refs0[kept0[olde].0]);
                }
                assert(exists|q: int|
                    0 <= q < kept.len() && same_raster(
                        (#[trigger] kept[q]).1.pixmap,
                        input[j].1.pixmap,
                    ) && refs.dom().contains(kept[q].0) && refs[kept[q].0].contains(input[j].0));
            }
        } else {
            let kept = dedup_spec(cur).0;
            let refs = dedup_spec(cur).1;
            assert(kept == kept0.push(e));
            assert(refs == refs0);
            assert forall|q: int| 0 <= q < kept.len() implies exists|s: int|
                0 <= s < t && #[trigger] kept[q] == input[s] by {
                if q < kept0.len() {
                    let s = choose|s: int| 0 <= s < t - 1 && #[trigger] kept0[q] == input[s];
                    assert(kept[q] == input[s]);
                } else {
                    assert(kept[q] == input[t - 1]);
                }
            }
            if t - 1 == i {
                assert(kept[kept.len() - 1] == e);
                assert(same_raster(kept[kept.len() - 1].1.pixmap, input[i].1.pixmap));
            } else if t - 1 > i {
                let r = choose|r: int|
                    0 <= r < kept0.len() && same_raster(
                        (#[trigger] kept0[r]).1.pixmap,
                        input[i].1.pixmap,
                    );
                assert(kept[r] == kept0[r]);
                assert(same_raster(kept[r].1.pixmap, input[i].1.pixmap));
            }
            if t - 1 > j {
                let q = choose|q: int|
                    0 <= q < kept0.len() && same_raster(
                        (#[trigger] kept0[q]).1.pixmap,
                        input[j].1.pixmap,
                    ) && refs0.dom().contains(kept0[q].0) && refs0[kept0[q].0].contains(
                        input[j].0,
                    );
                assert(kept[q] == kept0[q]);
                assert forall|q2: int| 0 <= q2 < kept.len() implies (#[trigger] kept[q2]).0
                    != input[j].0 by {
                    if q2 < kept0.len() {
                    } else {
                        assert(kept[q2] == e);
                        assert(input[t - 1].0 != input[j].0);
                    }
                }
            }
        }
    }
}

/// The name bookkeeping deduplication maintains over every processed
/// prefix: kept names are distinct input names, the alias map's keys are
/// kept names, and the alias names are distinct dropped input names that
/// never collide with a kept name.
pub(crate) proof fn lemma_dedup_prefix_names(input: Seq<(Seq<char>, Sprite)>, t: int)
    requires
        forall|a: int, b: int|
            0 <= a < b < input.len() ==> (#[trigger] input[a]).0 != (#[trigger] input[b]).0,
        0 <= t <= input.len(),
    ensures
        ({
            let kept = dedup_spec(input.take(t)).0;
            let refs = dedup_spec(input.take(t)).1;
            &&& forall|e: int|
                0 <= e < kept.len() ==> exists|s: int| 0 <= s < t && #[trigger] kept[e] == input[s]
            &&& forall|e1: int, e2: int|
                0 <= e1 < kept.len() && 0 <= e2 < kept.len() && e1 != e2 ==> (#[trigger] kept[e1]).0
                    != (#[trigger] kept[e2]).0
            &&& forall|c: Seq<char>|
                #[trigger] refs.dom().contains(c) ==> exists|e: int|
                    0 <= e < kept.len() && kept[e].0 == c
            &&& forall|c: Seq<char>, ai: int|
                #![trigger refs[c][ai]]
                refs.dom().contains(c) && 0 <= ai < refs[c].len() ==> (exists|s: int|
                    0 <= s < t && refs[c][ai] == input[s].0) && (forall|e: int|
                    0 <= e < kept.len() ==> (#[trigger] kept[e]).0 != refs[c][ai])
            &&& forall|c1: Seq<char>, a1: int, c2: Seq<char>, a2: int|
                #![trigger refs[c1][a1], refs[c2][a2]]
                refs.dom().contains(c1) && 0 <= a1 < refs[c1].len() && refs.dom().contains(c2) && 0
                    <= a2 < refs[c2].len() && !(c1 == c2 && a1 == a2) ==> refs[c1][a1]
                    != refs[c2][a2]
        }),
    decreases t,
{
    if t == 0 {
        assert(input.take(0) =~= Seq::<(Seq<char>, Sprite)>::empty());
    } else {
        lemma_dedup_prefix_names(input, t - 1);
        let pre = input.take(t - 1);
        let cur = input.take(t);
        assert(cur.drop_last() =~= pre);
        assert(cur.last() == input[t - 1]);
        let kept0 = dedup_spec(pre).0;
        let refs0 = dedup_spec(pre).1;
        let e = input[t - 1];
        let fm = find_match(kept0, e.1);
        let kept = dedup_spec(cur).0;
        let refs = dedup_spec(cur).1;
        // The sprite processed here carries a name no earlier sprite had.
        assert forall|s: int| 0 <= s < t - 1 implies input[s].0 != e.0 by {
            assert(input[s].0 != input[t - 1].0);
        }
        if fm >= 0 {
            lemma_find_match_found(kept0, e.1);
            let c = kept0[fm].0;
            assert(kept == kept0);
            assert forall|c1: Seq<char>| #[trigger] refs.dom().contains(c1) implies exists|e2: int|
                0 <= e2 < kept.len() && kept[e2].0 == c1 by {
                if c1 == c {
                    assert(kept[fm].0 == c1);
                }
            }
            assert forall|c1: Seq<char>, ai: int|
                #![trigger refs[c1][ai]]
                refs.dom().contains(c1) && 0 <= ai < refs[c1].len() implies (exists|s: int|
                0 <= s < t && refs[c1][ai] == input[s].0) && (forall|e2: int|
                0 <= e2 < kept.len() ==> (#[trigger] kept[e2]).0 != refs[c1][ai]) by {
                if c1 == c && ai == refs[c1].len() - 1 && (!refs0.dom().contains(c) || ai
                    >= refs0[c].len()) {
                    assert(refs[c1][ai] == e.0);
                    assert(0 <= t - 1 < t && refs[c1][ai] == input[t - 1].0);
                    assert forall|e2: int| 0 <= e2 < kept.len() implies (#[trigger] kept[e2]).0
                        != refs[c1][ai] by {
                        let s = choose|s: int| 0 <= s < t - 1 && #[trigger] kept0[e2] == input[s];
                        assert(input[s].0 != e.0);
                    }
                } else {
                    assert(refs0.dom().contains(c1) && 0 <= ai < refs0[c1].len());
                    assert(refs[c1][ai] == refs0[c1][ai]);
                }
            }
            assert forall|c1: Seq<char>, a1: int, c2: Seq<char>, a2: int|
                #![trigger refs[c1][a1], refs[c2][a2]]
                refs.dom().contains(c1) && 0 <= a1 < refs[c1].len() && refs.dom().contains(c2) && 0
                    <= a2 < refs[c2].len() && !(c1 == c2 && a1 == a2) implies refs[c1][a1]
                != refs[c2][a2] by {
                let new1 = c1 == c && a1 == refs[c].len() - 1 && (!refs0.dom().contains(c) || a1
                    >= refs0[c].len());
                let new2 = c2 == c && a2 == refs[c].len() - 1 && (!refs0.dom().contains(c) || a2
                    >= refs0[c].len());
                if new1 && !new2 {
                    assert(refs0.dom().contains(c2) && 0 <= a2 < refs0[c2].len());
                    assert(refs[c2][a2] == refs0[c2][a2]);
                    let s2 = choose|s: int| 0 <= s < t - 1 && refs0[c2][a2] == input[s].0;
                    assert(refs[c1][a1] == e.0);
                    assert(input[s2].0 != e.0);
                } else if new2 && !new1 {
                    assert(refs0.dom().contains(c1) && 0 <= a1 < refs0[c1].len());
                    assert(refs[c1][a1] == refs0[c1][a1]);
                    let s1 = choose|s: int| 0 <= s < t - 1 && refs0[c1][a1] == input[s].0;
                    assert(refs[c2][a2] == e.0);
                    assert(input[s1].0 != e.0);
                } else if !new1 && !new2 {
                    assert(refs0.dom().contains(c1) && 0 <= a1 < refs0[c1].len());
                    assert(refs0.dom().contains(c2) && 0 <= a2 < refs0[c2].len());
                    assert(refs[c1][a1] == refs0[c1][a1]);
                    assert(refs[c2][a2] == refs0[c2][a2]);
                }
            }
        } else {
            assert(kept == kept0.push(e));
            assert(refs == refs0);
            assert forall|c1: Seq<char>| #[trigger] refs.dom().contains(c1) implies exists|e2: int|
                0 <= e2 < kept.len() && kept[e2].0 == c1 by {
                let e0 = choose|e2: int| 0 <= e2 < kept0.len() && kept0[e2].0 == c1;
                assert(kept[e0].0 == c1);
            }
            assert forall|e1: int| 0 <= e1 < kept.len() implies exists|s: int|
                0 <= s < t && #[trigger] kept[e1] == input[s] by {
                if e1 < kept0.len() {
                    let s = choose|s: int| 0 <= s < t - 1 && #[trigger] kept0[e1] == input[s];
                    assert(kept[e1] == input[s]);
                } else {
                    assert(kept[e1] == input[t - 1]);
                }
            }
            assert forall|e1: int, e2: int|
                0 <= e1 < kept.len() && 0 <= e2 < kept.len() && e1 != e2 implies (
            #[trigger] kept[e1]).0 != (#[trigger] kept[e2]).0 by {
                if e1 < kept0.len() && e2 < kept0.len() {
                } else if e1 < kept0.len() {
                    let s = choose|s: int| 0 <= s < t - 1 && #[trigger] kept0[e1] == input[s];
                    assert(kept[e2] == e);
                    assert(input[s].0 != e.0);
                } else {
                    let s = choose|s: int| 0 <= s < t - 1 && #[trigger] kept0[e2] == input[s];
                    assert(kept[e1] == e);
                    assert(input[s].0 != e.0);
                }
            }
            assert forall|c1: Seq<char>, ai: int|
                #![trigger refs[c1][ai]]
                refs.dom().contains(c1) && 0 <= ai < refs[c1].len() implies (exists|s: int|
                0 <= s < t && refs[c1][ai] == input[s].0) && (forall|e2: int|
                0 <= e2 < kept.len() ==> (#[trigger] kept[e2]).0 != refs[c1][ai]) by {
                let s0 = choose|s: int| 0 <= s < t - 1 && refs0[c1][ai] == input[s].0;
                assert(0 <= s0 < t && refs[c1][ai] == input[s0].0);
                assert forall|e2: int| 0 <= e2 < kept.len() implies (#[trigger] kept[e2]).0
                    != refs[c1][ai] by {
                    if e2 < kept0.len() {
                    } else {
                        assert(kept[e2] == e);
                        assert(input[s0].0 != e.0);
                    }
                }
            }
        }
    }
}

/// With deduplication enabled, a sprite whose raster is byte-identical to
/// an earlier sprite's yields no canonical entry of its own: its name is
/// recorded as an alias of a canonical sprite that carries that same
/// raster.
pub proof fn lemma_dedup_collapses_duplicates(input: Seq<(Seq<char>, Sprite)>, i: int, j: int)
    requires
        0 <= i < j < input.len(),
        same_raster(input[i].1.pixmap, input[j].1.pixmap),
        forall|a: int, b: int| 0 <= a < b < input.len() ==> (#[trigger] input[a]).0 != (#[trigger] input[b]).0,
    ensures
        ({
            let kept = dedup_spec(input).0;
            let refs = dedup_spec(input).1;
            &&& forall|e: int| 0 <= e < kept.len() ==> (#[trigger] kept[e]).0 != input[j].0
            &&& exists|e: int|
                0 <= e < kept.len() && same_raster(
                    (#[trigger] kept[e]).1.pixmap,
                    input[j].1.pixmap,
                ) && refs.dom().contains(kept[e].0) && refs[kept[e].0].contains(input[j].0)
        }),
{
    lemma_dedup_prefix(input, i, j, input.len() as int);
    assert(input.take(input.len() as int) =~= input);
}

/// Collapse byte-identical rasters: keep the first sprite of each raster as
/// canonical, in order, and record every later name with the same raster as
/// an alias of its canonical name.
pub fn deduplicate(sprites: StrMap<Sprite>) -> (r: (StrMap<Sprite>, multimap::MultiMap<
    String,
    String,
>))
    requires
        sprites.wf(),
    ensures
        r.0.wf(),
        entries_view(r.0) == dedup_spec(entries_view(sprites)).0,
        multimap_contents(r.1) == dedup_spec(entries_view(sprites)).1,
        forall|e: int|
            0 <= e < entries_view(r.0).len() ==> exists|t: int|
                0 <= t < entries_view(sprites).len() && #[trigger] entries_view(r.0)[e]
                    == entries_view(sprites)[t],
{
    let ghost orig = entries_view(sprites);
    let ghost origmap = sprites;
    let mut rest = sprites.entries;
    let n = rest.len();
    let mut stack: Vec<(String, Sprite)> = Vec::new();
    while rest.len() > 0
        invariant
            rest@.len() + stack@.len() == n,
            n == orig.len(),
            forall|j: int| 0 <= j < rest@.len() ==> (#[trigger] rest@[j].0@, rest@[j].1) == orig[j],
            forall|j: int|
                0 <= j < stack@.len() ==> (#[trigger] stack@[j].0@, stack@[j].1) == orig[n - 1 - j],
        decreases rest@.len(),
    {
        match rest.pop() {
            Some(e) => {
                stack.push(e);
            },
            None => {},
        }
    }
    let mut kept: Vec<(String, Sprite)> = Vec::new();
    let mut refs = multimap_new();
    let ghost mut srcidx: Seq<int> = Seq::empty();
    let mut t: usize = 0;
    while t < n
        invariant
            0 <= t <= n,
            n == orig.len(),
            stack@.len() == n - t,
            orig == entries_view(origmap),
            origmap.wf(),
            forall|j: int|
                0 <= j < stack@.len() ==> (#[trigger] stack@[j].0@, stack@[j].1) == orig[n - 1 - j],
            kept@.map_values(|e: (String, Sprite)| (e.0@, e.1)) == dedup_spec(orig.take(t as int)).0,
            multimap_contents(refs) == dedup_spec(orig.take(t as int)).1,
            srcidx.len() == kept@.len(),
            forall|a: int, b: int| 0 <= a < b < srcidx.len() ==> srcidx[a] < srcidx[b],
            forall|a: int|
                0 <= a < srcidx.len() ==> 0 <= #[trigger] srcidx[a] < t && (kept@[a].0@, kept@[a].1)
                    == orig[srcidx[a]],
        decreases n - t,
    {
        let ghost kview = kept@.map_values(|e: (String, Sprite)| (e.0@, e.1));
        let e = match stack.pop() {
            Some(e) => e,
            None => {
                proof {
                    assert(false);
                }
                unreached()
            },
        };
        proof {
            assert((e.0@, e.1) == orig[t as int]);
        }
        let klen = kept.len();
        let mut idx: usize = 0;
        let mut found: bool = false;
        while !found && idx < klen
            invariant
                0 <= idx <= klen,
                klen == kept@.len(),
                kview == kept@.map_values(|q: (String, Sprite)| (q.0@, q.1)),
                forall|j: int|
                    0 <= j < idx ==> !same_raster((#[trigger] kept@[j]).1.pixmap, e.1.pixmap),
                found ==> idx < klen && same_raster(kept@[idx as int].1.pixmap, e.1.pixmap),
            decreases klen - idx, (if found {
                0int
            } else {
                1int
            }),
        {
            if raster_equal(&kept[idx].1.pixmap, &e.1.pixmap) {
                found = true;
            } else {
                idx = idx + 1;
            }
        }
        proof {
            assert forall|j: int| 0 <= j < idx implies !same_raster(
                (#[trigger] kview[j]).1.pixmap,
                e.1.pixmap,
            ) by {
                assert(kview[j].1 == kept@[j].1);
            }
            if found {
                assert(same_raster(kview[idx as int].1.pixmap, e.1.pixmap));
                lemma_find_match_at(kview, e.1, idx as int);
            } else {
                lemma_find_match_at(kview, e.1, idx as int);
            }
            assert(orig.take(t + 1).drop_last() =~= orig.take(t as int));
            assert(orig.take(t + 1).last() == orig[t as int]);
        }
        if found {
            let cname = kept[idx].0.clone();
            multimap_insert(&mut refs, cname, e.0);
            proof {
                assert(kview[idx as int].0 == kept@[idx as int].0@);
                assert(multimap_contents(refs) == dedup_spec(orig.take(t + 1)).1);
                assert(kept@.map_values(|q: (String, Sprite)| (q.0@, q.1)) == dedup_spec(
                    orig.take(t + 1),
                ).0);
            }
        } else {
            kept.push(e);
            proof {
                srcidx = srcidx.push(t as int);
                assert(kept@.map_values(|q: (String, Sprite)| (q.0@, q.1)) =~= kview.push(
                    orig[t as int],
                ));
            }
        }
        t = t + 1;
    }
    proof {
        assert(orig.take(n as int) =~= orig);
        let out0 = StrMap { entries: kept };
        assert forall|e: int| 0 <= e < entries_view(out0).len() implies exists|t: int|
            0 <= t < orig.len() && #[trigger] entries_view(out0)[e] == orig[t] by {
            assert(0 <= srcidx[e] < n);
            assert(entries_view(out0)[e] == (kept@[e].0@, kept@[e].1));
            assert(entries_view(out0)[e] == orig[srcidx[e]]);
        }
        // The kept entries are a subsequence of a sorted input, so their
        // keys are sorted too.
        let out = StrMap { entries: kept };
        assert forall|a: int, b: int| 0 <= a < b < out.keys().len() implies
            crate::text::seq_char_lt(#[trigger] out.keys()[a], #[trigger] out.keys()[b]) by {
            assert(0 <= srcidx[a] < n && 0 <= srcidx[b] < n && srcidx[a] < srcidx[b]);
            assert(origmap.keys()[srcidx[a]] == orig[srcidx[a]].0);
            assert(origmap.keys()[srcidx[b]] == orig[srcidx[b]].0);
            assert(out.keys()[a] == kept@[a].0@);
            assert(out.keys()[b] == kept@[b].0@);
        }
    }
    (StrMap { entries: kept }, refs)
}

} // verus!
