use vstd::prelude::*;
use crate::error::Error;

verus! {

/// The position of the first separator in `s`, or its length when none.
pub open spec fn first_slash(s: Seq<char>) -> int
    decreases s.len(),
{
    if s.len() == 0 {
        0
    } else if s[0] == '/' {
        0
    } else {
        1 + first_slash(s.skip(1))
    }
}

/// A path segment counts as a component unless it is empty or `.`.
pub open spec fn keep_segment(x: Seq<char>) -> Seq<Seq<char>> {
    if x.len() == 0 || x == seq!['.'] {
        Seq::empty()
    } else {
        seq![x]
    }
}

/// The components of a path string: its segments between separators, with
/// empty segments and bare `.` segments dropped.
pub open spec fn path_components(s: Seq<char>) -> Seq<Seq<char>>
    decreases s.len(),
{
    let k = first_slash(s);
    if k < 0 || k >= s.len() {
        keep_segment(s)
    } else {
        keep_segment(s.take(k)) + path_components(s.skip(k + 1))
    }
}

/// Scan for the last `.` at a positive position, from position `i` down.
pub open spec fn stem_scan(c: Seq<char>, i: int) -> int
    decreases i,
{
    if i <= 0 {
        c.len() as int
    } else if c[i] == '.' {
        i
    } else {
        stem_scan(c, i - 1)
    }
}

/// Where a file name's extension begins: the last `.` past the first
/// character, or the name's end when there is none.
pub open spec fn stem_len(c: Seq<char>) -> int {
    if c.len() == 0 {
        0
    } else {
        stem_scan(c, c.len() - 1)
    }
}

/// Components joined by a single separator.
pub open spec fn join_slash(parts: Seq<Seq<char>>) -> Seq<char>
    decreases parts.len(),
{
    if parts.len() == 0 {
        Seq::empty()
    } else if parts.len() == 1 {
        parts[0]
    } else {
        join_slash(parts.drop_last()) + seq!['/'] + parts.last()
    }
}

/// The name a sprite file gets: its path relative to the base directory,
/// with the file extension dropped; nothing when the base's components are
/// not a proper prefix of the path's.
pub open spec fn sprite_name_spec(p: Seq<char>, b: Seq<char>) -> Option<Seq<char>> {
    let pc = path_components(p);
    let bc = path_components(b);
    if bc.len() < pc.len() && pc.take(bc.len() as int) == bc {
        let rel = pc.skip(bc.len() as int);
        let last = rel.last();
        if last == seq!['.', '.'] {
            // A path ending in the parent marker names no file.
            None
        } else {
            let stem = last.take(stem_len(last));
            Some(join_slash(rel.drop_last().push(stem)))
        }
    } else {
        None
    }
}

/// The components each returned string stands for.
pub open spec fn comps_view(v: Seq<String>) -> Seq<Seq<char>> {
    v.map_values(|c: String| c@)
}

/// Scanning up to `k` without a separator puts the first one at `k`.
proof fn lemma_first_slash_at(t: Seq<char>, k: int)
    requires
        0 <= k <= t.len(),
        forall|j: int| 0 <= j < k ==> t[j] != '/',
        k == t.len() || t[k] == '/',
    ensures
        first_slash(t) == k,
    decreases k,
{
    if k == 0 {
    } else {
        lemma_first_slash_at(t.skip(1), k - 1);
    }
}

/// Split a path string into its components.
fn split_components(s: &str) -> (r: Vec<String>)
    ensures
        comps_view(r@) == path_components(s@),
        forall|j: int| 0 <= j < r@.len() ==> (#[trigger] r@[j])@.len() >= 1,
{
    let n = s.unicode_len();
    let mut comps: Vec<String> = Vec::new();
    let mut st: usize = 0;
    let mut i: usize = 0;
    proof {
        assert(s@.skip(0) =~= s@);
        assert(comps_view(comps@) + path_components(s@) =~= path_components(s@));
    }
    while i < n
        invariant
            0 <= st <= i <= n,
            n == s@.len(),
            forall|j: int| st <= j < i ==> s@[j] != '/',
            path_components(s@) == comps_view(comps@) + path_components(s@.skip(st as int)),
            forall|j: int| 0 <= j < comps@.len() ==> (#[trigger] comps@[j])@.len() >= 1,
        decreases n - i,
    {
        let c = s.get_char(i);
        if c == '/' {
            proof {
                lemma_first_slash_at(s@.skip(st as int), i - st);
                assert(s@.skip(st as int).take(i - st) =~= s@.subrange(st as int, i as int));
                assert(s@.skip(st as int).skip(i - st + 1) =~= s@.skip(i as int + 1));
            }
            let seg = s.substring_char(st, i);
            let keep: bool = if seg.unicode_len() == 0 {
                false
            } else if seg.unicode_len() == 1 && seg.get_char(0) == '.' {
                proof {
                    assert(seg@ =~= seq!['.']);
                }
                false
            } else {
                proof {
                    if seg@.len() == 1 {
                        assert(seg@ =~= seq![seg@[0]]);
                    }
                }
                true
            };
            if keep {
                comps.push(String::from_str(seg));
                proof {
                    assert(comps_view(comps@) =~= comps_view(comps@.drop_last()) + seq![seg@]);
                    assert(keep_segment(seg@) =~= seq![seg@]);
                    assert(comps_view(comps@.drop_last()) + seq![seg@] + path_components(
                        s@.skip(i as int + 1),
                    ) =~= comps_view(comps@) + path_components(s@.skip(i as int + 1)));
                }
            } else {
                proof {
                    assert(keep_segment(seg@) =~= Seq::<Seq<char>>::empty());
                    assert(comps_view(comps@) + Seq::<Seq<char>>::empty() + path_components(
                        s@.skip(i as int + 1),
                    ) =~= comps_view(comps@) + path_components(s@.skip(i as int + 1)));
                }
            }
            st = i + 1;
        }
        i = i + 1;
    }
    proof {
        lemma_first_slash_at(s@.skip(st as int), n - st);
        assert(s@.skip(st as int).take(n - st) =~= s@.subrange(st as int, n as int));
    }
    let seg = s.substring_char(st, n);
    let keep: bool = if seg.unicode_len() == 0 {
        false
    } else if seg.unicode_len() == 1 && seg.get_char(0) == '.' {
        proof {
            assert(seg@ =~= seq!['.']);
        }
        false
    } else {
        proof {
            if seg@.len() == 1 {
                assert(seg@ =~= seq![seg@[0]]);
            }
        }
        true
    };
    if keep {
        comps.push(String::from_str(seg));
        proof {
            assert(comps_view(comps@) =~= comps_view(comps@.drop_last()) + seq![seg@]);
            assert(keep_segment(seg@) =~= seq![seg@]);
            assert(comps_view(comps@.drop_last()) + seq![seg@] =~= comps_view(comps@));
            assert(path_components(s@) =~= comps_view(comps@));
        }
    } else {
        proof {
            assert(keep_segment(seg@) =~= Seq::<Seq<char>>::empty());
            assert(path_components(s@) =~= comps_view(comps@));
        }
    }
    comps
}

/// Where the file name's extension begins.
fn stem_cut(c: &str) -> (r: usize)
    requires
        c@.len() >= 1,
    ensures
        r == stem_len(c@),
        r <= c@.len(),
{
    let n = c.unicode_len();
    let mut i: usize = n - 1;
    while i > 0
        invariant
            0 <= i < n,
            n == c@.len(),
            stem_scan(c@, n - 1) == stem_scan(c@, i as int),
        decreases i,
    {
        if c.get_char(i) == '.' {
            return i;
        }
        i = i - 1;
    }
    n
}

/// Returns the name (unique id within a spritesheet) taken from a file
/// path: the path relative to `base_path`, separators kept, with the file
/// extension removed. An empty `path` is refused, as is a `base_path` whose
/// components are not a proper prefix of the path's, and a path whose last
/// component is the parent marker, which names no file. Both arguments are
/// read textually, component by component; hand them over in the same
/// form, both relative or both absolute, as the program's edge does.
pub fn sprite_name(path: &str, base_path: &str) -> (r: Result<String, Error>)
    ensures
        match r {
            Ok(name) => path@.len() > 0 && sprite_name_spec(path@, base_path@) == Some(name@),
            Err(e) => (path@.len() == 0 && e is IoError) || (path@.len() > 0
                && sprite_name_spec(path@, base_path@) is None && e is PathError),
        },
{
    if path.unicode_len() == 0 {
        return Err(Error::IoError(String::from_str("cannot name a sprite from an empty path")));
    }
    let pc = split_components(path);
    let bc = split_components(base_path);
    let pcn = pc.len();
    let bcn = bc.len();
    let ghost pcv = path_components(path@);
    let ghost bcv = path_components(base_path@);
    if bcn >= pcn {
        return Err(Error::PathError(String::from_str("base path does not contain the path")));
    }
    let mut i: usize = 0;
    while i < bcn
        invariant
            0 <= i <= bcn < pcn,
            path@.len() > 0,
            pcn == pc@.len(),
            bcn == bc@.len(),
            pcv == path_components(path@),
            bcv == path_components(base_path@),
            pcv == comps_view(pc@),
            bcv == comps_view(bc@),
            forall|j: int| 0 <= j < i ==> (#[trigger] pcv[j]) == bcv[j],
        decreases bcn - i,
    {
        let pa: &String = &pc[i];
        let pb: &String = &bc[i];
        if !(*pa == *pb) {
            proof {
                assert(pcv.take(bcn as int)[i as int] != bcv[i as int]);
                assert(pcv.take(bcn as int) != bcv) by {
                    if pcv.take(bcn as int) == bcv {
                        assert(pcv.take(bcn as int)[i as int] == bcv[i as int]);
                    }
                }
            }
            return Err(Error::PathError(
                String::from_str("base path does not contain the path"),
            ));
        }
        i = i + 1;
    }
    proof {
        assert(pcv.take(bcn as int) =~= bcv);
    }
    let ghost rel = pcv.skip(bcn as int);
    let last: &String = &pc[pcn - 1];
    let lstr = last.as_str();
    if lstr.unicode_len() == 2 && lstr.get_char(0) == '.' && lstr.get_char(1) == '.' {
        proof {
            assert(rel.last() == pcv[pcn - 1]);
            assert(last@ =~= seq!['.', '.']);
        }
        return Err(Error::PathError(String::from_str("the path names no file")));
    }
    proof {
        assert(rel.last() == pcv[pcn - 1]);
        assert(last@ != seq!['.', '.']) by {
            if last@ == seq!['.', '.'] {
                assert(last@.len() == 2 && last@[0] == '.' && last@[1] == '.');
            }
        }
    }
    let cut = stem_cut(last.as_str());
    let stem = last.as_str().substring_char(0, cut);
    proof {
        assert(rel.last() == pcv[pcn - 1]);
        assert(stem@ =~= rel.last().take(stem_len(rel.last())));
    }
    let ghost parts = rel.drop_last().push(stem@);
    let mut name = String::new();
    let mut t: usize = bcn;
    while t < pcn - 1
        invariant
            bcn <= t <= pcn - 1,
            path@.len() > 0,
            pcn == pc@.len(),
            bcn == bc@.len(),
            pcn > bcn,
            pcv == path_components(path@),
            bcv == path_components(base_path@),
            pcv.take(bcn as int) == bcv,
            pcv == comps_view(pc@),
            rel == pcv.skip(bcn as int),
            parts == rel.drop_last().push(stem@),
            parts.len() == pcn - bcn,
            t == bcn ==> name@ == Seq::<char>::empty(),
            t > bcn ==> name@ == join_slash(parts.take(t - bcn)) + seq!['/'],
            forall|j: int| 0 <= j < parts.len() - 1 ==> (#[trigger] parts[j]) == pcv[bcn + j],
        decreases pcn - 1 - t,
    {
        name.append(pc[t].as_str());
        proof {
            reveal_strlit("/");
            if t == bcn {
                assert(name@ =~= join_slash(parts.take(1)));
            } else {
                let w = (t - bcn) as int;
                assert(parts.take(w + 1).drop_last() =~= parts.take(w));
                assert(parts.take(w + 1).last() == parts[w]);
                assert(name@ =~= join_slash(parts.take(w + 1)));
            }
        }
        name.append("/");
        proof {
            reveal_strlit("/");
            assert(name@ =~= join_slash(parts.take(t - bcn + 1)) + seq!['/']);
        }
        t = t + 1;
    }
    name.append(stem);
    proof {
        reveal_strlit("/");
        let w = (pcn - 1 - bcn) as int;
        assert(parts.take(w) =~= rel.drop_last());
        if w == 0 {
            assert(parts.take(w + 1) =~= parts);
            assert(name@ =~= join_slash(parts));
        } else {
            assert(parts.take(w + 1) =~= parts);
            assert(parts.drop_last() =~= parts.take(w));
            assert(parts.last() == stem@);
            assert(name@ =~= join_slash(parts));
        }
    }
    Ok(name)
}

} // verus!
