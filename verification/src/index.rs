use vstd::prelude::*;
use crate::geom::Rect;
use crate::sprite::{
    node_box_spec, opt_ranges_view, ranges_view, run_end, run_ok, stretch_result, Sprite,
    STRETCH_SCAN_CAP,
};
use crate::strmap::StrMap;
use crate::text::{dec_str, milli_str, push_dec, push_milli};

verus! {

/// A description of a sprite image within a spritesheet: one record of the
/// index file required by the Mapbox Style Specification. Coordinates of the
/// `content`, `stretch_x` and `stretch_y` metadata are held in thousandths
/// of a pixel.
pub struct SpriteDescription {
    pub height: u32,
    pub pixel_ratio: u8,
    pub width: u32,
    pub x: u32,
    pub y: u32,
    pub content: Option<(i64, i64, i64, i64)>,
    pub stretch_x: Option<Vec<(i64, i64)>>,
    pub stretch_y: Option<Vec<(i64, i64)>>,
    pub sdf: bool,
}

/// The mathematical content of a description: every coordinate as an
/// unbounded integer.
pub open spec fn desc_model(d: SpriteDescription) -> (
    (int, int, int, int, int),
    Option<(int, int, int, int)>,
    Option<Seq<(int, int)>>,
    Option<Seq<(int, int)>>,
    bool,
) {
    (
        (d.height as int, d.pixel_ratio as int, d.width as int, d.x as int, d.y as int),
        match d.content {
            Some(b) => Some((b.0 as int, b.1 as int, b.2 as int, b.3 as int)),
            None => None,
        },
        opt_ranges_view(d.stretch_x),
        opt_ranges_view(d.stretch_y),
        d.sdf,
    )
}

/// Everything a freshly built description promises: the placement
/// geometry, the sprite's pixel ratio and distance-field flag, and the
/// metadata exactly as the sprite's vector image yields it.
pub open spec fn desc_ok(d: SpriteDescription, rect: Rect, sprite: Sprite, sdf: bool) -> bool {
    &&& d.height == rect.h
    &&& d.width == rect.w
    &&& d.x == rect.x
    &&& d.y == rect.y
    &&& d.pixel_ratio == sprite.pixel_ratio
    &&& d.sdf == sdf
    &&& match d.content {
        Some(b) => node_box_spec(sprite.nodes(), sprite.pixel_ratio as int, "mapbox-content"@)
            == Some((b.0 as int, b.1 as int, b.2 as int, b.3 as int)),
        None => node_box_spec(sprite.nodes(), sprite.pixel_ratio as int, "mapbox-content"@)
            is None,
    }
    &&& exists|k: int|
        {
            &&& 0 <= k <= STRETCH_SCAN_CAP
            &&& #[trigger] run_ok(sprite.nodes(), "mapbox-stretch-x"@, k)
            &&& run_end(sprite.nodes(), "mapbox-stretch-x"@, k)
            &&& stretch_result(
                sprite.nodes(),
                sprite.pixel_ratio as int,
                "mapbox-stretch-x"@,
                "mapbox-stretch"@,
                true,
                k,
                opt_ranges_view(d.stretch_x),
            )
        }
    &&& exists|k: int|
        {
            &&& 0 <= k <= STRETCH_SCAN_CAP
            &&& #[trigger] run_ok(sprite.nodes(), "mapbox-stretch-y"@, k)
            &&& run_end(sprite.nodes(), "mapbox-stretch-y"@, k)
            &&& stretch_result(
                sprite.nodes(),
                sprite.pixel_ratio as int,
                "mapbox-stretch-y"@,
                "mapbox-stretch"@,
                false,
                k,
                opt_ranges_view(d.stretch_y),
            )
        }
}

/// Copy a list of ranges.
fn copy_ranges(v: &Vec<(i64, i64)>) -> (r: Vec<(i64, i64)>)
    ensures
        r@ == v@,
{
    let mut out: Vec<(i64, i64)> = Vec::new();
    let n = v.len();
    let mut i: usize = 0;
    while i < n
        invariant
            0 <= i <= n,
            n == v@.len(),
            out@ =~= v@.take(i as int),
        decreases n - i,
    {
        out.push(v[i]);
        proof {
            assert(out@ =~= v@.take(i + 1));
        }
        i = i + 1;
    }
    proof {
        assert(out@ =~= v@);
    }
    out
}

impl SpriteDescription {
    /// Build the description of one placed sprite: its placement geometry,
    /// pixel ratio, metadata and the spritesheet's distance-field flag.
    pub fn new(rect: &Rect, sprite: &Sprite, sdf: bool) -> (r: SpriteDescription)
        ensures
            desc_ok(r, *rect, *sprite, sdf),
            desc_wf(r),
    {
        SpriteDescription {
            height: rect.h,
            width: rect.w,
            pixel_ratio: sprite.pixel_ratio(),
            x: rect.x,
            y: rect.y,
            content: sprite.content_area(),
            stretch_x: sprite.stretch_x_areas(),
            stretch_y: sprite.stretch_y_areas(),
            sdf,
        }
    }

    /// A copy of the description with the same content.
    pub fn duplicate(&self) -> (r: SpriteDescription)
        ensures
            desc_model(r) == desc_model(*self),
            desc_wf(r) == desc_wf(*self),
    {
        let stretch_x = match &self.stretch_x {
            Some(v) => Some(copy_ranges(v)),
            None => None,
        };
        let stretch_y = match &self.stretch_y {
            Some(v) => Some(copy_ranges(v)),
            None => None,
        };
        let r = SpriteDescription {
            height: self.height,
            pixel_ratio: self.pixel_ratio,
            width: self.width,
            x: self.x,
            y: self.y,
            content: self.content,
            stretch_x,
            stretch_y,
            sdf: self.sdf,
        };
        r
    }
}

/// The index: every sprite name, aliases included, mapped to its
/// description, in lexicographic name order.
pub type SpriteIndex = StrMap<SpriteDescription>;

// ---------------------------------------------------------------------
// The JSON text of the index, exactly as the index file holds it.
// ---------------------------------------------------------------------

/// A hexadecimal digit character.
pub open spec fn hex_digit(d: int) -> char {
    if d < 10 {
        crate::text::digit_char(d)
    } else if d == 10 {
        'a'
    } else if d == 11 {
        'b'
    } else if d == 12 {
        'c'
    } else if d == 13 {
        'd'
    } else if d == 14 {
        'e'
    } else {
        'f'
    }
}

/// How one character of a name reads inside a JSON string: quotes and
/// backslashes are escaped, the named control characters take their short
/// escapes, other control characters their unicode escapes, and everything
/// else stands as itself.
pub open spec fn esc_char(c: char) -> Seq<char> {
    if c == '"' {
        seq!['\\', '"']
    } else if c == '\\' {
        seq!['\\', '\\']
    } else if c == '\u{8}' {
        seq!['\\', 'b']
    } else if c == '\u{c}' {
        seq!['\\', 'f']
    } else if c == '\n' {
        seq!['\\', 'n']
    } else if c == '\r' {
        seq!['\\', 'r']
    } else if c == '\t' {
        seq!['\\', 't']
    } else if (c as u32) < 32 {
        seq!['\\', 'u', '0', '0', hex_digit((c as u32 / 16) as int), hex_digit(
            (c as u32 % 16) as int,
        )]
    } else {
        seq![c]
    }
}

/// A name escaped for JSON.
pub open spec fn json_escape(s: Seq<char>) -> Seq<char>
    decreases s.len(),
{
    if s.len() == 0 {
        Seq::empty()
    } else {
        json_escape(s.drop_last()) + esc_char(s.last())
    }
}

/// A name as a JSON string.
pub open spec fn json_string(s: Seq<char>) -> Seq<char> {
    ("\"")@ + json_escape(s) + ("\"")@
}

/// A content box as a minified JSON array of four numbers.
pub open spec fn json_quad_min(b: (int, int, int, int)) -> Seq<char> {
    ("[")@ + milli_str(b.0) + (",")@ + milli_str(b.1) + (",")@ + milli_str(b.2) + (",")@
        + milli_str(b.3) + ("]")@
}

/// One stretch range as a minified JSON array of two numbers.
pub open spec fn json_range_min(p: (int, int)) -> Seq<char> {
    ("[")@ + milli_str(p.0) + (",")@ + milli_str(p.1) + ("]")@
}

/// The comma-joined items of a minified range list.
pub open spec fn json_ranges_items_min(v: Seq<(int, int)>) -> Seq<char>
    decreases v.len(),
{
    if v.len() == 0 {
        Seq::empty()
    } else if v.len() == 1 {
        json_range_min(v[0])
    } else {
        json_ranges_items_min(v.drop_last()) + (",")@ + json_range_min(v.last())
    }
}

/// A stretch list as a minified JSON array of arrays.
pub open spec fn json_ranges_min(v: Seq<(int, int)>) -> Seq<char> {
    ("[")@ + json_ranges_items_min(v) + ("]")@
}

/// The minified `content` field of a description, where present.
pub open spec fn content_part_min(d: SpriteDescription) -> Seq<char> {
    match d.content {
        Some(b) => (",\"content\":")@ + json_quad_min(
            (b.0 as int, b.1 as int, b.2 as int, b.3 as int),
        ),
        None => Seq::empty(),
    }
}

/// The minified `stretchX` field of a description, where present.
pub open spec fn stretch_x_part_min(d: SpriteDescription) -> Seq<char> {
    match d.stretch_x {
        Some(v) => (",\"stretchX\":")@ + json_ranges_min(ranges_view(v@)),
        None => Seq::empty(),
    }
}

/// The minified `stretchY` field of a description, where present.
pub open spec fn stretch_y_part_min(d: SpriteDescription) -> Seq<char> {
    match d.stretch_y {
        Some(v) => (",\"stretchY\":")@ + json_ranges_min(ranges_view(v@)),
        None => Seq::empty(),
    }
}

/// The minified `sdf` field of a description, where true.
pub open spec fn sdf_part_min(d: SpriteDescription) -> Seq<char> {
    if d.sdf {
        (",\"sdf\":true")@
    } else {
        Seq::empty()
    }
}

/// The trailing, optional part of a minified description.
pub open spec fn desc_json_min_opts(d: SpriteDescription) -> Seq<char> {
    content_part_min(d) + stretch_x_part_min(d) + stretch_y_part_min(d) + sdf_part_min(d) + ("}")@
}

/// One description as a minified JSON object. Fields with nothing to say
/// are left out entirely, as is a false `sdf`.
pub open spec fn desc_json_min(d: SpriteDescription) -> Seq<char> {
    ("{\"height\":")@ + dec_str(d.height as nat) + (",\"pixelRatio\":")@ + dec_str(
        d.pixel_ratio as nat,
    ) + (",\"width\":")@ + dec_str(d.width as nat) + (",\"x\":")@ + dec_str(d.x as nat) + (
    ",\"y\":")@ + dec_str(d.y as nat) + desc_json_min_opts(d)
}

/// The comma-joined entries of the minified index object.
pub open spec fn index_items_min(entries: Seq<(Seq<char>, SpriteDescription)>) -> Seq<char>
    decreases entries.len(),
{
    if entries.len() == 0 {
        Seq::empty()
    } else if entries.len() == 1 {
        json_string(entries[0].0) + (":")@ + desc_json_min(entries[0].1)
    } else {
        index_items_min(entries.drop_last()) + (",")@ + json_string(entries.last().0) + (":")@
            + desc_json_min(entries.last().1)
    }
}

/// The whole index as minified JSON.
pub open spec fn index_json_min(entries: Seq<(Seq<char>, SpriteDescription)>) -> Seq<char> {
    ("{")@ + index_items_min(entries) + ("}")@
}

/// A content box as JSON, pretty-printed at the depth it has in the index.
pub open spec fn json_quad_pretty(b: (int, int, int, int)) -> Seq<char> {
    ("[\n      ")@ + milli_str(b.0) + (",\n      ")@ + milli_str(b.1) + (",\n      ")@ + milli_str(
        b.2,
    ) + (",\n      ")@ + milli_str(b.3) + ("\n    ]")@
}

/// One stretch range as pretty-printed JSON, indented for its depth.
pub open spec fn json_range_pretty(p: (int, int)) -> Seq<char> {
    ("      [\n        ")@ + milli_str(p.0) + (",\n        ")@ + milli_str(p.1) + ("\n      ]")@
}

/// The joined items of a pretty-printed range list.
pub open spec fn json_ranges_items_pretty(v: Seq<(int, int)>) -> Seq<char>
    decreases v.len(),
{
    if v.len() == 0 {
        Seq::empty()
    } else if v.len() == 1 {
        json_range_pretty(v[0])
    } else {
        json_ranges_items_pretty(v.drop_last()) + (",\n")@ + json_range_pretty(v.last())
    }
}

/// A stretch list as pretty-printed JSON.
pub open spec fn json_ranges_pretty(v: Seq<(int, int)>) -> Seq<char> {
    if v.len() == 0 {
        ("[]")@
    } else {
        ("[\n")@ + json_ranges_items_pretty(v) + ("\n    ]")@
    }
}

/// One description as a pretty-printed JSON object: the five geometric
/// fields, then the optional fields and the closing brace.
pub open spec fn desc_json_pretty(d: SpriteDescription) -> Seq<char> {
    ("{\n    \"height\": ")@ + dec_str(d.height as nat) + (",\n    \"pixelRatio\": ")@ + dec_str(
        d.pixel_ratio as nat,
    ) + (",\n    \"width\": ")@ + dec_str(d.width as nat) + (",\n    \"x\": ")@ + dec_str(
        d.x as nat,
    ) + (",\n    \"y\": ")@ + dec_str(d.y as nat) + desc_json_pretty_opts(d)
}

/// The joined entries of the pretty-printed index object.
pub open spec fn index_items_pretty(entries: Seq<(Seq<char>, SpriteDescription)>) -> Seq<char>
    decreases entries.len(),
{
    if entries.len() == 0 {
        Seq::empty()
    } else if entries.len() == 1 {
        ("  ")@ + json_string(entries[0].0) + (": ")@ + desc_json_pretty(entries[0].1)
    } else {
        index_items_pretty(entries.drop_last()) + (",\n")@ + ("  ")@ + json_string(
            entries.last().0,
        ) + (": ")@ + desc_json_pretty(entries.last().1)
    }
}

/// The whole index as pretty-printed JSON, two spaces per indent level.
pub open spec fn index_json_pretty(entries: Seq<(Seq<char>, SpriteDescription)>) -> Seq<char> {
    if entries.len() == 0 {
        ("{}")@
    } else {
        ("{\n")@ + index_items_pretty(entries) + ("\n}")@
    }
}

/// The entries an index holds, as (name, description) pairs in name order.
pub open spec fn index_entries(m: StrMap<SpriteDescription>) -> Seq<
    (Seq<char>, SpriteDescription),
> {
    m.entries@.map_values(|e: (String, SpriteDescription)| (e.0@, e.1))
}

/// Every number in the description can be printed: nothing sits at the
/// very bottom of the machine range.
pub open spec fn desc_wf(d: SpriteDescription) -> bool {
    &&& match d.content {
        Some(b) => b.0 > i64::MIN && b.1 > i64::MIN && b.2 > i64::MIN && b.3 > i64::MIN,
        None => true,
    }
    &&& match d.stretch_x {
        Some(v) => forall|i: int|
            0 <= i < v@.len() ==> (#[trigger] v@[i]).0 > i64::MIN && v@[i].1 > i64::MIN,
        None => true,
    }
    &&& match d.stretch_y {
        Some(v) => forall|i: int|
            0 <= i < v@.len() ==> (#[trigger] v@[i]).0 > i64::MIN && v@[i].1 > i64::MIN,
        None => true,
    }
}

/// Append the hexadecimal digit character for `d`.
fn push_hex(s: &mut String, d: u32)
    requires
        d < 16,
    ensures
        final(s)@ == old(s)@ + seq![hex_digit(d as int)],
{
    if d < 10 {
        crate::text::push_digit(s, d as u64);
    } else if d == 10 {
        s.append("a");
        proof {
            reveal_strlit("a");
            assert(old(s)@ + ("a")@ =~= old(s)@ + seq![hex_digit(d as int)]);
        }
    } else if d == 11 {
        s.append("b");
        proof {
            reveal_strlit("b");
            assert(old(s)@ + ("b")@ =~= old(s)@ + seq![hex_digit(d as int)]);
        }
    } else if d == 12 {
        s.append("c");
        proof {
            reveal_strlit("c");
            assert(old(s)@ + ("c")@ =~= old(s)@ + seq![hex_digit(d as int)]);
        }
    } else if d == 13 {
        s.append("d");
        proof {
            reveal_strlit("d");
            assert(old(s)@ + ("d")@ =~= old(s)@ + seq![hex_digit(d as int)]);
        }
    } else if d == 14 {
        s.append("e");
        proof {
            reveal_strlit("e");
            assert(old(s)@ + ("e")@ =~= old(s)@ + seq![hex_digit(d as int)]);
        }
    } else {
        s.append("f");
        proof {
            reveal_strlit("f");
            assert(old(s)@ + ("f")@ =~= old(s)@ + seq![hex_digit(d as int)]);
        }
    }
}

/// Append one name as a JSON string, escaped.
fn push_json_string(s: &mut String, name: &str)
    ensures
        final(s)@ == old(s)@ + json_string(name@),
{
    let ghost base = old(s)@;
    s.append("\"");
    let n = name.unicode_len();
    let mut i: usize = 0;
    while i < n
        invariant
            0 <= i <= n,
            n == name@.len(),
            s@ == base + ("\"")@ + json_escape(name@.take(i as int)),
        decreases n - i,
    {
        let c = name.get_char(i);
        proof {
            assert(name@.take(i + 1).drop_last() =~= name@.take(i as int));
            assert(name@.take(i + 1).last() == c);
        }
        let ghost before = s@;
        if c == '"' {
            s.append("\\\"");
            proof {
                reveal_strlit("\\\"");
                assert(s@ =~= before + esc_char(c));
            }
        } else if c == '\\' {
            s.append("\\\\");
            proof {
                reveal_strlit("\\\\");
                assert(s@ =~= before + esc_char(c));
            }
        } else if c == '\u{8}' {
            s.append("\\b");
            proof {
                reveal_strlit("\\b");
                assert(s@ =~= before + esc_char(c));
            }
        } else if c == '\u{c}' {
            s.append("\\f");
            proof {
                reveal_strlit("\\f");
                assert(s@ =~= before + esc_char(c));
            }
        } else if c == '\n' {
            s.append("\\n");
            proof {
                reveal_strlit("\\n");
                assert(s@ =~= before + esc_char(c));
            }
        } else if c == '\r' {
            s.append("\\r");
            proof {
                reveal_strlit("\\r");
                assert(s@ =~= before + esc_char(c));
            }
        } else if c == '\t' {
            s.append("\\t");
            proof {
                reveal_strlit("\\t");
                assert(s@ =~= before + esc_char(c));
            }
        } else if (c as u32) < 32 {
            s.append("\\u00");
            let v = c as u32;
            push_hex(s, v / 16);
            push_hex(s, v % 16);
            proof {
                reveal_strlit("\\u00");
                assert(s@ =~= before + esc_char(c));
            }
        } else {
            let one = name.substring_char(i, i + 1);
            s.append(one);
            proof {
                assert(one@ =~= seq![c]);
                assert(s@ =~= before + esc_char(c));
            }
        }
        proof {
            assert(s@ =~= base + ("\"")@ + json_escape(name@.take(i + 1)));
        }
        i = i + 1;
    }
    s.append("\"");
    proof {
        assert(name@.take(n as int) =~= name@);
        assert(s@ =~= base + json_string(name@));
    }
}

/// Append a content box as minified JSON.
fn push_quad_min(s: &mut String, b: (i64, i64, i64, i64))
    requires
        b.0 > i64::MIN,
        b.1 > i64::MIN,
        b.2 > i64::MIN,
        b.3 > i64::MIN,
    ensures
        final(s)@ == old(s)@ + json_quad_min((b.0 as int, b.1 as int, b.2 as int, b.3 as int)),
{
    s.append("[");
    push_milli(s, b.0);
    s.append(",");
    push_milli(s, b.1);
    s.append(",");
    push_milli(s, b.2);
    s.append(",");
    push_milli(s, b.3);
    s.append("]");
    proof {
        assert(s@ =~= old(s)@ + json_quad_min((b.0 as int, b.1 as int, b.2 as int, b.3 as int)));
    }
}

/// Append a stretch list as minified JSON.
fn push_ranges_min(s: &mut String, v: &Vec<(i64, i64)>)
    requires
        forall|i: int| 0 <= i < v@.len() ==> (#[trigger] v@[i]).0 > i64::MIN && v@[i].1 > i64::MIN,
    ensures
        final(s)@ == old(s)@ + json_ranges_min(ranges_view(v@)),
{
    let ghost base = old(s)@;
    let ghost rv = ranges_view(v@);
    s.append("[");
    let n = v.len();
    let mut i: usize = 0;
    while i < n
        invariant
            0 <= i <= n,
            n == v@.len(),
            rv == ranges_view(v@),
            forall|j: int| 0 <= j < n ==> (#[trigger] v@[j]).0 > i64::MIN && v@[j].1 > i64::MIN,
            s@ == base + ("[")@ + json_ranges_items_min(rv.take(i as int)),
        decreases n - i,
    {
        if i > 0 {
            s.append(",");
        }
        let p = v[i];
        s.append("[");
        push_milli(s, p.0);
        s.append(",");
        push_milli(s, p.1);
        s.append("]");
        proof {
            assert(rv.take(i + 1).drop_last() =~= rv.take(i as int));
            assert(rv.take(i + 1).last() == (p.0 as int, p.1 as int));
            assert(s@ =~= base + ("[")@ + json_ranges_items_min(rv.take(i + 1)));
        }
        i = i + 1;
    }
    s.append("]");
    proof {
        assert(rv.take(n as int) =~= rv);
        assert(s@ =~= base + json_ranges_min(rv));
    }
}

/// Append the optional fields and closer of a minified description.
#[verifier::rlimit(100)]
fn push_desc_min_opts(s: &mut String, d: &SpriteDescription)
    requires
        desc_wf(*d),
    ensures
        final(s)@ == old(s)@ + desc_json_min_opts(*d),
{
    let ghost base = old(s)@;
    let ghost q1 = content_part_min(*d);
    let ghost q2 = q1 + stretch_x_part_min(*d);
    let ghost q3 = q2 + stretch_y_part_min(*d);
    let ghost q4 = q3 + sdf_part_min(*d);
    match d.content {
        Some(b) => {
            s.append(",\"content\":");
            push_quad_min(s, b);
        },
        None => {},
    }
    proof {
        assert(s@ =~= base + q1);
    }
    match &d.stretch_x {
        Some(v) => {
            s.append(",\"stretchX\":");
            push_ranges_min(s, v);
        },
        None => {},
    }
    proof {
        assert(s@ =~= base + q2);
    }
    match &d.stretch_y {
        Some(v) => {
            s.append(",\"stretchY\":");
            push_ranges_min(s, v);
        },
        None => {},
    }
    proof {
        assert(s@ =~= base + q3);
    }
    if d.sdf {
        s.append(",\"sdf\":true");
    }
    proof {
        assert(s@ =~= base + q4);
    }
    s.append("}");
    proof {
        assert(s@ =~= base + q4 + ("}")@);
        assert(q4 + ("}")@ =~= desc_json_min_opts(*d));
    }
}

/// Append one description as minified JSON.
#[verifier::rlimit(100)]
fn push_desc_min(s: &mut String, d: &SpriteDescription)
    requires
        desc_wf(*d),
    ensures
        final(s)@ == old(s)@ + desc_json_min(*d),
{
    let ghost base = old(s)@;
    let ghost p1 = ("{\"height\":")@ + dec_str(d.height as nat) + (",\"pixelRatio\":")@
        + dec_str(d.pixel_ratio as nat) + (",\"width\":")@ + dec_str(d.width as nat) + (
    ",\"x\":")@ + dec_str(d.x as nat) + (",\"y\":")@ + dec_str(d.y as nat);
    s.append("{\"height\":");
    push_dec(s, d.height as u64);
    s.append(",\"pixelRatio\":");
    push_dec(s, d.pixel_ratio as u64);
    s.append(",\"width\":");
    push_dec(s, d.width as u64);
    s.append(",\"x\":");
    push_dec(s, d.x as u64);
    s.append(",\"y\":");
    push_dec(s, d.y as u64);
    proof {
        assert(s@ =~= base + p1);
    }
    push_desc_min_opts(s, d);
    proof {
        assert(s@ =~= base + p1 + desc_json_min_opts(*d));
        assert(p1 + desc_json_min_opts(*d) =~= desc_json_min(*d));
    }
}

/// Append a content box as pretty-printed JSON.
fn push_quad_pretty(s: &mut String, b: (i64, i64, i64, i64))
    requires
        b.0 > i64::MIN,
        b.1 > i64::MIN,
        b.2 > i64::MIN,
        b.3 > i64::MIN,
    ensures
        final(s)@ == old(s)@ + json_quad_pretty((b.0 as int, b.1 as int, b.2 as int, b.3 as int)),
{
    s.append("[\n      ");
    push_milli(s, b.0);
    s.append(",\n      ");
    push_milli(s, b.1);
    s.append(",\n      ");
    push_milli(s, b.2);
    s.append(",\n      ");
    push_milli(s, b.3);
    s.append("\n    ]");
    proof {
        assert(s@ =~= old(s)@ + json_quad_pretty((b.0 as int, b.1 as int, b.2 as int, b.3 as int)));
    }
}

/// Append a stretch list as pretty-printed JSON.
fn push_ranges_pretty(s: &mut String, v: &Vec<(i64, i64)>)
    requires
        forall|i: int| 0 <= i < v@.len() ==> (#[trigger] v@[i]).0 > i64::MIN && v@[i].1 > i64::MIN,
    ensures
        final(s)@ == old(s)@ + json_ranges_pretty(ranges_view(v@)),
{
    let ghost base = old(s)@;
    let ghost rv = ranges_view(v@);
    let n = v.len();
    if n == 0 {
        s.append("[]");
        proof {
            assert(s@ =~= base + json_ranges_pretty(rv));
        }
        return ;
    }
    s.append("[\n");
    let mut i: usize = 0;
    while i < n
        invariant
            0 <= i <= n,
            n == v@.len(),
            n > 0,
            rv == ranges_view(v@),
            forall|j: int| 0 <= j < n ==> (#[trigger] v@[j]).0 > i64::MIN && v@[j].1 > i64::MIN,
            s@ == base + ("[\n")@ + json_ranges_items_pretty(rv.take(i as int)),
        decreases n - i,
    {
        if i > 0 {
            s.append(",\n");
        }
        let p = v[i];
        s.append("      [\n        ");
        push_milli(s, p.0);
        s.append(",\n        ");
        push_milli(s, p.1);
        s.append("\n      ]");
        proof {
            assert(rv.take(i + 1).drop_last() =~= rv.take(i as int));
            assert(rv.take(i + 1).last() == (p.0 as int, p.1 as int));
            assert(s@ =~= base + ("[\n")@ + json_ranges_items_pretty(rv.take(i + 1)));
        }
        i = i + 1;
    }
    s.append("\n    ]");
    proof {
        assert(rv.take(n as int) =~= rv);
        assert(s@ =~= base + json_ranges_pretty(rv));
    }
}

/// The pretty-printed `content` field of a description, where present.
pub open spec fn content_part_pretty(d: SpriteDescription) -> Seq<char> {
    match d.content {
        Some(b) => (",\n    \"content\": ")@ + json_quad_pretty(
            (b.0 as int, b.1 as int, b.2 as int, b.3 as int),
        ),
        None => Seq::empty(),
    }
}

/// The pretty-printed `stretchX` field of a description, where present.
pub open spec fn stretch_x_part_pretty(d: SpriteDescription) -> Seq<char> {
    match d.stretch_x {
        Some(v) => (",\n    \"stretchX\": ")@ + json_ranges_pretty(ranges_view(v@)),
        None => Seq::empty(),
    }
}

/// The pretty-printed `stretchY` field of a description, where present.
pub open spec fn stretch_y_part_pretty(d: SpriteDescription) -> Seq<char> {
    match d.stretch_y {
        Some(v) => (",\n    \"stretchY\": ")@ + json_ranges_pretty(ranges_view(v@)),
        None => Seq::empty(),
    }
}

/// The pretty-printed `sdf` field of a description, where true.
pub open spec fn sdf_part_pretty(d: SpriteDescription) -> Seq<char> {
    if d.sdf {
        (",\n    \"sdf\": true")@
    } else {
        Seq::empty()
    }
}

/// The trailing, optional part of a pretty-printed description.
pub open spec fn desc_json_pretty_opts(d: SpriteDescription) -> Seq<char> {
    content_part_pretty(d) + stretch_x_part_pretty(d) + stretch_y_part_pretty(d) + sdf_part_pretty(
        d,
    ) + ("\n  }")@
}

/// Append the optional fields and closer of a pretty-printed description.
#[verifier::rlimit(100)]
fn push_desc_pretty_opts(s: &mut String, d: &SpriteDescription)
    requires
        desc_wf(*d),
    ensures
        final(s)@ == old(s)@ + desc_json_pretty_opts(*d),
{
    let ghost base = old(s)@;
    let ghost q1 = content_part_pretty(*d);
    let ghost q2 = q1 + stretch_x_part_pretty(*d);
    let ghost q3 = q2 + stretch_y_part_pretty(*d);
    match d.content {
        Some(b) => {
            s.append(",\n    \"content\": ");
            push_quad_pretty(s, b);
        },
        None => {},
    }
    proof {
        assert(s@ =~= base + q1);
    }
    match &d.stretch_x {
        Some(v) => {
            s.append(",\n    \"stretchX\": ");
            push_ranges_pretty(s, v);
        },
        None => {},
    }
    proof {
        assert(s@ =~= base + q2);
    }
    match &d.stretch_y {
        Some(v) => {
            s.append(",\n    \"stretchY\": ");
            push_ranges_pretty(s, v);
        },
        None => {},
    }
    proof {
        assert(s@ =~= base + q3);
    }
    let ghost q4 = q3 + sdf_part_pretty(*d);
    if d.sdf {
        s.append(",\n    \"sdf\": true");
    }
    proof {
        assert(s@ =~= base + q4);
    }
    s.append("\n  }");
    proof {
        assert(s@ =~= base + q4 + ("\n  }")@);
        assert(q4 + ("\n  }")@ =~= desc_json_pretty_opts(*d));
    }
}

/// Append one description as pretty-printed JSON.
#[verifier::rlimit(100)]
fn push_desc_pretty(s: &mut String, d: &SpriteDescription)
    requires
        desc_wf(*d),
    ensures
        final(s)@ == old(s)@ + desc_json_pretty(*d),
{
    let ghost base = old(s)@;
    let ghost p1 = ("{\n    \"height\": ")@ + dec_str(d.height as nat) + (
    ",\n    \"pixelRatio\": ")@ + dec_str(d.pixel_ratio as nat) + (",\n    \"width\": ")@
        + dec_str(d.width as nat) + (",\n    \"x\": ")@ + dec_str(d.x as nat) + (
    ",\n    \"y\": ")@ + dec_str(d.y as nat);
    s.append("{\n    \"height\": ");
    push_dec(s, d.height as u64);
    s.append(",\n    \"pixelRatio\": ");
    push_dec(s, d.pixel_ratio as u64);
    s.append(",\n    \"width\": ");
    push_dec(s, d.width as u64);
    s.append(",\n    \"x\": ");
    push_dec(s, d.x as u64);
    s.append(",\n    \"y\": ");
    push_dec(s, d.y as u64);
    proof {
        assert(s@ =~= base + p1);
    }
    push_desc_pretty_opts(s, d);
    proof {
        assert(s@ =~= base + p1 + desc_json_pretty_opts(*d));
        assert(p1 + desc_json_pretty_opts(*d) =~= desc_json_pretty(*d));
    }
}

/// The content area of a stretchable icon as its JSON fragment: four
/// numbers, each an integer when it has no fractional part.
pub fn serialize_rect(b: &(i64, i64, i64, i64)) -> (r: String)
    requires
        b.0 > i64::MIN,
        b.1 > i64::MIN,
        b.2 > i64::MIN,
        b.3 > i64::MIN,
    ensures
        r@ == json_quad_min((b.0 as int, b.1 as int, b.2 as int, b.3 as int)),
{
    let mut s = String::new();
    push_quad_min(&mut s, *b);
    proof {
        assert(s@ =~= json_quad_min((b.0 as int, b.1 as int, b.2 as int, b.3 as int)));
    }
    s
}

/// A list of horizontal stretch ranges as its JSON fragment.
pub fn serialize_stretch_x_area(v: &Vec<(i64, i64)>) -> (r: String)
    requires
        forall|i: int| 0 <= i < v@.len() ==> (#[trigger] v@[i]).0 > i64::MIN && v@[i].1 > i64::MIN,
    ensures
        r@ == json_ranges_min(ranges_view(v@)),
{
    let mut s = String::new();
    push_ranges_min(&mut s, v);
    proof {
        assert(s@ =~= json_ranges_min(ranges_view(v@)));
    }
    s
}

/// A list of vertical stretch ranges as its JSON fragment; the axis was
/// chosen when the ranges were read from the vector image, so the shape is
/// the same as for the horizontal lists.
pub fn serialize_stretch_y_area(v: &Vec<(i64, i64)>) -> (r: String)
    requires
        forall|i: int| 0 <= i < v@.len() ==> (#[trigger] v@[i]).0 > i64::MIN && v@[i].1 > i64::MIN,
    ensures
        r@ == json_ranges_min(ranges_view(v@)),
{
    let mut s = String::new();
    push_ranges_min(&mut s, v);
    proof {
        assert(s@ =~= json_ranges_min(ranges_view(v@)));
    }
    s
}

/// The JSON text of a whole index: minified, or pretty-printed with two
/// spaces per indent level. Minifying removes whitespace only; the entries,
/// their order and every value read the same either way.
#[verifier::rlimit(100)]
pub fn index_json(m: &SpriteIndex, minify: bool) -> (r: String)
    requires
        forall|i: int| 0 <= i < m.vals().len() ==> desc_wf(#[trigger] m.vals()[i]),
    ensures
        minify ==> r@ == index_json_min(index_entries(*m)),
        !minify ==> r@ == index_json_pretty(index_entries(*m)),
{
    let ghost ents = index_entries(*m);
    let n = m.len();
    let mut s = String::new();
    if minify {
        s.append("{");
        let mut i: usize = 0;
        while i < n
            invariant
                0 <= i <= n,
                n == m.spec_len(),
                ents == index_entries(*m),
                forall|j: int| 0 <= j < m.vals().len() ==> desc_wf(#[trigger] m.vals()[j]),
                s@ == ("{")@ + index_items_min(ents.take(i as int)),
            decreases n - i,
        {
            if i > 0 {
                s.append(",");
            }
            push_json_string(&mut s, m.key_at(i).as_str());
            s.append(":");
            proof {
                assert(m.vals()[i as int] == ents[i as int].1);
            }
            push_desc_min(&mut s, m.val_at(i));
            proof {
                assert(ents.take(i + 1).drop_last() =~= ents.take(i as int));
                assert(ents.take(i + 1).last() == ents[i as int]);
                assert(s@ =~= ("{")@ + index_items_min(ents.take(i + 1)));
            }
            i = i + 1;
        }
        s.append("}");
        proof {
            assert(ents.take(n as int) =~= ents);
            assert(s@ =~= index_json_min(ents));
        }
    } else {
        if n == 0 {
            s.append("{}");
            proof {
                assert(s@ =~= index_json_pretty(ents));
            }
            return s;
        }
        s.append("{\n");
        let mut i: usize = 0;
        while i < n
            invariant
                0 <= i <= n,
                n == m.spec_len(),
                n > 0,
                ents == index_entries(*m),
                forall|j: int| 0 <= j < m.vals().len() ==> desc_wf(#[trigger] m.vals()[j]),
                s@ == ("{\n")@ + index_items_pretty(ents.take(i as int)),
            decreases n - i,
        {
            if i > 0 {
                s.append(",\n");
            }
            s.append("  ");
            push_json_string(&mut s, m.key_at(i).as_str());
            s.append(": ");
            proof {
                assert(m.vals()[i as int] == ents[i as int].1);
            }
            push_desc_pretty(&mut s, m.val_at(i));
            proof {
                assert(ents.take(i + 1).drop_last() =~= ents.take(i as int));
                assert(ents.take(i + 1).last() == ents[i as int]);
                assert(s@ =~= ("{\n")@ + index_items_pretty(ents.take(i + 1)));
            }
            i = i + 1;
        }
        s.append("\n}");
        proof {
            assert(ents.take(n as int) =~= ents);
            assert(s@ =~= index_json_pretty(ents));
        }
    }
    s
}

} // verus!
