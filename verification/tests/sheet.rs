use resvg::usvg::{Options, Tree};
use spreet::sheet::SpriteCollection;
use spreet::{Sprite, SpriteDescription, Spritesheet};

fn tree_from(svg: &str) -> Tree {
    Tree::from_str(svg, &Options::default()).unwrap()
}

fn square_svg(size: u32, color: &str) -> String {
    format!(
        "<svg xmlns='http://www.w3.org/2000/svg' width='{size}' height='{size}'>\
         <rect x='0' y='0' width='{size}' height='{size}' fill='{color}'/></svg>"
    )
}

fn rect_svg(w: u32, h: u32, color: &str) -> String {
    format!(
        "<svg xmlns='http://www.w3.org/2000/svg' width='{w}' height='{h}'>\
         <rect x='0' y='0' width='{w}' height='{h}' fill='{color}'/></svg>"
    )
}

fn geometry(d: &SpriteDescription) -> (u32, u32, u32, u32) {
    (d.x, d.y, d.width, d.height)
}

fn overlaps(a: (u32, u32, u32, u32), b: (u32, u32, u32, u32)) -> bool {
    a.0 < b.0 + b.2 && b.0 < a.0 + a.2 && a.1 < b.1 + b.3 && b.1 < a.1 + a.3
}

#[test]
fn packed_rectangles_stay_apart_and_inside_the_bin() {
    let mut sprites = SpriteCollection::new();
    sprites.insert(
        String::from("one"),
        Sprite::new(tree_from(&square_svg(10, "red")), 1).unwrap(),
    );
    sprites.insert(
        String::from("two"),
        Sprite::new(tree_from(&rect_svg(20, 5, "blue")), 1).unwrap(),
    );
    sprites.insert(
        String::from("three"),
        Sprite::new(tree_from(&square_svg(7, "green")), 1).unwrap(),
    );
    let mut builder = Spritesheet::build();
    builder.sprites(sprites);
    let sheet = builder.generate().unwrap();

    let index = sheet.get_index();
    assert_eq!(index.len(), 3);
    let mut geoms = Vec::new();
    for i in 0..index.len() {
        let d = index.val_at(i);
        let g = geometry(d);
        // Fully contained within the reported bin dimensions.
        assert!(g.0 + g.2 <= sheet.sheet.width);
        assert!(g.1 + g.3 <= sheet.sheet.height);
        geoms.push(g);
    }
    // Pairwise non-overlapping.
    for i in 0..geoms.len() {
        for j in 0..geoms.len() {
            if i != j {
                assert!(!overlaps(geoms[i], geoms[j]));
            }
        }
    }
    // The bin is at least as large as the largest sprite on each axis.
    assert!(sheet.sheet.width >= 20);
    assert!(sheet.sheet.height >= 10);
}

#[test]
fn spacing_keeps_sprites_apart() {
    let mut sprites = SpriteCollection::new();
    sprites.insert(
        String::from("one"),
        Sprite::new(tree_from(&square_svg(10, "red")), 1).unwrap(),
    );
    sprites.insert(
        String::from("two"),
        Sprite::new(tree_from(&square_svg(10, "blue")), 1).unwrap(),
    );
    let mut builder = Spritesheet::build();
    builder.sprites(sprites);
    builder.spacing(2);
    let sheet = builder.generate().unwrap();

    let index = sheet.get_index();
    let a = geometry(index.val_at(0));
    let b = geometry(index.val_at(1));
    // Even grown by the spacing, the placements stay disjoint.
    let pa = (a.0, a.1, a.2 + 2, a.3 + 2);
    let pb = (b.0, b.1, b.2 + 2, b.3 + 2);
    assert!(!overlaps(pa, pb));
}

#[test]
fn duplicate_sprites_collapse_to_one_canonical_entry() {
    // Two byte-identical rasters and one distinct raster: three index
    // entries, but the duplicate is an alias sharing its canonical
    // sprite's record.
    let mut sprites = SpriteCollection::new();
    sprites.insert(
        String::from("a"),
        Sprite::new(tree_from(&square_svg(10, "red")), 1).unwrap(),
    );
    sprites.insert(
        String::from("b"),
        Sprite::new(tree_from(&square_svg(10, "red")), 1).unwrap(),
    );
    sprites.insert(
        String::from("c"),
        Sprite::new(tree_from(&rect_svg(20, 5, "blue")), 1).unwrap(),
    );
    let mut builder = Spritesheet::build();
    builder.sprites(sprites);
    builder.make_unique();
    let sheet = builder.generate().unwrap();

    let index = sheet.get_index();
    assert_eq!(index.len(), 3);
    let a = index.get("a").unwrap();
    let b = index.get("b").unwrap();
    let c = index.get("c").unwrap();
    assert_eq!(geometry(a), geometry(b));
    assert_eq!(a.pixel_ratio, b.pixel_ratio);
    assert_eq!(a.content, b.content);
    assert_eq!(a.stretch_x, b.stretch_x);
    assert_eq!(a.stretch_y, b.stretch_y);
    assert_eq!(a.sdf, b.sdf);
    assert_ne!(geometry(a), geometry(c));
}

#[test]
fn end_to_end_dedup_bounds_the_bitmap_area() {
    // Three icons of 10 by 10, 10 by 10 with identical pixels, and 20 by
    // 5, with deduplication: three keys, two distinct geometries, and a
    // bitmap no larger than the packer's worst-case growth over the two
    // unique sprites' combined area.
    let mut sprites = SpriteCollection::new();
    sprites.insert(
        String::from("a"),
        Sprite::new(tree_from(&square_svg(10, "red")), 1).unwrap(),
    );
    sprites.insert(
        String::from("b"),
        Sprite::new(tree_from(&square_svg(10, "red")), 1).unwrap(),
    );
    sprites.insert(
        String::from("c"),
        Sprite::new(tree_from(&rect_svg(20, 5, "blue")), 1).unwrap(),
    );
    let mut builder = Spritesheet::build();
    builder.sprites(sprites);
    builder.make_unique();
    let sheet = builder.generate().unwrap();

    let index = sheet.get_index();
    assert_eq!(index.len(), 3);
    let mut geoms = Vec::new();
    for i in 0..index.len() {
        geoms.push(geometry(index.val_at(i)));
    }
    geoms.sort();
    geoms.dedup();
    assert_eq!(geoms.len(), 2);
    // Combined unique area is 200; the growth bound searches up to ten
    // times that.
    let area = (sheet.sheet.width as u64) * (sheet.sheet.height as u64);
    assert!(area <= 2000);
}

#[test]
fn one_large_sprite_packs_within_the_growth_bound() {
    // A single 4096 by 4096 sprite alongside a 1 by 1 sprite must pack,
    // and the bin must reach at least 4096 on each axis.
    let mut sprites = SpriteCollection::new();
    sprites.insert(
        String::from("large"),
        Sprite::new(tree_from(&square_svg(4096, "red")), 1).unwrap(),
    );
    sprites.insert(
        String::from("tiny"),
        Sprite::new(tree_from(&square_svg(1, "blue")), 1).unwrap(),
    );
    let mut builder = Spritesheet::build();
    builder.sprites(sprites);
    let sheet = builder.generate().unwrap();
    assert!(sheet.sheet.width >= 4096);
    assert!(sheet.sheet.height >= 4096);
}

#[test]
fn composited_pixels_come_from_the_placed_sprites() {
    let mut sprites = SpriteCollection::new();
    sprites.insert(
        String::from("red"),
        Sprite::new(tree_from(&square_svg(4, "red")), 1).unwrap(),
    );
    sprites.insert(
        String::from("blue"),
        Sprite::new(tree_from(&square_svg(4, "blue")), 1).unwrap(),
    );
    let mut builder = Spritesheet::build();
    builder.sprites(sprites);
    let sheet = builder.generate().unwrap();

    let index = sheet.get_index();
    let w = sheet.sheet.width as usize;
    for i in 0..index.len() {
        let d = index.val_at(i);
        // The centre pixel of each placement is fully opaque.
        let px = (d.x + d.width / 2) as usize;
        let py = (d.y + d.height / 2) as usize;
        assert_eq!(sheet.sheet.data[4 * (py * w + px) + 3], 255);
    }
}

#[test]
fn empty_collection_generates_nothing() {
    let mut builder = Spritesheet::build();
    builder.sprites(SpriteCollection::new());
    assert!(builder.generate().is_none());
}

#[test]
fn generate_without_sprites_yields_nothing() {
    let builder = Spritesheet::build();
    assert!(builder.generate().is_none());
}

#[test]
fn encode_png_produces_a_png_stream() {
    let mut sprites = SpriteCollection::new();
    sprites.insert(
        String::from("one"),
        Sprite::new(tree_from(&square_svg(8, "red")), 1).unwrap(),
    );
    let mut builder = Spritesheet::build();
    builder.sprites(sprites);
    let sheet = builder.generate().unwrap();
    let png = sheet.encode_png().unwrap();
    assert_eq!(&png[..8], &[0x89, 0x50, 0x4e, 0x47, 0x0d, 0x0a, 0x1a, 0x0a]);
}

#[test]
fn encoded_png_decodes_to_the_sheet_dimensions() {
    let mut sprites = SpriteCollection::new();
    sprites.insert(
        String::from("one"),
        Sprite::new(tree_from(&square_svg(9, "red")), 1).unwrap(),
    );
    sprites.insert(
        String::from("two"),
        Sprite::new(tree_from(&rect_svg(5, 3, "blue")), 1).unwrap(),
    );
    let mut builder = Spritesheet::build();
    builder.sprites(sprites);
    let sheet = builder.generate().unwrap();
    let png = sheet.encode_png().unwrap();

    let decoder = png::Decoder::new(std::io::Cursor::new(&png[..]));
    let reader = decoder.read_info().unwrap();
    let info = reader.info();
    assert_eq!(info.width, sheet.sheet.width);
    assert_eq!(info.height, sheet.sheet.height);
}

#[test]
fn sdf_spritesheets_mark_every_entry() {
    let mut sprites = SpriteCollection::new();
    sprites.insert(
        String::from("one"),
        Sprite::new_sdf(tree_from(&square_svg(8, "red")), 1).unwrap(),
    );
    let mut builder = Spritesheet::build();
    builder.sprites(sprites);
    builder.make_sdf();
    let sheet = builder.generate().unwrap();
    let index = sheet.get_index();
    assert!(index.val_at(0).sdf);
    // The distance-field sprite is buffered by three pixels a side.
    assert_eq!(index.val_at(0).width, 14);
    assert_eq!(index.val_at(0).height, 14);
}

#[test]
fn index_json_of_a_generated_sheet_is_exact() {
    let mut sprites = SpriteCollection::new();
    sprites.insert(
        String::from("solo"),
        Sprite::new(tree_from(&square_svg(6, "red")), 1).unwrap(),
    );
    let mut builder = Spritesheet::build();
    builder.sprites(sprites);
    let sheet = builder.generate().unwrap();
    let json = sheet.index_json(true);
    assert_eq!(
        json,
        "{\"solo\":{\"height\":6,\"pixelRatio\":1,\"width\":6,\"x\":0,\"y\":0}}"
    );
}
