use resvg::usvg::{Options, Tree};
use spreet::{sprite_name, SpreetError, Sprite};

#[test]
fn sprite_name_works_with_root_files() {
    assert_eq!(
        sprite_name(
            "./tests/fixtures/svgs/recursive/bear.svg",
            "./tests/fixtures/svgs/recursive"
        )
        .unwrap(),
        "bear"
    );
}

#[test]
fn sprite_name_works_with_nested_files() {
    assert_eq!(
        sprite_name(
            "./tests/fixtures/svgs/recursive/bear.svg",
            "./tests/fixtures/svgs"
        )
        .unwrap(),
        "recursive/bear"
    );
}

#[test]
fn sprite_name_works_with_deeply_nested_files() {
    assert_eq!(
        sprite_name("./tests/fixtures/svgs/recursive/bear.svg", "./tests").unwrap(),
        "fixtures/svgs/recursive/bear"
    );
}

#[test]
fn sprite_name_returns_ok_for_non_existent_path() {
    assert_eq!(
        sprite_name("./does_not_exist.svg", "./").unwrap(),
        "does_not_exist"
    );
}

#[test]
fn sprite_name_returns_error_when_path_is_empty() {
    assert!(matches!(
        sprite_name("", ""),
        Err(SpreetError::IoError(_))
    ));
}

#[test]
fn sprite_name_returns_error_for_non_existent_base_path() {
    assert!(matches!(
        sprite_name("./tests/fixtures/svgs/bicycle.svg", "./tests/fixtures/foo"),
        Err(SpreetError::PathError(_))
    ));
}

#[test]
fn sprite_name_returns_error_when_base_path_not_parent_of_path() {
    assert!(matches!(
        sprite_name("./tests/fixtures/svgs/bicycle.svg", "./tests/fixtures/pngs/"),
        Err(SpreetError::PathError(_))
    ));
}

#[test]
fn sprite_name_rejects_a_parent_directory_path() {
    assert!(matches!(
        sprite_name("./icons/..", "./"),
        Err(SpreetError::PathError(_))
    ));
}

fn tree_from(svg: &str) -> Tree {
    Tree::from_str(svg, &Options::default()).unwrap()
}

#[test]
fn unstretchable_icon_has_no_metadata() {
    let svg = "<svg xmlns='http://www.w3.org/2000/svg' width='20' height='20'>\
               <circle cx='10' cy='10' r='5'/></svg>";
    let sprite = Sprite::new(tree_from(svg), 1).unwrap();

    assert!(sprite.content_area().is_none());
    assert!(sprite.stretch_x_areas().is_none());
    assert!(sprite.stretch_y_areas().is_none());
}

#[test]
fn stretchable_icon_has_metadata() {
    let svg = "<svg xmlns='http://www.w3.org/2000/svg' width='20' height='20'>\
               <rect id='mapbox-content' x='2' y='5' width='16' height='13'/>\
               <rect id='mapbox-stretch-x' x='4' y='0' width='12' height='1'/>\
               <rect id='mapbox-stretch-y' x='0' y='5' width='1' height='11'/></svg>";
    let sprite = Sprite::new(tree_from(svg), 1).unwrap();

    assert_eq!(
        sprite.content_area().unwrap(),
        (2000, 5000, 18000, 18000)
    );
    assert_eq!(sprite.stretch_x_areas().unwrap(), vec![(4000, 16000)]);
    assert_eq!(sprite.stretch_y_areas().unwrap(), vec![(5000, 16000)]);
}

#[test]
fn stretchable_icons_can_use_stretch_shorthand() {
    let svg = "<svg xmlns='http://www.w3.org/2000/svg' width='20' height='20'>\
               <rect id='mapbox-stretch' x='3' y='5' width='14' height='12'/></svg>";
    let sprite = Sprite::new(tree_from(svg), 1).unwrap();

    assert!(sprite.content_area().is_none());
    assert_eq!(sprite.stretch_x_areas().unwrap(), vec![(3000, 17000)]);
    assert_eq!(sprite.stretch_y_areas().unwrap(), vec![(5000, 17000)]);
}

#[test]
fn stretchable_icon_can_have_multiple_horizontal_stretch_zones() {
    let svg = "<svg xmlns='http://www.w3.org/2000/svg' width='24' height='10'>\
               <rect id='mapbox-stretch-x' x='5' y='4' width='2' height='2'/>\
               <rect id='mapbox-stretch-x-1' x='20' y='4' width='2' height='2'/></svg>";
    let sprite = Sprite::new(tree_from(svg), 1).unwrap();

    assert_eq!(
        sprite.stretch_x_areas().unwrap(),
        vec![(5000, 7000), (20000, 22000)]
    );
}

#[test]
fn stretchable_icon_metadata_matches_pixel_ratio() {
    let svg = "<svg xmlns='http://www.w3.org/2000/svg' width='20' height='20'>\
               <rect id='mapbox-content' x='2' y='5' width='16' height='13'/>\
               <rect id='mapbox-stretch-x' x='4' y='0' width='12' height='1'/>\
               <rect id='mapbox-stretch-y' x='0' y='5' width='1' height='11'/></svg>";
    let sprite = Sprite::new(tree_from(svg), 2).unwrap();

    assert_eq!(
        sprite.content_area().unwrap(),
        (4000, 10000, 36000, 36000)
    );
    assert_eq!(sprite.stretch_x_areas().unwrap(), vec![(8000, 32000)]);
    assert_eq!(sprite.stretch_y_areas().unwrap(), vec![(10000, 32000)]);
}

#[test]
fn stretchable_icon_with_empty_metadata_is_ignored() {
    let svg = "<svg xmlns='http://www.w3.org/2000/svg'><path id='mapbox-content'/></svg>";
    let sprite = Sprite::new(tree_from(svg), 1).unwrap();

    assert!(sprite.content_area().is_none());
}

#[test]
fn stretchable_icon_with_invalid_metadata_is_ignored() {
    let svg = "<svg xmlns='http://www.w3.org/2000/svg'><path id='mapbox-content' d='foo'/></svg>";
    let sprite = Sprite::new(tree_from(svg), 1).unwrap();

    assert!(sprite.content_area().is_none());
}

#[test]
fn stretchable_icon_with_metadata_in_hidden_element_is_ignored() {
    let svg = "
    <svg xmlns='http://www.w3.org/2000/svg'>
        <path id='mapbox-content' d='M5,5l2,0' style='display:none'/>
    </svg>
    ";
    let sprite = Sprite::new(tree_from(svg), 1).unwrap();

    assert!(sprite.content_area().is_none());
}

#[test]
fn explicit_stretch_zones_win_over_the_shorthand() {
    // With an explicit horizontal zone present, the shorthand is ignored
    // on that axis but still serves the other one.
    let svg = "<svg xmlns='http://www.w3.org/2000/svg' width='20' height='20'>               <rect id='mapbox-stretch-x' x='4' y='0' width='12' height='1'/>               <rect id='mapbox-stretch' x='3' y='5' width='14' height='12'/></svg>";
    let sprite = Sprite::new(tree_from(svg), 1).unwrap();

    assert_eq!(sprite.stretch_x_areas().unwrap(), vec![(4000, 16000)]);
    assert_eq!(sprite.stretch_y_areas().unwrap(), vec![(5000, 17000)]);
}

#[test]
fn numbered_stretch_zones_stop_at_the_first_gap() {
    let svg = "<svg xmlns='http://www.w3.org/2000/svg' width='30' height='10'>\
               <rect id='mapbox-stretch-x-1' x='1' y='4' width='2' height='2'/>\
               <rect id='mapbox-stretch-x-3' x='9' y='4' width='2' height='2'/></svg>";
    let sprite = Sprite::new(tree_from(svg), 1).unwrap();

    // The zone numbered 3 sits past the missing number 2 and is not seen.
    assert_eq!(sprite.stretch_x_areas().unwrap(), vec![(1000, 3000)]);
}

#[test]
fn sdf_sprite_is_buffered_by_three_pixels() {
    let svg = "<svg xmlns='http://www.w3.org/2000/svg' width='20' height='20'>\
               <rect x='0' y='0' width='20' height='20'/></svg>";
    let plain = Sprite::new(tree_from(svg), 1).unwrap();
    let sdf = Sprite::new_sdf(tree_from(svg), 1).unwrap();

    assert_eq!(plain.pixmap().width(), 20);
    assert_eq!(plain.pixmap().height(), 20);
    assert_eq!(sdf.pixmap().width(), 26);
    assert_eq!(sdf.pixmap().height(), 26);
}

#[test]
fn sdf_square_is_bright_inside_and_dark_outside() {
    // A fully opaque square: quantised distance values of 192 and above
    // mean inside the shape, lower values outside, with a gradient at the
    // boundary.
    let svg = "<svg xmlns='http://www.w3.org/2000/svg' width='20' height='20'>\
               <rect x='0' y='0' width='20' height='20'/></svg>";
    let sprite = Sprite::new_sdf(tree_from(svg), 1).unwrap();
    let pixmap = sprite.pixmap();
    let w = pixmap.width() as usize;
    let data = pixmap.data();
    let alpha = |x: usize, y: usize| data[4 * (y * w + x) + 3];

    // Deep inside the shape.
    assert!(alpha(13, 13) >= 192);
    // Outside, in the transparent buffer.
    assert!(alpha(0, 0) < 192);
    assert!(alpha(1, 13) < 192);
    // The values climb monotonically from the outside in, along a row
    // through the middle.
    for x in 0..13 {
        assert!(alpha(x, 13) <= alpha(x + 1, 13));
    }
    // Every pixel is black with only the alpha carrying the field.
    for y in 0..w {
        for x in 0..w {
            assert_eq!(data[4 * (y * w + x)], 0);
            assert_eq!(data[4 * (y * w + x) + 1], 0);
            assert_eq!(data[4 * (y * w + x) + 2], 0);
        }
    }
}
