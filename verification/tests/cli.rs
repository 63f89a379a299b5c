use spreet::Cli;

fn base_cli() -> Cli {
    Cli {
        input: String::from("icons"),
        output: String::from("sheet"),
        ratio: 1,
        retina: false,
        unique: false,
        recursive: false,
        spacing: 0,
        minify_index_file: false,
        simple_index_file: false,
        sdf: false,
    }
}

#[test]
fn explicit_ratio_is_used_as_given() {
    let mut cli = base_cli();
    cli.ratio = 3;
    assert_eq!(cli.pixel_ratio(), 3);
}

#[test]
fn retina_shorthand_means_ratio_two() {
    let mut cli = base_cli();
    cli.ratio = 1;
    cli.retina = true;
    assert_eq!(cli.pixel_ratio(), 2);
}
