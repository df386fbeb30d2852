use image_packer::cli::cli_parse;
use image_packer::packer::ImagePacker;

#[test]
fn new_has_documented_defaults() {
    let p = ImagePacker::new(None);
    assert!(!p.cli);
    assert!(!p.print_output);
    assert_eq!(p.border, 0);
    assert_eq!(p.dir_name, "packer/images/");
    assert_eq!(p.save_name, "packed_image.png");
    assert_eq!(p.supported_formats, vec!["png".to_string()]);
}

#[test]
fn new_takes_given_directory() {
    let p = ImagePacker::new(Some("assets/sprites".to_string()));
    assert_eq!(p.dir_name, "assets/sprites");
}

#[test]
fn setters_change_one_field_each() {
    let mut p = ImagePacker::new(None);
    p.set_directory("elsewhere".to_string());
    assert_eq!(p.dir_name, "elsewhere");
    p.set_border(7);
    assert_eq!(p.border, 7);
    p.add_supported_format("bmp".to_string());
    assert_eq!(p.supported_formats, vec!["png".to_string(), "bmp".to_string()]);
    p.set_print_output(true);
    assert!(p.get_print_output());
    p.set_file_save_name("out.png".to_string());
    assert_eq!(p.save_name, "out.png");
    assert_eq!(p.dir_name, "elsewhere");
    assert_eq!(p.border, 7);
}

#[test]
fn cli_parse_applies_all_options() {
    let mut p = ImagePacker::new(None);
    cli_parse(
        &mut p,
        Some("atlas.png".to_string()),
        true,
        9,
        Some("gfx".to_string()),
        vec!["bmp".to_string(), "png".to_string(), "tga".to_string()],
    );
    assert!(p.cli);
    assert_eq!(p.save_name, "atlas.png");
    assert_eq!(p.dir_name, "gfx");
    assert_eq!(p.border, 9);
    assert!(p.print_output);
    // png is already accepted and is not added a second time
    assert_eq!(
        p.supported_formats,
        vec!["png".to_string(), "bmp".to_string(), "tga".to_string()]
    );
}

#[test]
fn cli_parse_keeps_defaults_when_options_absent() {
    let mut p = ImagePacker::new(None);
    cli_parse(&mut p, None, false, 0, None, Vec::new());
    assert!(p.cli);
    assert_eq!(p.save_name, "packed_image.png");
    assert_eq!(p.dir_name, "packer/images/");
    assert_eq!(p.border, 0);
    assert!(!p.print_output);
    assert_eq!(p.supported_formats, vec!["png".to_string()]);
}
