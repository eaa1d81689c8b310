use ascii_atlas::{compose_ascii_atlas, find, get_ascii_art, hcat, AsciiError, Img};

fn solid(width: u32, height: u32, r: u8, g: u8, b: u8) -> Img {
    let mut pixels = Vec::new();
    for _ in 0..(width * height) {
        pixels.push(r);
        pixels.push(g);
        pixels.push(b);
    }
    Img { width, height, pixels }
}

#[test]
fn s1_single_black_pixel() {
    let img = solid(1, 1, 0, 0, 0);
    let panel = get_ascii_art(&img);
    assert_eq!(panel.as_str(), "+++\n+█+\n+++\n");
}

#[test]
fn s2_single_white_pixel() {
    let img = solid(1, 1, 255, 255, 255);
    let panel = get_ascii_art(&img);
    assert_eq!(panel.as_str(), "+++\n+ +\n+++\n");
}

#[test]
fn s3_mid_grey_two_wide() {
    let img = solid(2, 1, 128, 128, 128);
    let panel = get_ascii_art(&img);
    assert_eq!(panel.as_str(), "++++\n+▒▒+\n++++\n");
}

#[test]
fn s4_compose_two_panels() {
    let atlas = hcat(vec!["+++\n+█+\n+++\n", "+++\n+ +\n+++\n"]).unwrap();
    assert_eq!(atlas.as_str(), "++++++\n+█++ +\n++++++\n");
}

#[test]
fn s5_extract_from_composed() {
    let atlas = "++++++\n+█++ +\n++++++\n";
    assert_eq!(find(atlas, 0).unwrap().as_str(), "█");
    assert_eq!(find(atlas, 1).unwrap().as_str(), " ");
    assert_eq!(find(atlas, 2), Err(AsciiError::PanelIndexOutOfRange));
}

#[test]
fn hcat_of_one_panel_is_that_panel() {
    let panel = "+++\n+░+\n+++\n";
    assert_eq!(hcat(vec![panel]).unwrap().as_str(), panel);
}

#[test]
fn hcat_rejects_mismatched_heights() {
    let one_row = "+++\n+█+\n+++\n";
    let two_rows = "+++\n+█+\n+█+\n+++\n";
    assert_eq!(hcat(vec![one_row, two_rows]), Err(AsciiError::MismatchedPanelHeights));
}

#[test]
fn extract_of_zero_width_atlas_line_skips_borders() {
    // Border-only lines and the trailing empty line carry no fragments, so
    // extraction over an all-border atlas returns an empty body.
    let atlas = "++++\n++++\n";
    assert_eq!(find(atlas, 0).unwrap().as_str(), "");
    assert_eq!(find(atlas, 7).unwrap().as_str(), "");
}

#[test]
fn raster_round_trip_through_atlas() {
    let dark = get_ascii_art(&solid(3, 2, 10, 10, 10));
    let light = get_ascii_art(&solid(2, 2, 200, 200, 200));
    let atlas = hcat(vec![dark.as_str(), light.as_str()]).unwrap();
    assert_eq!(find(&atlas, 0).unwrap().as_str(), "███\n███");
    assert_eq!(find(&atlas, 1).unwrap().as_str(), "░░\n░░");
    assert_eq!(find(&atlas, 2), Err(AsciiError::PanelIndexOutOfRange));
}

#[test]
fn compose_equal_heights() {
    let black = solid(100, 1, 0, 0, 0);
    let white = solid(100, 1, 255, 255, 255);
    let atlas = compose_ascii_atlas(vec![black, white]).unwrap();
    let border = "+".repeat(102);
    let expected = format!(
        "{}{}\n+{}++{}+\n{}{}\n",
        border,
        border,
        "█".repeat(100),
        " ".repeat(100),
        border,
        border,
    );
    assert_eq!(atlas, expected);
    assert_eq!(find(&atlas, 0).unwrap(), "█".repeat(100));
    assert_eq!(find(&atlas, 1).unwrap(), " ".repeat(100));
}

#[test]
fn compose_rejects_mismatched_heights() {
    // A 100-wide strip keeps height 1; a 50-wide strip is scaled up to
    // height 2, so the panels cannot be composed.
    let wide = solid(100, 1, 0, 0, 0);
    let narrow = solid(50, 1, 0, 0, 0);
    assert_eq!(compose_ascii_atlas(vec![wide, narrow]), Err(AsciiError::MismatchedPanelHeights));
}
