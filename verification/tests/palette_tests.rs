use ascii_atlas::{
    get_ascii_art, map_luminance_to_ascii, parse_positive_int, resize_img, AsciiError, Img,
};

#[test]
fn palette_boundaries() {
    assert_eq!(map_luminance_to_ascii(0), '█');
    assert_eq!(map_luminance_to_ascii(255000), ' ');
    assert_eq!(map_luminance_to_ascii(127500), '▒');
}

#[test]
fn s6_luminance_bucket_boundary() {
    assert_eq!(map_luminance_to_ascii(31875), '▓');
    assert_eq!(map_luminance_to_ascii(31874), '█');
}

#[test]
fn luminance_map_is_monotone() {
    let palette = ['█', '▓', '▒', '░', ' '];
    let index = |c: char| palette.iter().position(|p| *p == c).unwrap();
    let samples = [0, 1, 31874, 31875, 90000, 95625, 127500, 159374, 159375, 223124, 223125,
        254999, 255000];
    let mut last = 0;
    for m in samples {
        let i = index(map_luminance_to_ascii(m));
        assert!(last <= i, "palette got lighter-to-darker at {m}");
        last = i;
    }
    assert_eq!(last, 4);
}

#[test]
fn raster_agrees_with_luminance_map() {
    // A panel's one glyph for a grey pixel equals the mapper's glyph for
    // that pixel's mean luminance, across every grey level.
    for v in 0..=255u32 {
        let img = Img { width: 1, height: 1, pixels: vec![v as u8; 3] };
        let panel = get_ascii_art(&img);
        let glyph = panel.chars().nth(5).unwrap();
        assert_eq!(glyph, map_luminance_to_ascii(v * 1000), "at grey level {v}");
    }
}

#[test]
fn resize_shrinks_toward_target_width() {
    let img = Img { width: 2, height: 2, pixels: vec![9; 12] };
    let small = resize_img(&img, 1);
    assert_eq!(small.width, 1);
    assert_eq!(small.height, 1);
    assert_eq!(small.pixels.len(), 3);
}

#[test]
fn parse_accepts_positive_integers() {
    assert_eq!(parse_positive_int("5"), Ok(5));
    assert_eq!(parse_positive_int("+7"), Ok(7));
    assert_eq!(parse_positive_int("12345"), Ok(12345));
}

#[test]
fn parse_rejects_everything_else() {
    assert_eq!(parse_positive_int(""), Err(AsciiError::InvalidArguments));
    assert_eq!(parse_positive_int("0"), Err(AsciiError::InvalidArguments));
    assert_eq!(parse_positive_int("+0"), Err(AsciiError::InvalidArguments));
    assert_eq!(parse_positive_int("abc"), Err(AsciiError::InvalidArguments));
    assert_eq!(parse_positive_int("12x"), Err(AsciiError::InvalidArguments));
    assert_eq!(parse_positive_int("-3"), Err(AsciiError::InvalidArguments));
    assert_eq!(
        parse_positive_int("99999999999999999999999999"),
        Err(AsciiError::InvalidArguments),
    );
}
