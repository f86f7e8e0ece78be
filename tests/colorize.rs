use indiescraper::button::{check_button, classify_bitmap, classify_button, is_image_url, DecodeError};
use indiescraper::colorize::{Bitmap, ColorAnalyzer, Rgb};

fn solid(width: u32, height: u32, px: Rgb) -> Bitmap {
    Bitmap { width, height, pixels: vec![px; (width * height) as usize] }
}

fn from_fn(width: u32, height: u32, f: impl Fn(usize) -> Rgb) -> Bitmap {
    let pixels = (0..(width * height) as usize).map(f).collect();
    Bitmap { width, height, pixels }
}

fn png_bytes(width: u32, height: u32, rgb: [u8; 3]) -> Vec<u8> {
    let img = image::RgbImage::from_pixel(width, height, image::Rgb(rgb));
    let mut out = std::io::Cursor::new(Vec::new());
    img.write_to(&mut out, image::ImageFormat::Png).unwrap();
    out.into_inner()
}

#[test]
fn all_red_button_is_tagged_red() {
    let red = Rgb { r: 255, g: 0, b: 0 };
    let a = classify_bitmap(&solid(88, 31, red)).expect("88x31 is a button");
    assert_eq!(a.tags, vec!["red".to_string()]);
    assert_eq!(a.hex_average, "#ff0000");
}

#[test]
fn button_size_is_exact_on_both_axes() {
    let px = Rgb { r: 10, g: 200, b: 30 };
    assert!(classify_bitmap(&solid(88, 31, px)).is_some());
    assert!(classify_bitmap(&solid(88, 30, px)).is_none());
    assert!(classify_bitmap(&solid(89, 31, px)).is_none());
    assert!(classify_bitmap(&solid(87, 31, px)).is_none());
    assert!(classify_bitmap(&solid(88, 32, px)).is_none());
}

#[test]
fn many_distinct_colours_are_rainbow() {
    let img = from_fn(88, 31, |i| {
        let r = (i % 256) as u8;
        Rgb { r, g: ((i / 256) * 20) as u8, b: 255 - r }
    });
    let a = classify_bitmap(&img).unwrap();
    assert_eq!(a.tags, vec!["rainbow".to_string()]);
}

#[test]
fn grayscale_gradient_is_black_and_white() {
    let img = from_fn(88, 31, |i| {
        let v = (i % 256) as u8;
        Rgb { r: v, g: v, b: v }
    });
    let a = classify_bitmap(&img).unwrap();
    assert_eq!(a.tags, vec!["b&w".to_string()]);
}

#[test]
fn near_gray_within_ten_is_black_and_white() {
    let a = classify_bitmap(&solid(88, 31, Rgb { r: 100, g: 110, b: 90 })).unwrap();
    assert_eq!(a.tags, vec!["b&w".to_string()]);
    let b = classify_bitmap(&solid(88, 31, Rgb { r: 100, g: 111, b: 100 })).unwrap();
    assert_ne!(b.tags, vec!["b&w".to_string()]);
}

#[test]
fn top_three_colours_by_count_with_true_average() {
    let img = from_fn(88, 31, |i| {
        if i < 1500 {
            Rgb { r: 0, g: 0, b: 255 }
        } else if i < 2300 {
            Rgb { r: 0, g: 128, b: 0 }
        } else {
            Rgb { r: 255, g: 255, b: 0 }
        }
    });
    let a = classify_bitmap(&img).unwrap();
    assert_eq!(a.tags, vec!["blue".to_string(), "green".to_string(), "yellow".to_string()]);
    assert_eq!(a.hex_average, "#284d8c");
}

#[test]
fn equal_counts_keep_palette_order() {
    let img = from_fn(88, 31, |i| if i % 2 == 0 { Rgb { r: 0, g: 0, b: 255 } } else { Rgb { r: 255, g: 0, b: 0 } });
    let a = classify_bitmap(&img).unwrap();
    assert_eq!(a.tags, vec!["red".to_string(), "blue".to_string()]);
    assert_eq!(a.hex_average, "#7f007f");
}

#[test]
fn at_most_three_tags() {
    let colours = [
        Rgb { r: 255, g: 0, b: 0 },
        Rgb { r: 0, g: 0, b: 255 },
        Rgb { r: 0, g: 128, b: 0 },
        Rgb { r: 255, g: 255, b: 0 },
    ];
    let img = from_fn(88, 31, |i| colours[i % 4]);
    let a = classify_bitmap(&img).unwrap();
    assert_eq!(a.tags, vec!["red".to_string(), "blue".to_string(), "green".to_string()]);
}

#[test]
fn nearest_palette_entries() {
    let a = ColorAnalyzer::new();
    assert_eq!(a.find_closest_color(Rgb { r: 250, g: 5, b: 5 }), 0);
    assert_eq!(a.find_closest_color(Rgb { r: 0, g: 0, b: 0 }), 6);
    assert_eq!(a.find_closest_color(Rgb { r: 130, g: 130, b: 130 }), 8);
    assert_eq!(a.find_closest_color(Rgb { r: 250, g: 190, b: 200 }), 9);
    assert_eq!(a.color_distance(Rgb { r: 0, g: 0, b: 0 }, Rgb { r: 3, g: 4, b: 0 }), 25);
}

#[test]
fn black_and_white_check_on_whole_image() {
    let a = ColorAnalyzer::new();
    assert!(a.is_black_and_white(&solid(2, 2, Rgb { r: 40, g: 45, b: 50 })));
    assert!(!a.is_black_and_white(&solid(2, 2, Rgb { r: 40, g: 45, b: 51 })));
}

#[test]
fn analyze_image_on_small_image() {
    let a = ColorAnalyzer::new();
    let r = a.analyze_image(&solid(3, 1, Rgb { r: 0, g: 0, b: 255 }));
    assert_eq!(r.hex_average, "#0000ff");
}

#[test]
fn decoded_png_button_is_classified() {
    let bytes = png_bytes(88, 31, [255, 0, 0]);
    let a = classify_button(&bytes).expect("a red 88x31 png is a button");
    assert_eq!(a.tags, vec!["red".to_string()]);
    assert_eq!(a.hex_average, "#ff0000");
    assert_eq!(check_button(&bytes), Ok(true));
}

#[test]
fn decoded_png_of_other_size_is_rejected() {
    let bytes = png_bytes(88, 30, [255, 0, 0]);
    assert!(classify_button(&bytes).is_none());
    assert_eq!(check_button(&bytes), Ok(false));
    assert_eq!(check_button(&png_bytes(89, 31, [0, 0, 0])), Ok(false));
}

#[test]
fn undecodable_bytes_are_no_button() {
    let junk = vec![1u8, 2, 3, 4, 5];
    assert!(classify_button(&junk).is_none());
    assert_eq!(check_button(&junk), Err(DecodeError::Undecodable));
}

#[test]
fn image_urls_by_extension() {
    assert!(is_image_url("https://a.example/b.png"));
    assert!(is_image_url("https://a.example/b.webp"));
    assert!(is_image_url("https://a.example/b.jpeg"));
    assert!(is_image_url("https://a.example/b.gif"));
    assert!(!is_image_url("https://a.example/page/"));
    assert!(!is_image_url("https://a.example/b.PNG"));
}
