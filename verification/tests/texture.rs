use image::codecs::jpeg::JpegEncoder;
use image::ColorType;
use rasterizer::canvas::Rgb;
use rasterizer::texture::{Texture, TextureError};

fn rgb(red: i64, green: i64, blue: i64) -> Rgb {
    Rgb { red, green, blue }
}

const RED: [u8; 3] = [255, 0, 0];
const GREEN: [u8; 3] = [0, 255, 0];
const BLUE: [u8; 3] = [0, 0, 255];
const GREY: [u8; 3] = [100, 110, 120];

// top row red, green; bottom row blue, grey
fn two_by_two() -> Texture {
    let data = [RED, GREEN, BLUE, GREY].concat();
    Texture::from_rgb(2, 2, data).unwrap()
}

// The texel that holds a sample, and the share of the next texel in it.
fn locate(texture: &Texture, u: f64, v: f64) -> (u32, u32, f64, f64) {
    let x = u * (texture.width() - 1) as f64;
    let y = v * (texture.height() - 1) as f64;
    (x.floor() as u32, y.floor() as u32, x.fract(), y.fract())
}

fn nearest(texture: &Texture, u: f64, v: f64) -> Rgb {
    let (tx, ty, _, _) = locate(texture, u, v);
    texture.pixel_color(tx, ty)
}

fn bilinear(texture: &Texture, u: f64, v: f64) -> [f64; 3] {
    let (tx, ty, fx, fy) = locate(texture, u, v);
    let channels = |c: Rgb| [c.red as f64, c.green as f64, c.blue as f64];
    texture.texel_color(
        tx,
        ty,
        |left: Rgb, right: Rgb| {
            let (l, r) = (channels(left), channels(right));
            [0, 1, 2].map(|c| r[c] * fx + l[c] * (1.0 - fx))
        },
        |top: [f64; 3], bottom: [f64; 3]| [0, 1, 2].map(|c| bottom[c] * fy + top[c] * (1.0 - fy)),
    )
}

#[test]
fn texture_from_rgb_checks_the_number_of_bytes() {
    assert!(Texture::from_rgb(2, 2, vec![0; 12]).is_some());
    assert!(Texture::from_rgb(2, 2, vec![0; 11]).is_none());
    assert!(Texture::from_rgb(2, 2, vec![0; 13]).is_none());
    assert!(Texture::from_rgb(0, 5, vec![]).is_some());
    assert!(Texture::from_rgb(0, 5, vec![0]).is_none());
    assert!(Texture::from_rgb(u32::MAX, u32::MAX, vec![0; 3]).is_none());
    let texture = Texture::from_rgb(3, 2, vec![0; 18]).unwrap();
    assert_eq!(texture.width(), 3);
    assert_eq!(texture.height(), 2);
}

#[test]
fn pixel_color_reads_rows_from_the_top_left() {
    let data: Vec<u8> = (0..18).collect();
    let texture = Texture::from_rgb(3, 2, data).unwrap();
    assert_eq!(texture.pixel_color(0, 0), rgb(0, 1, 2));
    assert_eq!(texture.pixel_color(2, 0), rgb(6, 7, 8));
    assert_eq!(texture.pixel_color(0, 1), rgb(9, 10, 11));
    assert_eq!(texture.pixel_color(2, 1), rgb(15, 16, 17));
}

#[test]
fn nearest_sampling_at_the_corners_returns_each_colour() {
    let texture = two_by_two();
    assert_eq!(nearest(&texture, 0.0, 0.0), rgb(255, 0, 0));
    assert_eq!(nearest(&texture, 1.0, 0.0), rgb(0, 255, 0));
    assert_eq!(nearest(&texture, 0.0, 1.0), rgb(0, 0, 255));
    assert_eq!(nearest(&texture, 1.0, 1.0), rgb(100, 110, 120));
}

#[test]
fn bilinear_sampling_at_the_corners_returns_each_colour() {
    let texture = two_by_two();
    assert_eq!(bilinear(&texture, 0.0, 0.0), [255.0, 0.0, 0.0]);
    assert_eq!(bilinear(&texture, 1.0, 0.0), [0.0, 255.0, 0.0]);
    assert_eq!(bilinear(&texture, 0.0, 1.0), [0.0, 0.0, 255.0]);
    assert_eq!(bilinear(&texture, 1.0, 1.0), [100.0, 110.0, 120.0]);
}

#[test]
fn bilinear_sampling_in_the_middle_is_the_average() {
    let texture = two_by_two();
    let sample = bilinear(&texture, 0.5, 0.5);
    let expected = [(255.0 + 100.0) / 4.0, (255.0 + 110.0) / 4.0, (255.0 + 120.0) / 4.0];
    for c in 0..3 {
        assert!((sample[c] - expected[c]).abs() <= 1.0);
    }
}

#[test]
fn texel_corners_are_the_four_neighbours() {
    let data: Vec<u8> = (0..27).collect();
    let texture = Texture::from_rgb(3, 3, data).unwrap();
    assert_eq!(
        texture.texel_corners(0, 1),
        [rgb(9, 10, 11), rgb(12, 13, 14), rgb(18, 19, 20), rgb(21, 22, 23)]
    );
}

#[test]
fn texel_corners_repeat_the_edge() {
    let texture = two_by_two();
    let (red, green, blue, grey) =
        (rgb(255, 0, 0), rgb(0, 255, 0), rgb(0, 0, 255), rgb(100, 110, 120));
    assert_eq!(texture.texel_corners(0, 0), [red, green, blue, grey]);
    assert_eq!(texture.texel_corners(1, 0), [green, green, grey, grey]);
    assert_eq!(texture.texel_corners(0, 1), [blue, grey, blue, grey]);
    assert_eq!(texture.texel_corners(1, 1), [grey, grey, grey, grey]);
    let single = Texture::from_rgb(1, 1, vec![1, 2, 3]).unwrap();
    assert_eq!(single.texel_corners(0, 0), [rgb(1, 2, 3); 4]);
}

#[test]
fn texture_from_bytes_refuses_what_is_no_jpeg() {
    assert_eq!(Texture::from_bytes(&[]), Err(TextureError::Decode));
    assert_eq!(Texture::from_bytes(b"not an image"), Err(TextureError::Decode));
    assert_eq!(Texture::from_bytes(&[0xff, 0xd8, 0xff]), Err(TextureError::Decode));
}

#[test]
fn texture_from_bytes_decodes_a_jpeg() {
    let (width, height) = (16u32, 8u32);
    let mut data = Vec::new();
    for _ in 0..width * height {
        data.extend_from_slice(&[200, 100, 50]);
    }
    let mut file = Vec::new();
    JpegEncoder::new_with_quality(&mut file, 100)
        .encode(&data, width, height, ColorType::Rgb8)
        .unwrap();
    assert_ne!(file, data);
    let texture = Texture::from_bytes(&file).unwrap();
    assert_eq!(texture.width(), 16);
    assert_eq!(texture.height(), 8);
    for &(x, y) in &[(0, 0), (15, 0), (0, 7), (15, 7), (8, 4)] {
        let color = texture.pixel_color(x, y);
        assert!((color.red - 200).abs() <= 3, "{color:?}");
        assert!((color.green - 100).abs() <= 3, "{color:?}");
        assert!((color.blue - 50).abs() <= 3, "{color:?}");
    }
}

#[test]
fn texture_from_bytes_refuses_a_truncated_jpeg() {
    let data = vec![128u8; 8 * 8 * 3];
    let mut file = Vec::new();
    JpegEncoder::new_with_quality(&mut file, 90).encode(&data, 8, 8, ColorType::Rgb8).unwrap();
    file.truncate(20);
    assert_eq!(Texture::from_bytes(&file), Err(TextureError::Decode));
}

#[test]
fn texture_clone_holds_the_same_texels() {
    let texture = two_by_two();
    let copy = texture.clone();
    assert_eq!(copy, texture);
    assert_eq!(copy.width(), 2);
    assert_eq!(copy.height(), 2);
    assert_eq!(copy.pixel_color(1, 1), rgb(100, 110, 120));
}

#[test]
fn texel_color_mixes_across_and_then_down() {
    let data: Vec<u8> = (0..27).collect();
    let texture = Texture::from_rgb(3, 3, data).unwrap();
    // the red channels of the four texels at (1, 1): 12, 15, 21, 24
    let path = texture.texel_color(
        1,
        1,
        |left: Rgb, right: Rgb| vec![left.red, right.red],
        |top: Vec<i64>, bottom: Vec<i64>| [top, bottom].concat(),
    );
    assert_eq!(path, vec![12, 15, 21, 24]);
    // at the right and lower edge the texel of the edge is its own neighbour
    let edge = texture.texel_color(
        2,
        2,
        |left: Rgb, right: Rgb| vec![left.red, right.red],
        |top: Vec<i64>, bottom: Vec<i64>| [top, bottom].concat(),
    );
    assert_eq!(edge, vec![24, 24, 24, 24]);
}

#[test]
fn bilinear_sampling_stays_between_the_four_texels() {
    let texture = two_by_two();
    for &(u, v) in &[(0.25, 0.75), (0.5, 0.0), (0.9, 0.1), (0.0, 0.3)] {
        let sample = bilinear(&texture, u, v);
        // red: 255, 0, 0, 100; green: 0, 255, 0, 110; blue: 0, 0, 255, 120
        for c in 0..3 {
            assert!((0.0..=255.0).contains(&sample[c]));
        }
    }
    assert_eq!(bilinear(&texture, 0.5, 0.0), [127.5, 127.5, 0.0]);
    assert_eq!(bilinear(&texture, 0.0, 0.5), [127.5, 0.0, 127.5]);
}
