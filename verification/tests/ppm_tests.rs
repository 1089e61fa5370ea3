use raytracer::frame::{flip_image_vertically, render_image, Rgb};
use raytracer::ppm::{encode_header, encode_ppm, parse_header, push_pixel_line, Header};

fn header(width: usize, height: usize, max_value: usize) -> Option<Header> {
    Some(Header { width, height, max_value })
}

#[test]
fn encode_header_of_four_by_three() {
    assert_eq!(encode_header(4, 3), b"P3\n4 3\n255\n".to_vec());
}

#[test]
fn encode_header_of_the_default_image() {
    assert_eq!(encode_header(512, 288), b"P3\n512 288\n255\n".to_vec());
}

#[test]
fn encode_header_of_an_empty_image() {
    assert_eq!(encode_header(0, 0), b"P3\n0 0\n255\n".to_vec());
    assert_eq!(encode_header(10, 0), b"P3\n10 0\n255\n".to_vec());
}

#[test]
fn encode_header_agrees_with_the_standard_formatting() {
    for (width, height) in [(1, 1), (2, 1000), (99, 100), (65536, 7), (usize::MAX, usize::MAX)] {
        let expected = format!("P3\n{} {}\n{}\n", width, height, 255).into_bytes();
        assert_eq!(encode_header(width, height), expected);
    }
}

#[test]
fn push_pixel_line_separates_by_one_space_and_ends_the_line() {
    let mut out = Vec::new();
    push_pixel_line(&mut out, Rgb { r: 255, g: 0, b: 7 });
    assert_eq!(out, b"255 0 7\n".to_vec());
    push_pixel_line(&mut out, Rgb { r: 1, g: 20, b: 128 });
    assert_eq!(out, b"255 0 7\n1 20 128\n".to_vec());
}

#[test]
fn push_pixel_line_agrees_with_the_standard_formatting() {
    for r in [0u8, 1, 9, 10, 99, 100, 127, 178, 254, 255] {
        for b in [0u8, 5, 50, 255] {
            let mut out = Vec::new();
            push_pixel_line(&mut out, Rgb { r, g: 255 - r, b });
            assert_eq!(out, format!("{} {} {}\n", r, 255 - r, b).into_bytes());
        }
    }
}

#[test]
fn encode_ppm_writes_the_header_and_one_line_for_each_pixel() {
    let image: Vec<u8> = vec![255, 0, 0, 0, 255, 0, 0, 0, 255, 127, 178, 255];
    let text = encode_ppm(&image, 2, 2);
    assert_eq!(text, b"P3\n2 2\n255\n255 0 0\n0 255 0\n0 0 255\n127 178 255\n".to_vec());
}

#[test]
fn encode_ppm_goes_through_the_buffer_row_by_row() {
    let image: Vec<u8> = (0..18).collect();
    let text = encode_ppm(&image, 3, 2);
    assert_eq!(
        text,
        b"P3\n3 2\n255\n0 1 2\n3 4 5\n6 7 8\n9 10 11\n12 13 14\n15 16 17\n".to_vec()
    );
    let text = encode_ppm(&image, 2, 3);
    assert_eq!(
        text,
        b"P3\n2 3\n255\n0 1 2\n3 4 5\n6 7 8\n9 10 11\n12 13 14\n15 16 17\n".to_vec()
    );
}

#[test]
fn encode_ppm_of_an_empty_image_is_the_header() {
    assert_eq!(encode_ppm(&[], 0, 0), b"P3\n0 0\n255\n".to_vec());
    assert_eq!(encode_ppm(&[], 0, 9), b"P3\n0 9\n255\n".to_vec());
    assert_eq!(encode_ppm(&[1, 2, 3], 4, 0), b"P3\n4 0\n255\n".to_vec());
}

#[test]
fn encode_ppm_leaves_out_bytes_behind_the_last_pixel() {
    let image: Vec<u8> = vec![1, 2, 3, 4, 5, 6, 7, 8];
    assert_eq!(encode_ppm(&image, 1, 2), b"P3\n1 2\n255\n1 2 3\n4 5 6\n".to_vec());
    assert_eq!(encode_ppm(&image, 1, 1), b"P3\n1 1\n255\n1 2 3\n".to_vec());
}

#[test]
fn encode_ppm_after_a_flip_writes_the_last_rendered_row_first() {
    let mut image = render_image(2, 2, |x, y| Rgb { r: x as u8, g: y as u8, b: 9 });
    flip_image_vertically(&mut image, 2, 2);
    let text = encode_ppm(&image, 2, 2);
    assert_eq!(text, b"P3\n2 2\n255\n0 1 9\n1 1 9\n0 0 9\n1 0 9\n".to_vec());
}

#[test]
fn parse_header_recovers_what_encode_header_wrote() {
    for width in [0, 1, 2, 4, 9, 10, 512, 99999, usize::MAX] {
        for height in [0, 1, 3, 288, 1000, usize::MAX - 1] {
            let text = encode_header(width, height);
            assert_eq!(parse_header(&text), header(width, height, 255));
        }
    }
}

#[test]
fn parse_header_recovers_the_header_of_an_encoded_image() {
    let image: Vec<u8> = (0..36).collect();
    let text = encode_ppm(&image, 4, 3);
    assert_eq!(parse_header(&text), header(4, 3, 255));
    let text = encode_ppm(&image, 3, 4);
    assert_eq!(parse_header(&text), header(3, 4, 255));
    let text = encode_ppm(&image, 12, 1);
    assert_eq!(parse_header(&text), header(12, 1, 255));
}

#[test]
fn parse_header_reads_any_largest_value() {
    assert_eq!(parse_header(b"P3\n4 3\n65535\n"), header(4, 3, 65535));
    assert_eq!(parse_header(b"P3\n4 3\n0\n1 2 3\n"), header(4, 3, 0));
    assert_eq!(parse_header(b"P3\n640 480\n15\n"), header(640, 480, 15));
}

#[test]
fn parse_header_refuses_another_magic_line() {
    assert_eq!(parse_header(b"P6\n4 3\n255\n"), None);
    assert_eq!(parse_header(b"p3\n4 3\n255\n"), None);
    assert_eq!(parse_header(b"P3 4 3\n255\n"), None);
    assert_eq!(parse_header(b"P3\r\n4 3\n255\n"), None);
    assert_eq!(parse_header(b" P3\n4 3\n255\n"), None);
}

#[test]
fn parse_header_refuses_what_is_cut_short() {
    assert_eq!(parse_header(b""), None);
    assert_eq!(parse_header(b"P"), None);
    assert_eq!(parse_header(b"P3"), None);
    assert_eq!(parse_header(b"P3\n"), None);
    assert_eq!(parse_header(b"P3\n4"), None);
    assert_eq!(parse_header(b"P3\n4 "), None);
    assert_eq!(parse_header(b"P3\n4 3"), None);
    assert_eq!(parse_header(b"P3\n4 3\n"), None);
    assert_eq!(parse_header(b"P3\n4 3\n255"), None);
}

#[test]
fn parse_header_refuses_other_separators() {
    assert_eq!(parse_header(b"P3\n4  3\n255\n"), None);
    assert_eq!(parse_header(b"P3\n4\n3\n255\n"), None);
    assert_eq!(parse_header(b"P3\n4 3 255\n"), None);
    assert_eq!(parse_header(b"P3\n4 3\n255 "), None);
    assert_eq!(parse_header(b"P3\n4,3\n255\n"), None);
    assert_eq!(parse_header(b"P3\n\n4 3\n255\n"), None);
}

#[test]
fn parse_header_refuses_numbers_that_are_not_written_plainly() {
    assert_eq!(parse_header(b"P3\n04 3\n255\n"), None);
    assert_eq!(parse_header(b"P3\n4 03\n255\n"), None);
    assert_eq!(parse_header(b"P3\n4 3\n0255\n"), None);
    assert_eq!(parse_header(b"P3\n-4 3\n255\n"), None);
    assert_eq!(parse_header(b"P3\n4 3\n+255\n"), None);
    assert_eq!(parse_header(b"P3\nfour 3\n255\n"), None);
}

#[test]
fn parse_header_refuses_numbers_beyond_the_largest_word() {
    let too_wide = format!("P3\n{}0 3\n255\n", usize::MAX).into_bytes();
    assert_eq!(parse_header(&too_wide), None);
    let too_high = format!("P3\n4 {}0\n255\n", usize::MAX).into_bytes();
    assert_eq!(parse_header(&too_high), None);
    let too_bright = format!("P3\n4 3\n{}0\n", usize::MAX).into_bytes();
    assert_eq!(parse_header(&too_bright), None);
    let just_fits = format!("P3\n{} {}\n{}\n", usize::MAX, usize::MAX, usize::MAX).into_bytes();
    assert_eq!(parse_header(&just_fits), header(usize::MAX, usize::MAX, usize::MAX));
}

fn dot(a: [f64; 3], b: [f64; 3]) -> f64 {
    a[0] * b[0] + a[1] * b[1] + a[2] * b[2]
}

fn sky_or_sphere(direction: [f64; 3]) -> [f64; 3] {
    let center = [0.0, 0.0, -1.0];
    let oc = [0.0 - center[0], 0.0 - center[1], 0.0 - center[2]];
    let a = dot(direction, direction);
    let half_b = dot(oc, direction);
    let c = dot(oc, oc) - 0.5 * 0.5;
    let discriminant = half_b * half_b - a * c;
    let hit = if discriminant < 0.0 { -1.0 } else { (-half_b - discriminant.sqrt()) / a };
    if hit > 0.0 {
        let n = [direction[0] * hit - center[0], direction[1] * hit - center[1], direction[2] * hit - center[2]];
        let length = dot(n, n).sqrt();
        return [(n[0] / length + 1.0) * 0.5, (n[1] / length + 1.0) * 0.5, (n[2] / length + 1.0) * 0.5];
    }
    let t = 0.5 * (direction[1] / a.sqrt() + 1.0);
    [1.0 - t + 0.5 * t, 1.0 - t + 0.7 * t, 1.0 - t + t]
}

fn camera_pixel(x: usize, y: usize, width: usize, height: usize) -> Rgb {
    let viewport_width = 16.0 / 9.0 * 2.0;
    let u = x as f64 / (width - 1) as f64;
    let v = y as f64 / (height - 1) as f64;
    let direction = [-viewport_width / 2.0 + viewport_width * u, -1.0 + 2.0 * v, -1.0];
    let color = sky_or_sphere(direction);
    Rgb { r: (color[0] * 255.) as u8, g: (color[1] * 255.) as u8, b: (color[2] * 255.) as u8 }
}

fn assert_header_and_pixel_lines(text: &[u8], width: usize, height: usize) {
    let head = format!("P3\n{} {}\n255\n", width, height).into_bytes();
    assert_eq!(&text[..head.len()], &head[..]);
    assert_eq!(parse_header(text), header(width, height, 255));
    let body = std::str::from_utf8(&text[head.len()..]).unwrap();
    assert!(body.ends_with('\n'));
    let lines: Vec<&str> = body[..body.len() - 1].split('\n').collect();
    assert_eq!(lines.len(), width * height);
    for line in lines {
        let channels: Vec<&str> = line.split(' ').collect();
        assert_eq!(channels.len(), 3);
        for channel in channels {
            let value: u32 = channel.parse().unwrap();
            assert!(value <= 255);
            assert_eq!(format!("{}", value), channel);
        }
    }
}

#[test]
fn a_four_by_three_render_is_a_header_and_twelve_pixel_lines() {
    let (width, height) = (4, 3);
    let mut image = render_image(width, height, |x, y| camera_pixel(x, y, width, height));
    assert_eq!(image.len(), 36);
    flip_image_vertically(&mut image, width, height);
    let text = encode_ppm(&image, width, height);
    assert_eq!(&text[..11], b"P3\n4 3\n255\n");
    assert_header_and_pixel_lines(&text, width, height);
}

#[test]
fn a_render_that_shows_the_sphere_is_a_header_and_its_pixel_lines() {
    let (width, height) = (16, 9);
    let mut image = render_image(width, height, |x, y| camera_pixel(x, y, width, height));
    flip_image_vertically(&mut image, width, height);
    let text = encode_ppm(&image, width, height);
    assert_header_and_pixel_lines(&text, width, height);
}

#[test]
fn every_pixel_of_the_output_comes_from_the_mirrored_row_of_the_render() {
    let (width, height) = (3, 4);
    let rendered = render_image(width, height, |x, y| Rgb {
        r: (x * 50) as u8,
        g: (y * 60) as u8,
        b: (x + y) as u8,
    });
    let mut image = rendered.clone();
    flip_image_vertically(&mut image, width, height);
    let text = encode_ppm(&image, width, height);
    let mut expected = b"P3\n3 4\n255\n".to_vec();
    for row in 0..height {
        let y = height - 1 - row;
        for x in 0..width {
            expected.extend_from_slice(format!("{} {} {}\n", x * 50, y * 60, x + y).as_bytes());
        }
    }
    assert_eq!(text, expected);
}
