use image::ImageEncoder;
use mohe_ji::svg_data::{image_for_placement, image_from_data_uri_attr, rgba_to_png_data_uri, ImageLoadError};

#[test]
fn data_uri_roundtrip() {
    let pixels: Vec<u8> = (0..2 * 3 * 4).map(|i| (i * 7) as u8).collect();
    let uri = rgba_to_png_data_uri(&pixels, 2, 3).expect("encodes");
    assert!(uri.starts_with("data:image/png;base64,"));
    let line = format!("<image href=\"{}\" />", uri);
    assert_eq!(image_from_data_uri_attr(&line), Some((pixels, 2, 3)));
}

#[test]
fn data_uri_rejects_bad_sizes() {
    assert_eq!(rgba_to_png_data_uri(&[], 0, 1), None);
    assert_eq!(rgba_to_png_data_uri(&[0; 4], 1, 0), None);
    assert_eq!(rgba_to_png_data_uri(&[0; 3], 1, 1), None);
}

#[test]
fn data_uri_reads_xlink_and_any_image_prefix() {
    let uri = rgba_to_png_data_uri(&[1, 2, 3, 4], 1, 1).unwrap();
    let payload = uri.trim_start_matches("data:image/png;base64,");
    let line = format!("<image xlink:href=\"data:image/*;base64,{}\" />", payload);
    assert_eq!(image_from_data_uri_attr(&line), Some((vec![1, 2, 3, 4], 1, 1)));
}

#[test]
fn data_uri_rejects_bad_text() {
    assert_eq!(image_from_data_uri_attr("<image />"), None);
    assert_eq!(image_from_data_uri_attr("<image href=\"http://x\" />"), None);
    assert_eq!(image_from_data_uri_attr("<image href=\"data:image/png;base64,@@@\" />"), None);
    assert_eq!(image_from_data_uri_attr("<image href=\"data:image/png;base64,AAAA\" />"), None);
}

#[test]
fn image_for_placement_decodes_png_bytes() {
    let pixels: Vec<u8> = vec![255, 0, 0, 255, 0, 0, 255, 128];
    let mut png: Vec<u8> = Vec::new();
    image::codecs::png::PngEncoder::new(&mut png)
        .write_image(&pixels, 2, 1, image::ExtendedColorType::Rgba8)
        .expect("encodes");
    assert_eq!(image_for_placement(&png), Ok((pixels, 2, 1)));
}

#[test]
fn image_for_placement_rejects_other_bytes() {
    assert_eq!(image_for_placement(b"not an image"), Err(ImageLoadError::Undecodable));
    assert_eq!(image_for_placement(&[]), Err(ImageLoadError::Undecodable));
}
