use base64::Engine;
use desktop_portal::icons::{batch, batch_from, icon_data_url, png_data_url, rgba_pixels, ICON_BYTES};

#[test]
fn missing_path_returns_none_without_panicking() {
    let missing = "C:\\__definitely_not_a_real_path_zzz__\\nope.exe";
    let entries = batch(vec![missing.to_string()]);
    assert_eq!(entries.len(), 1, "即使取不到图标也要为每个路径返回一项");
    assert!(entries[0].data.is_none());
}

#[test]
fn batch_preserves_order_and_count() {
    let paths: Vec<String> = vec!["C:\\Windows".into(), "C:\\nope__zzz".into()];
    let entries = batch(paths.clone());
    assert_eq!(entries.len(), 2);
    assert_eq!(entries[0].path, paths[0]);
    assert_eq!(entries[1].path, paths[1]);
}

// ---------------------------------------------------------------------------

#[test]
fn pixels_are_swapped_to_rgba() {
    assert_eq!(rgba_pixels(vec![1, 2, 3, 4, 5, 6, 7, 8, 9]), vec![3, 2, 1, 4, 7, 6, 5, 8, 9]);
    assert_eq!(rgba_pixels(vec![]), Vec::<u8>::new());
}

#[test]
fn an_icon_without_alpha_becomes_opaque() {
    assert_eq!(rgba_pixels(vec![1, 2, 3, 0, 4, 5, 6, 0]), vec![3, 2, 1, 255, 6, 5, 4, 255]);
    // one visible pixel: the alpha channel is real and kept
    assert_eq!(rgba_pixels(vec![1, 2, 3, 0, 4, 5, 6, 9]), vec![3, 2, 1, 0, 6, 5, 4, 9]);
}

#[test]
fn data_url_prefix() {
    assert_eq!(png_data_url("QUJD"), "data:image/png;base64,QUJD");
    assert_eq!(png_data_url(""), "data:image/png;base64,");
}

fn decode(url: &str) -> (Vec<u8>, Vec<u8>) {
    let b64 = url.strip_prefix("data:image/png;base64,").expect("a PNG data URL");
    let bytes = base64::engine::general_purpose::STANDARD.decode(b64).expect("valid base64");
    let decoder = png::Decoder::new(std::io::Cursor::new(bytes.clone()));
    let mut reader = decoder.read_info().expect("a PNG header");
    let mut buf = vec![0; reader.output_buffer_size()];
    let info = reader.next_frame(&mut buf).expect("a PNG frame");
    assert_eq!((info.width, info.height), (32, 32));
    buf.truncate(info.buffer_size());
    (bytes, buf)
}

#[test]
fn icon_becomes_a_png_data_url() {
    let mut bgra = vec![0u8; ICON_BYTES];
    // first pixel: blue 10, green 20, red 30, alpha 200
    bgra[0] = 10;
    bgra[1] = 20;
    bgra[2] = 30;
    bgra[3] = 200;
    let url = icon_data_url(Some(bgra)).expect("a 32×32 bitmap encodes");
    let (bytes, pixels) = decode(&url);
    assert_eq!(&bytes[..8], b"\x89PNG\r\n\x1a\n");
    assert_eq!(&pixels[..4], &[30, 20, 10, 200]);
    assert_eq!(&pixels[4..8], &[0, 0, 0, 0]);
}

#[test]
fn icon_without_alpha_is_drawn_opaque() {
    let url = icon_data_url(Some(vec![7u8; ICON_BYTES].iter().enumerate().map(|(i, b)| if i % 4 == 3 { 0 } else { *b }).collect()))
        .unwrap();
    let (_, pixels) = decode(&url);
    assert!(pixels.chunks(4).all(|p| p == [7, 7, 7, 255]));
}

#[test]
fn no_bitmap_or_wrong_size_gives_no_icon() {
    assert_eq!(icon_data_url(None), None);
    assert_eq!(icon_data_url(Some(vec![0u8; 16])), None);
    assert_eq!(icon_data_url(Some(vec![0u8; ICON_BYTES + 4])), None);
}

#[test]
fn batch_from_keeps_order_and_pairs_pixels() {
    let paths = vec!["a".to_string(), "b".to_string(), "c".to_string()];
    let entries = batch_from(paths, vec![None, Some(vec![0u8; ICON_BYTES]), Some(vec![1, 2])]);
    assert_eq!(entries.len(), 3);
    assert_eq!(entries[0].path, "a");
    assert!(entries[0].data.is_none());
    assert_eq!(entries[1].path, "b");
    assert!(entries[1].data.as_deref().unwrap().starts_with("data:image/png;base64,"));
    assert_eq!(entries[2].path, "c");
    assert!(entries[2].data.is_none());
}
