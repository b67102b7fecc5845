use cloud_p2p::image::detect_image_format;

#[test]
fn detects_png() {
    let bytes = [0x89, b'P', b'N', b'G', 0x0D, 0x0A, 0x1A, 0x0A, 0, 0];
    assert_eq!(detect_image_format(&bytes), ("png", "image/png"));
}

#[test]
fn detects_jpeg_even_when_short() {
    assert_eq!(detect_image_format(&[0xFF, 0xD8]), ("jpg", "image/jpeg"));
    assert_eq!(detect_image_format(&[0xFF, 0xD8, 0xFF, 0xE0, 0, 0x10]), ("jpg", "image/jpeg"));
}

#[test]
fn detects_bmp() {
    assert_eq!(detect_image_format(b"BM"), ("bmp", "image/bmp"));
    assert_eq!(detect_image_format(b"BM\x00\x00\x00\x00"), ("bmp", "image/bmp"));
}

#[test]
fn detects_both_gif_versions() {
    assert_eq!(detect_image_format(b"GIF89a......"), ("gif", "image/gif"));
    assert_eq!(detect_image_format(b"GIF87a"), ("gif", "image/gif"));
}

#[test]
fn unknown_bytes_are_binary() {
    assert_eq!(detect_image_format(b"hello world"), ("bin", "application/octet-stream"));
    assert_eq!(detect_image_format(b"GIF88a"), ("bin", "application/octet-stream"));
    // A truncated PNG signature is not PNG.
    assert_eq!(
        detect_image_format(&[0x89, b'P', b'N', b'G', 0x0D, 0x0A, 0x1A]),
        ("bin", "application/octet-stream")
    );
}

#[test]
fn short_inputs_are_binary() {
    assert_eq!(detect_image_format(&[]), ("bin", "application/octet-stream"));
    assert_eq!(detect_image_format(b"GIF8"), ("bin", "application/octet-stream"));
    assert_eq!(detect_image_format(&[0x89]), ("bin", "application/octet-stream"));
}
