//! Kinds of files, and their contents as text.
use base64::Engine;
use vision_core::media::{
    file_kind, image_to_base64, is_jpeg, media_type, media_type_of, saves_as_jpeg,
};

fn encoded(bytes: &[u8]) -> String {
    image_to_base64(Ok(bytes.to_vec())).unwrap()
}

#[test]
fn known_bytes_in_base_64() {
    assert_eq!(encoded(b""), "");
    assert_eq!(encoded(b"f"), "Zg==");
    assert_eq!(encoded(b"fo"), "Zm8=");
    assert_eq!(encoded(b"foo"), "Zm9v");
    assert_eq!(encoded(b"foobar"), "Zm9vYmFy");
    assert_eq!(encoded(&[0xff, 0xfb, 0xbf]), "//u/");
    assert_eq!(encoded(&[0xfb, 0xef, 0xbe]), "++++");
}

#[test]
fn base_64_gives_back_the_bytes() {
    for n in 0..200usize {
        let bytes: Vec<u8> = (0..n).map(|i| (i * 37 + n) as u8).collect();
        let s = encoded(&bytes);
        assert_eq!(s.len(), (n + 2) / 3 * 4);
        let back = base64::engine::general_purpose::STANDARD.decode(&s).unwrap();
        assert_eq!(back, bytes);
    }
}

#[test]
fn a_file_that_cannot_be_read_says_why() {
    assert_eq!(
        image_to_base64(Err("gone".to_string())),
        Err("Failed to read image: gone".to_string())
    );
}

#[test]
fn media_types_follow_the_extension() {
    assert_eq!(media_type("a.jpg"), "image/jpeg");
    assert_eq!(media_type("a.jpeg"), "image/jpeg");
    assert_eq!(media_type("a.JPG"), "image/jpeg");
    assert_eq!(media_type("some/where/a.png"), "image/png");
    assert_eq!(media_type("/tmp/x.y/a.GIF"), "image/gif");
    assert_eq!(media_type("a.b.webp"), "image/webp");
    assert_eq!(media_type("a.bmp"), "image/png");
    assert_eq!(media_type("a"), "image/png");
    assert_eq!(media_type(".gif"), "image/png");
    assert_eq!(media_type(".."), "image/png");
    assert_eq!(media_type("a."), "image/png");
    assert_eq!(media_type("dir.gif/a"), "image/png");
    assert_eq!(media_type("...gif"), "image/gif");
}

#[test]
fn media_types_of_paths_with_drives_and_servers() {
    assert_eq!(media_type("C:\\Users\\me\\b.GIF"), "image/gif");
    assert_eq!(media_type("C:\\x.gif\\a.jpg"), "image/jpeg");
    assert_eq!(media_type("C:a.webp"), "image/webp");
    assert_eq!(media_type("\\\\server\\share\\a.jpeg"), "image/jpeg");
    assert_eq!(media_type("//server/share/a.gif"), "image/gif");
    assert_eq!(media_type("mixed\\some/a.webp"), "image/webp");
    assert!(saves_as_jpeg("C:\\shots\\now.JPG"));
    assert!(!saves_as_jpeg("C:\\shots.jpg\\now.png"));
}

#[test]
fn separators_and_dots_at_the_end_do_not_count() {
    assert_eq!(media_type("dir/a.gif/"), "image/gif");
    assert_eq!(media_type("dir/a.gif/."), "image/gif");
    assert_eq!(media_type("a.gif//.//"), "image/gif");
    assert_eq!(media_type("a.gif/.."), "image/png");
    assert_eq!(media_type("."), "image/png");
    assert_eq!(media_type("/"), "image/png");
    assert_eq!(media_type(""), "image/png");
}

#[test]
fn media_types_of_kinds() {
    assert_eq!(media_type_of("jpg"), "image/jpeg");
    assert_eq!(media_type_of("jpeg"), "image/jpeg");
    assert_eq!(media_type_of("png"), "image/png");
    assert_eq!(media_type_of("gif"), "image/gif");
    assert_eq!(media_type_of("webp"), "image/webp");
    assert_eq!(media_type_of("JPG"), "image/png");
}

#[test]
fn kinds_are_in_lower_case() {
    assert_eq!(file_kind(None), "png");
    assert_eq!(file_kind(Some("PnG1".to_string())), "png1");
    assert_eq!(file_kind(Some("ÄÖ".to_string())), "äö");
}

#[test]
fn jpeg_is_written_by_name() {
    assert!(saves_as_jpeg("shot.jpg"));
    assert!(saves_as_jpeg("shot.JPEG"));
    assert!(!saves_as_jpeg("shot.png"));
    assert!(!saves_as_jpeg("jpg"));
    assert!(is_jpeg("jpg"));
    assert!(is_jpeg("jpeg"));
    assert!(!is_jpeg("JPG"));
}
