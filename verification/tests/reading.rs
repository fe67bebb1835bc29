//! From boxes and what was read in them to a page.
use vision_core::boxes::DetBox;
use vision_core::pipeline::{ocr_image, ocr_image_with_positions, opened_image, strip, TextRegion};
use vision_core::raster::RgbImage;

fn region(text: &str, x: u32, y: u32) -> TextRegion {
    TextRegion { text: text.to_string(), x, y, w: 10, h: 5 }
}

fn picture() -> RgbImage {
    RgbImage { width: 8, height: 6, data: (0..8 * 6 * 3).map(|i| i as u8).collect() }
}

#[test]
fn a_page_is_read_from_top_to_bottom() {
    let found = vec![region("third", 0, 30), region("first", 50, 0), region("second", 20, 10)];
    assert_eq!(ocr_image(&found), "first\nsecond\nthird");
}

#[test]
fn pieces_of_one_height_keep_their_order() {
    let found = vec![
        region("c", 90, 7),
        region("a", 50, 3),
        region("d", 10, 7),
        region("b", 20, 3),
        region("e", 50, 7),
    ];
    assert_eq!(ocr_image(&found), "a\nb\nc\nd\ne");
}

#[test]
fn an_empty_page_is_empty() {
    assert_eq!(ocr_image(&Vec::new()), "");
    assert_eq!(ocr_image(&vec![region("only", 1, 2)]), "only");
}

#[test]
fn boxes_without_text_are_left_out() {
    let boxes = vec![
        DetBox { x: 1, y: 2, w: 3, h: 4 },
        DetBox { x: 0, y: 0, w: 2, h: 2 },
        DetBox { x: 5, y: 1, w: 9, h: 9 },
    ];
    let read = vec![" hello ".to_string(), " \t\u{3000}\n".to_string(), "you".to_string()];
    let found = ocr_image_with_positions(&boxes, &read, 8, 6);
    assert_eq!(
        found,
        vec![
            TextRegion { text: " hello ".to_string(), x: 1, y: 2, w: 3, h: 4 },
            TextRegion { text: "you".to_string(), x: 5, y: 1, w: 3, h: 5 },
        ]
    );
}

#[test]
fn boxes_are_brought_into_the_image() {
    let boxes = vec![DetBox { x: 100, y: 100, w: 0, h: 7 }];
    let read = vec!["x".to_string()];
    let found = ocr_image_with_positions(&boxes, &read, 8, 6);
    assert_eq!(found, vec![TextRegion { text: "x".to_string(), x: 7, y: 5, w: 1, h: 1 }]);
}

#[test]
fn a_strip_is_cut_out_of_the_image() {
    let img = picture();
    let part = strip(&img, &DetBox { x: 2, y: 1, w: 3, h: 2 });
    assert_eq!((part.width, part.height), (3, 2));
    for y in 0..2usize {
        for x in 0..3usize {
            for c in 0..3usize {
                let from = ((y + 1) * 8 + x + 2) * 3 + c;
                assert_eq!(part.data[(y * 3 + x) * 3 + c], img.data[from]);
            }
        }
    }
    let corner = strip(&img, &DetBox { x: 7, y: 5, w: 50, h: 50 });
    assert_eq!((corner.width, corner.height), (1, 1));
    assert_eq!(corner.data, img.data[141..144].to_vec());
    let beyond = strip(&img, &DetBox { x: 70, y: 50, w: 0, h: 0 });
    assert_eq!(beyond, corner);
}

#[test]
fn an_image_must_open_and_have_pixels() {
    assert_eq!(opened_image("p.png", Ok(picture())), Ok(picture()));
    assert_eq!(
        opened_image("p.png", Err("no such format".to_string())),
        Err("Failed to open image 'p.png': no such format".to_string())
    );
    let empty = RgbImage { width: 0, height: 3, data: vec![] };
    assert_eq!(opened_image("p.png", Ok(empty)), Err("Image has zero dimension".to_string()));
    let flat = RgbImage { width: 3, height: 0, data: vec![] };
    assert_eq!(opened_image("p.png", Ok(flat)), Err("Image has zero dimension".to_string()));
}
