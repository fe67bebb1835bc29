//! Screens, and where captures are kept.
use vision_core::raster::RgbaImage;
use vision_core::screen::{
    fresh_path, get_screen_dimensions, pick_screen, stamped_path, take_screenshot,
    take_screenshot_region, Purpose,
};

fn dot() -> RgbaImage {
    RgbaImage { width: 1, height: 1, data: vec![1, 2, 3, 4] }
}

#[test]
fn a_screen_is_picked() {
    assert_eq!(pick_screen(Ok(2), 0), Ok(0));
    assert_eq!(pick_screen(Ok(2), 1), Ok(1));
    assert_eq!(
        pick_screen(Ok(2), 2),
        Err("Monitor 2 not found. Available: 0-1".to_string())
    );
    assert_eq!(
        pick_screen(Ok(13), 1234),
        Err("Monitor 1234 not found. Available: 0-12".to_string())
    );
    assert_eq!(
        pick_screen(Err("no display".to_string()), 0),
        Err("Failed to get screens: no display".to_string())
    );
}

#[test]
fn a_screen_is_measured() {
    let screens = || Ok(vec![(1920, 1080), (800, 600)]);
    assert_eq!(get_screen_dimensions(screens(), 1), Ok((800, 600)));
    assert_eq!(get_screen_dimensions(screens(), 2), Err("Monitor 2 not found".to_string()));
    assert_eq!(get_screen_dimensions(Ok(vec![]), 0), Err("Monitor 0 not found".to_string()));
    assert_eq!(
        get_screen_dimensions(Err("x".to_string()), 0),
        Err("Failed to get screens: x".to_string())
    );
}

#[test]
fn a_capture_is_kept_where_it_was_asked() {
    let kept = take_screenshot(Ok(dot()), Some("a.png".to_string()), "/tmp/");
    assert_eq!(kept, Ok((dot(), "a.png".to_string())));
    let failed = take_screenshot(Err("dark".to_string()), None, "/tmp/");
    assert_eq!(failed, Err("Screenshot failed: dark".to_string()));
    let failed = take_screenshot_region(Err("dark".to_string()), None, "/tmp/", 0, 0, 1, 1);
    assert_eq!(failed, Err("Screenshot failed: dark".to_string()));
}

#[test]
fn stamped_names() {
    assert_eq!(
        stamped_path("/tmp/", Purpose::Screenshot, "20240131_235959"),
        "/tmp/screenshot_20240131_235959.png"
    );
    assert_eq!(stamped_path("C:\\Temp\\", Purpose::Region, "s"), "C:\\Temp\\region_s.png");
    assert_eq!(stamped_path("", Purpose::Zoom, "s"), "zoom_s.png");
}

#[test]
fn a_fresh_name_holds_folder_and_time() {
    let path = fresh_path("/tmp/", Purpose::Zoom);
    let stamp = path.strip_prefix("/tmp/zoom_").unwrap().strip_suffix(".png").unwrap();
    assert_eq!(stamp.len(), 15);
    let (date, time) = stamp.split_once('_').unwrap();
    assert_eq!((date.len(), time.len()), (8, 6));
    assert!(date.chars().chain(time.chars()).all(|c| c.is_ascii_digit()));
    let (_, path) = take_screenshot(Ok(dot()), None, "D:\\t\\").unwrap();
    assert!(path.starts_with("D:\\t\\screenshot_") && path.ends_with(".png"));
    let (_, path) = take_screenshot_region(Ok(dot()), None, "/x/", 0, 0, 1, 1).unwrap();
    assert!(path.starts_with("/x/region_") && path.ends_with(".png"));
}
