use imageviewer::logging::{enabled, init, log_line, Level, LevelFilter};
use imageviewer::pointer::ClickArea;
use imageviewer::report::{error, panic_text, set_log_unavailable};

#[test]
fn problems_are_always_logged_and_detail_only_when_verbose() {
    assert!(enabled(Level::Error, "gpui", false));
    assert!(enabled(Level::Warn, "", false));
    assert!(!enabled(Level::Debug, "imageviewer::viewer", false));
    assert!(enabled(Level::Debug, "imageviewer::viewer", true));
    assert!(!enabled(Level::Debug, "gpui::window", true));
    assert!(!enabled(Level::Info, "image", true));
}

#[test]
fn the_level_follows_the_settings() {
    assert_eq!(init(false, true).max_level, LevelFilter::Off);
    assert!(!init(false, true).open_file);
    assert_eq!(init(true, true).max_level, LevelFilter::Debug);
    assert_eq!(init(true, false).max_level, LevelFilter::Warn);
}

#[test]
fn a_log_line_has_time_level_origin_and_message() {
    assert_eq!(
        log_line("2024-01-02T03:04:05.678", Level::Warn, "imageviewer::ipc", None, Some(42), "hi"),
        "2024-01-02T03:04:05.678 [WARN ] imageviewer::ipc:42 - hi\n"
    );
    assert_eq!(
        log_line("t", Level::Error, "", Some("src/x.rs"), None, "m"),
        "t [ERROR] src/x.rs - m\n"
    );
    assert_eq!(log_line("t", Level::Debug, "", None, None, "m"), "t [DEBUG] unknown - m\n");
}

#[test]
fn a_dialog_mentions_why_the_log_is_missing() {
    assert_eq!(error("broken", None), "broken");
    assert_eq!(
        error("broken", Some("denied")),
        "broken\n\n（viewer.log に記録できません: denied）"
    );
}

#[test]
fn only_the_first_log_failure_is_kept() {
    let mut slot = None;
    set_log_unavailable(&mut slot, "first".to_string());
    set_log_unavailable(&mut slot, "second".to_string());
    assert_eq!(slot.as_deref(), Some("first"));
}

#[test]
fn a_panic_report_names_the_place() {
    assert_eq!(
        panic_text(Some("boom"), Some(("src/main.rs", 12))),
        "imageviewer が予期しないエラーで停止しました。\n\nboom\n\n発生位置: src/main.rs:12"
    );
    assert_eq!(
        panic_text(None, None),
        "imageviewer が予期しないエラーで停止しました。\n\n詳細不明\n\n発生位置: 不明な位置"
    );
}

/// The quarter of an 800 × 600 window holding a click at `(x, y)`.
fn at(x: f32, y: f32) -> ClickArea {
    let (width, height) = (800.0f32, 600.0f32);
    ClickArea::from_sides(x < width / 2., y < height / 2.)
}

#[test]
fn each_quarter_maps_to_its_area() {
    assert_eq!(at(10., 10.), ClickArea::TopLeft);
    assert_eq!(at(10., 590.), ClickArea::BottomLeft);
    assert_eq!(at(790., 590.), ClickArea::BottomRight);
    assert_eq!(at(790., 10.), ClickArea::TopRight);
}

#[test]
fn the_exact_centre_belongs_to_the_bottom_right() {
    assert_eq!(at(400., 300.), ClickArea::BottomRight);
}
