use imageviewer::config::{Config, LastOpened, WindowConfig};
use imageviewer::library::Step;
use imageviewer::viewer::{
    decide_startup, load_nearest, load_scanning, message_for_empty_folder, message_for_missing,
    folder_step, opening_position, position_in, position_of, restored_window, state_to_save, step_image, step_within,
    FolderStep, ImageStep, Startup,
    DEFAULT_WINDOW_HEIGHT, DEFAULT_WINDOW_WIDTH,
};

/// A listing whose entries named in `broken` fail to load.
fn loader<'a>(broken: &'a [&'a str]) -> impl Fn(&String) -> Option<String> + 'a {
    move |entry: &String| {
        if broken.contains(&entry.as_str()) {
            None
        } else {
            Some(format!("pixels of {entry}"))
        }
    }
}

/// A folder whose middle image is corrupt, plus its natural-order listing.
fn folder_with_a_broken_middle() -> Vec<String> {
    vec!["pics/1.png".to_string(), "pics/2.png".to_string(), "pics/3.png".to_string()]
}

#[test]
fn scanning_forward_skips_an_undecodable_file() {
    let entries = folder_with_a_broken_middle();
    let (index, _) =
        load_scanning(&entries, 1, Step::Forward, loader(&["pics/2.png"])).expect("an image after 1.png");
    assert_eq!(index, 2, "the corrupt 2.png must be treated as absent");
}

#[test]
fn scanning_backward_skips_an_undecodable_file() {
    let entries = folder_with_a_broken_middle();
    let (index, _) =
        load_scanning(&entries, 1, Step::Backward, loader(&["pics/2.png"])).expect("an image before 3.png");
    assert_eq!(index, 0);
}

#[test]
fn scanning_past_the_end_finds_nothing() {
    let entries = folder_with_a_broken_middle();
    assert!(load_scanning(&entries, 3, Step::Forward, loader(&["pics/2.png"])).is_none());
}

#[test]
fn nearest_prefers_the_lower_index_on_a_tie() {
    let entries = folder_with_a_broken_middle();
    // The saved index points at the corrupt file; 1.png and 3.png are both
    // one step away, so the earlier one wins.
    let (index, image) = load_nearest(&entries, 1, loader(&["pics/2.png"])).expect("a nearby image");
    assert_eq!(index, 0);
    assert_eq!(image, "pixels of pics/1.png");
}

#[test]
fn nearest_returns_the_exact_index_when_it_is_usable() {
    let entries = folder_with_a_broken_middle();
    let (index, _) = load_nearest(&entries, 2, loader(&["pics/2.png"])).expect("the requested image");
    assert_eq!(index, 2);
}

#[test]
fn nearest_clamps_an_index_past_the_end_of_the_folder() {
    let entries = vec!["pics/1.png".to_string(), "pics/2.png".to_string()];
    let (index, _) = load_nearest(&entries, 99, loader(&[])).expect("the last image");
    assert_eq!(index, 1);
}

#[test]
fn an_empty_folder_yields_nothing() {
    let entries: Vec<String> = Vec::new();
    assert!(load_nearest(&entries, 0, loader(&[])).is_none());
    assert!(load_scanning(&entries, 0, Step::Forward, loader(&[])).is_none());
}

#[test]
fn a_folder_of_only_broken_files_yields_nothing() {
    let entries = vec!["pics/1.png".to_string(), "pics/2.jpg".to_string()];
    assert!(load_nearest(&entries, 0, loader(&["pics/1.png", "pics/2.jpg"])).is_none());
}

#[test]
fn position_of_tracks_a_file_that_moved_in_the_listing() {
    let previous = vec!["a.png".to_string(), "b.png".to_string()];
    let entries = vec!["b.png".to_string()];
    assert_eq!(position_of(&entries, &previous, 1), Some(0));
    assert_eq!(position_of(&entries, &previous, 0), None);
    assert_eq!(position_of(&entries, &previous, 2), None);
}

#[test]
fn nearest_looks_outward_one_step_at_a_time() {
    let entries: Vec<String> = (0..7).map(|i| format!("{i}.png")).collect();
    // 3 is broken; 2 and 4 tie and the lower wins.
    let (index, _) = load_nearest(&entries, 3, loader(&["3.png"])).unwrap();
    assert_eq!(index, 2);
    // 3, 2 and 4 broken; 1 and 5 tie.
    let (index, _) = load_nearest(&entries, 3, loader(&["3.png", "2.png", "4.png"])).unwrap();
    assert_eq!(index, 1);
    // Only the far end is usable.
    let (index, _) =
        load_nearest(&entries, 0, loader(&["0.png", "1.png", "2.png", "3.png", "4.png", "5.png"])).unwrap();
    assert_eq!(index, 6);
}

#[test]
fn stepping_moves_one_usable_image() {
    let entries = folder_with_a_broken_middle();
    let (index, _) = step_image(&entries, 0, Step::Forward, loader(&["pics/2.png"])).unwrap();
    assert_eq!(index, 2);
    let (index, _) = step_image(&entries, 2, Step::Backward, loader(&["pics/2.png"])).unwrap();
    assert_eq!(index, 0);
    // Nothing before the first image, nothing after the last.
    assert!(step_image(&entries, 0, Step::Backward, loader(&[])).is_none());
    assert!(step_image(&entries, 2, Step::Forward, loader(&[])).is_none());
}

#[test]
fn a_requested_path_wins_at_startup() {
    let (startup, save) = decide_startup(Some("x.png".to_string()), Config::default(), |_: &str| false);
    assert!(matches!(startup, Startup::Image(ref p) if p == "x.png"));
    assert!(save.is_none());
}

#[test]
fn without_a_record_startup_explains_itself() {
    let (startup, save) = decide_startup(None::<String>, Config::default(), |_: &str| true);
    match startup {
        Startup::Message(text) => assert!(text.starts_with("前回開いたフォルダの記録がありません。")),
        _ => panic!("expected a message"),
    }
    assert!(save.is_none());
}

#[test]
fn a_usable_record_is_restored() {
    let mut config = Config::default();
    config.last_opened = Some(LastOpened { folder: "pics".to_string(), index: 4 });
    let (startup, save) = decide_startup(None::<String>, config, |folder: &str| folder == "pics");
    match startup {
        Startup::Restored { folder, index } => assert_eq!((folder.as_str(), index), ("pics", 4)),
        _ => panic!("expected the recorded folder"),
    }
    assert!(save.is_none());
}

#[test]
fn a_stale_record_is_dropped_and_saved() {
    let mut config = Config::default();
    config.last_opened = Some(LastOpened { folder: "gone".to_string(), index: 4 });
    config.overlay.duration_ms = 9;
    let (startup, save) = decide_startup(None::<String>, config, |_: &str| false);
    match startup {
        Startup::Message(text) => assert_eq!(
            text,
            "前回開いたフォルダを表示できません。\ngone\n\n設定から記録を削除しました。"
        ),
        _ => panic!("expected a message"),
    }
    let saved = save.expect("the configuration to save");
    assert!(saved.last_opened.is_none());
    assert_eq!(saved.overlay.duration_ms, 9);
}

#[test]
fn messages_name_the_path() {
    assert_eq!(message_for_missing("/p/a.png"), "画像を表示できませんでした。\n/p/a.png");
    assert_eq!(message_for_empty_folder("/p"), "表示できる画像がありません。\n/p");
}

#[test]
fn the_requested_file_is_found_in_its_listing() {
    let entries = vec!["a.png".to_string(), "b.png".to_string(), "b.png".to_string()];
    assert_eq!(position_in(&entries, &"b.png".to_string()), Some(1));
    assert_eq!(position_in(&entries, &"c.png".to_string()), None);
}

#[test]
fn a_saved_window_opens_where_it_was_but_never_below_the_minimum() {
    assert!(restored_window(None).is_none());
    let small = restored_window(Some(WindowConfig { x: -5, y: 7, width: 100, height: 1000 })).unwrap();
    assert_eq!((small.x, small.y, small.width, small.height), (-5, 7, 400, 1000));
    let large = restored_window(Some(WindowConfig { x: 0, y: 0, width: 1280, height: 200 })).unwrap();
    assert_eq!((large.width, large.height), (1280, 300));
    assert_eq!((DEFAULT_WINDOW_WIDTH, DEFAULT_WINDOW_HEIGHT), (1024, 768));
}

#[test]
fn the_saved_state_records_the_image_on_screen_and_keeps_the_rest() {
    let mut config = Config::default();
    config.overlay.duration_ms = 0;
    config.last_opened = Some(LastOpened { folder: "old".to_string(), index: 3 });
    let geometry = WindowConfig { x: 10, y: 20, width: 800, height: 600 };

    let kept = state_to_save(config.clone(), geometry, None);
    let window = kept.window.unwrap();
    assert_eq!((window.x, window.y, window.width, window.height), (10, 20, 800, 600));
    let last = kept.last_opened.unwrap();
    assert_eq!((last.folder.as_str(), last.index), ("old", 3));
    assert_eq!(kept.overlay.duration_ms, 0);

    let shown = Some(LastOpened { folder: "new".to_string(), index: 7 });
    let replaced = state_to_save(config, geometry, shown);
    let last = replaced.last_opened.unwrap();
    assert_eq!((last.folder.as_str(), last.index), ("new", 7));
}

fn keys(names: &[&str]) -> Vec<Vec<u8>> {
    names.iter().map(|name| name.as_bytes().to_vec()).collect()
}

#[test]
fn a_moved_file_is_found_again_by_its_path_bytes() {
    let previous = keys(&["a.png", "b.png"]);
    let entries = keys(&["b.png"]);
    assert_eq!(position_of(&entries, &previous, 1), Some(0));
    assert_eq!(position_of(&entries, &previous, 0), None);
}

#[test]
fn stepping_goes_on_from_where_the_shown_file_now_is() {
    let previous = keys(&["1.png", "2.png", "3.png"]);
    let now = ["0.png", "1.png", "2.png", "3.png"];
    let entries: Vec<String> = now.iter().map(|n| n.to_string()).collect();
    let fresh = keys(&now);
    match step_within(&fresh, &previous, 1, &entries, Step::Forward, loader(&["3.png"])) {
        ImageStep::Stay => {}
        _ => panic!("only a broken file lies ahead of 2.png"),
    }
    match step_within(&fresh, &previous, 1, &entries, Step::Backward, loader(&[])) {
        ImageStep::Show(index, image) => {
            assert_eq!(index, 1);
            assert_eq!(image, "pixels of 1.png");
        }
        _ => panic!("1.png lies before 2.png"),
    }
    let gone = keys(&["0.png", "1.png", "3.png"]);
    let entries: Vec<String> = ["0.png", "1.png", "3.png"].iter().map(|n| n.to_string()).collect();
    assert!(matches!(
        step_within(&gone, &previous, 1, &entries, Step::Forward, loader(&[])),
        ImageStep::Vanished
    ));
    assert!(matches!(
        step_within(&gone, &previous, 7, &entries, Step::Forward, loader(&[])),
        ImageStep::Vanished
    ));
}

#[test]
fn stepping_between_folders_passes_over_folders_that_load_nothing() {
    let scan = |folder: &&str| if *folder == "empty" { None } else { Some((0usize, format!("first of {folder}"))) };
    match folder_step(Some("empty"), scan) {
        FolderStep::Continue(folder) => assert_eq!(folder, "empty"),
        _ => panic!("a folder that loads nothing is passed over"),
    }
    match folder_step(Some("pics"), scan) {
        FolderStep::Show(folder, index, image) => {
            assert_eq!((folder, index), ("pics", 0));
            assert_eq!(image, "first of pics");
        }
        _ => panic!("a folder with an image is shown"),
    }
    assert!(matches!(folder_step(None::<&str>, scan), FolderStep::Stop));
}

#[test]
fn a_requested_file_opens_at_its_position_or_at_the_first_image() {
    let entries = vec!["1.png".to_string(), "2.png".to_string()];
    assert_eq!(opening_position(&entries, &"2.png".to_string()), 1);
    assert_eq!(opening_position(&entries, &"9.png".to_string()), 0);
}
