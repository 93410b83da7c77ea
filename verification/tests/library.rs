use imageviewer::library::{has_images, list_images, next_folder_with_images, sibling_folders, Step};

fn with_images<'a>(folders: &'a [&'a str]) -> impl Fn(&&str) -> bool + 'a {
    move |folder: &&str| folders.contains(folder)
}

#[test]
fn folders_without_images_are_skipped() {
    let siblings = ["a", "b", "c"];
    let next = next_folder_with_images(&siblings, Some(0), Step::Forward, with_images(&["a", "c"]))
        .expect("a folder after a");
    assert_eq!(siblings[next], "c");
}

#[test]
fn there_is_nothing_before_the_first_folder() {
    let siblings = ["a"];
    assert_eq!(next_folder_with_images(&siblings, Some(0), Step::Backward, with_images(&["a"])), None);
}

#[test]
fn backward_finds_the_nearest_preceding_folder_with_images() {
    let siblings = ["a", "b", "c"];
    let prev = next_folder_with_images(&siblings, Some(2), Step::Backward, with_images(&["a", "c"]))
        .expect("a folder before c");
    assert_eq!(siblings[prev], "a");
}

#[test]
fn an_unknown_position_goes_nowhere() {
    let siblings = ["a", "b"];
    assert_eq!(next_folder_with_images(&siblings, None, Step::Forward, with_images(&["a", "b"])), None);
}

#[test]
fn the_nearest_folder_with_images_wins() {
    let siblings = ["a", "b", "c", "d", "e"];
    let all = with_images(&["a", "b", "c", "d", "e"]);
    assert_eq!(next_folder_with_images(&siblings, Some(2), Step::Forward, &all), Some(3));
    assert_eq!(next_folder_with_images(&siblings, Some(2), Step::Backward, &all), Some(1));
    assert_eq!(next_folder_with_images(&siblings, Some(4), Step::Forward, &all), None);
}

fn listing(names: &[&str]) -> Vec<String> {
    names.iter().map(|name| name.to_string()).collect()
}

fn named(names: &[String], positions: Vec<usize>) -> Vec<String> {
    positions.into_iter().map(|i| names[i].clone()).collect()
}

#[test]
fn images_are_listed_in_natural_order() {
    let names = listing(&["img10.jpg", "notes.txt", "img2.jpg", "img1.png"]);
    let listed = named(&names, list_images(&names, |_| true));
    assert_eq!(listed, vec!["img1.png", "img2.jpg", "img10.jpg"]);
}

#[test]
fn has_images_ignores_unsupported_files() {
    let names = listing(&["a.txt", "b.gif"]);
    assert!(!has_images(&names, |_| true));

    let names = listing(&["a.txt", "b.gif", "c.png"]);
    assert!(has_images(&names, |_| true));
}

#[test]
fn sibling_folders_are_in_natural_order() {
    let names = listing(&["dir1", "dir10", "dir2"]);
    let siblings = named(&names, sibling_folders(&names, |_| true));
    assert_eq!(siblings, vec!["dir1", "dir2", "dir10"]);
}

#[test]
fn entries_that_are_not_files_are_not_images() {
    let names = listing(&["b.png", "folder.png", "a.jpg"]);
    let is_file = |i: usize| names[i] != "folder.png";
    assert_eq!(named(&names, list_images(&names, is_file)), vec!["a.jpg", "b.png"]);
    assert!(!has_images(&listing(&["only.png"]), |_| false));
}

#[test]
fn only_entries_with_a_supported_extension_are_asked_about() {
    let names = listing(&["a.txt", "b.PNG", "c", "d.jpeg"]);
    let asked = std::cell::RefCell::new(Vec::new());
    let listed = list_images(&names, |i: usize| {
        asked.borrow_mut().push(i);
        true
    });
    assert_eq!(named(&names, listed), vec!["b.PNG", "d.jpeg"]);
    assert_eq!(*asked.borrow(), vec![1, 3]);
}

#[test]
fn files_are_not_sibling_folders() {
    let names = listing(&["x10", "notes.txt", "x9", "X9"]);
    let is_dir = |i: usize| names[i] != "notes.txt";
    assert_eq!(named(&names, sibling_folders(&names, is_dir)), vec!["X9", "x9", "x10"]);
}

#[test]
fn a_long_listing_comes_out_in_order() {
    let mut raw: Vec<String> = (0..200).rev().map(|n| format!("p{n}.png")).collect();
    raw.push("p007.png".to_string());
    let listed = named(&raw, list_images(&raw, |_| true));
    assert_eq!(listed.len(), 201);
    assert_eq!(listed[0], "p0.png");
    assert_eq!(listed[7], "p7.png");
    assert_eq!(listed[8], "p007.png");
    assert_eq!(listed[200], "p199.png");
}

#[test]
fn a_colon_inside_a_name_does_not_hide_an_image() {
    let names = listing(&["12:30 lunch.jpg", "notes:draft.txt"]);
    assert_eq!(named(&names, list_images(&names, |_| true)), vec!["12:30 lunch.jpg"]);
}

#[test]
fn a_backslash_inside_a_name_does_not_hide_an_image() {
    let names = listing(&["raw\\shot.png", "memo\\x.txt"]);
    assert_eq!(named(&names, list_images(&names, |_| true)), vec!["raw\\shot.png"]);
}
