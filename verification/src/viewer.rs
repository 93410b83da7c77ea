//! The navigation rules of the viewer window: which image to show when
//! stepping through a folder, which one to fall back to when a file vanished
//! or fails to decode, and what to show at startup.
//!
//! Loading an image is the caller's work (`try_load`); a failure of any kind
//! means "this image is not there" and the search moves on.
use vstd::prelude::*;
use vstd::std_specs::cmp::PartialEqSpec;

use crate::config::{Config, LastOpened, WindowConfig};
use crate::library::Step;

verus! {

// ---------------------------------------------------------------------------
// Finding a file in a listing
// ---------------------------------------------------------------------------

/// Whether `r` is the first position of `target` in `entries`, by `E`'s own
/// equality.
pub open spec fn is_first_position<E: PartialEq>(entries: Seq<E>, target: E, r: Option<usize>) -> bool {
    match r {
        Some(k) => k < entries.len() && entries[k as int].eq_spec(&target) && forall|j: int|
            0 <= j < k ==> !(#[trigger] entries[j]).eq_spec(&target),
        None => forall|j: int| 0 <= j < entries.len() ==> !(#[trigger] entries[j]).eq_spec(&target),
    }
}

/// The first position of `target` in `entries`. For a type whose `==` is
/// specified, that is the first entry equal to it.
pub fn position_in<E: PartialEq>(entries: &[E], target: &E) -> (r: Option<usize>)
    ensures
        r matches Some(k) ==> k < entries@.len(),
        E::obeys_eq_spec() ==> is_first_position(entries@, *target, r),
{
    let mut k: usize = 0;
    while k < entries.len()
        invariant
            k <= entries@.len(),
            E::obeys_eq_spec() ==> forall|j: int| 0 <= j < k ==> !(#[trigger] entries@[j]).eq_spec(target),
        decreases entries.len() - k,
    {
        if entries[k] == *target {
            return Some(k);
        }
        k = k + 1;
    }
    None
}

/// Where to open a listing for the requested file `target`: its position,
/// or the first image when the file is not in the listing.
pub fn opening_position<E: PartialEq>(entries: &[E], target: &E) -> (r: usize)
    ensures
        E::obeys_eq_spec() ==> (is_first_position(entries@, *target, Some(r)) || (is_first_position(
            entries@,
            *target,
            None,
        ) && r == 0)),
{
    match position_in(entries, target) {
        Some(k) => k,
        None => 0,
    }
}

/// Finds where the previously displayed file `previous[index]` ended up in a
/// freshly read listing, so navigation stays anchored across changes on disk.
/// The viewer finds files by the bytes of their paths (`Vec<u8>`), for which
/// `==` is specified and the position is fixed.
pub fn position_of<E: PartialEq>(entries: &[E], previous: &[E], index: usize) -> (r: Option<usize>)
    ensures
        index >= previous@.len() ==> r is None,
        r matches Some(k) ==> k < entries@.len(),
        index < previous@.len() && E::obeys_eq_spec() ==> is_first_position(entries@, previous@[index as int], r),
{
    if index >= previous.len() {
        return None;
    }
    position_in(entries, &previous[index])
}

// ---------------------------------------------------------------------------
// Loading with fallbacks
// ---------------------------------------------------------------------------

/// Whether `try_load` may have failed on `entry`.
pub open spec fn failed<E, T, F: Fn(&E) -> Option<T>>(try_load: F, entry: E) -> bool {
    try_load.ensures((&entry,), None)
}

/// Whether `try_load` may have produced `image` from `entry`.
pub open spec fn loaded<E, T, F: Fn(&E) -> Option<T>>(try_load: F, entry: E, image: T) -> bool {
    try_load.ensures((&entry,), Some(image))
}

/// The positions a scan from `start` in `step` visits, as `lo..hi`: from
/// `start` to the end going forward, from the start of the listing to
/// `start` (clamped to the last entry) going backward.
pub open spec fn scan_range(len: nat, start: nat, step: Step) -> (int, int) {
    match step {
        Step::Forward => (start as int, len as int),
        Step::Backward => (0, if start < len { start + 1 as int } else { len as int }),
    }
}

/// Loads the first image at or after `start` in the given direction,
/// skipping files that no longer exist or fail to decode. Each file is tried
/// at most once, nearest to `start` first, and none after the first success.
pub fn load_scanning<E, T, F: Fn(&E) -> Option<T>>(entries: &[E], start: usize, step: Step, try_load: F) -> (r:
    Option<(usize, T)>)
    requires
        forall|i: int| 0 <= i < entries@.len() ==> try_load.requires((&entries@[i],)),
    ensures
        ({
            let (lo, hi) = scan_range(entries@.len(), start as nat, step);
            match r {
                Some((k, image)) => lo <= k < hi && loaded(try_load, entries@[k as int], image) && (forall|m: int|
                    lo <= m < hi && (if step == Step::Forward { m < k } else { k < m }) ==> failed(
                        try_load,
                        entries@[m],
                    )),
                None => forall|m: int| lo <= m < hi ==> failed(try_load, entries@[m]),
            }
        }),
        step == Step::Forward ==> (match r {
            Some((k, image)) => start <= k < entries@.len() && loaded(try_load, entries@[k as int], image) && (
            forall|m: int| start <= m < k ==> failed(try_load, entries@[m])),
            None => forall|m: int| start <= m < entries@.len() ==> failed(try_load, entries@[m]),
        }),
        step == Step::Backward ==> (match r {
            Some((k, image)) => k <= start && k < entries@.len() && loaded(try_load, entries@[k as int], image)
                && (forall|m: int| k < m <= start && m < entries@.len() ==> failed(try_load, entries@[m])),
            None => forall|m: int| 0 <= m <= start && m < entries@.len() ==> failed(try_load, entries@[m]),
        }),
{
    let ghost (lo, hi) = scan_range(entries@.len(), start as nat, step);
    if entries.len() == 0 {
        return None;
    }
    match step {
        Step::Forward => {
            let mut k = start;
            while k < entries.len()
                invariant
                    step == Step::Forward,
                    lo == start,
                    hi == entries@.len(),
                    lo <= k,
                    forall|i: int| 0 <= i < entries@.len() ==> try_load.requires((&entries@[i],)),
                    forall|m: int| lo <= m < k ==> failed(try_load, entries@[m]),
                decreases entries.len() - k,
            {
                match try_load(&entries[k]) {
                    Some(image) => {
                        return Some((k, image));
                    },
                    None => {},
                }
                k = k + 1;
            }
            None
        },
        Step::Backward => {
            let top = if start < entries.len() {
                start
            } else {
                entries.len() - 1
            };
            let mut k = top + 1;
            while k > 0
                invariant
                    step == Step::Backward,
                    lo == 0,
                    hi == top + 1,
                    top == (if start < entries@.len() { start as int } else { entries@.len() - 1 }),
                    top < entries@.len(),
                    0 <= k <= hi,
                    forall|i: int| 0 <= i < entries@.len() ==> try_load.requires((&entries@[i],)),
                    forall|m: int| k <= m < hi ==> failed(try_load, entries@[m]),
                decreases k,
            {
                match try_load(&entries[k - 1]) {
                    Some(image) => {
                        return Some((k - 1, image));
                    },
                    None => {},
                }
                k = k - 1;
            }
            None
        },
    }
}

/// How far apart two positions are.
pub open spec fn distance(a: int, b: int) -> int {
    if a < b {
        b - a
    } else {
        a - b
    }
}

/// Whether position `j` is preferred over position `k` as a stand-in for
/// `target`: it is closer, or as close and earlier.
pub open spec fn preferred(j: int, k: int, target: int) -> bool {
    distance(j, target) < distance(k, target) || (distance(j, target) == distance(k, target) && j < k)
}

/// `target` clamped to the last position of a listing of `len` entries.
pub open spec fn clamped(target: nat, len: nat) -> int {
    if target < len {
        target as int
    } else {
        len - 1
    }
}

/// Loads the image closest to `target`, preferring the lower index when the
/// distance is equal. A `target` past the end stands for the last entry.
pub fn load_nearest<E, T, F: Fn(&E) -> Option<T>>(entries: &[E], target: usize, try_load: F) -> (r: Option<(usize, T)>)
    requires
        forall|i: int| 0 <= i < entries@.len() ==> try_load.requires((&entries@[i],)),
    ensures
        entries@.len() == 0 ==> r is None,
        (match r {
            Some((k, image)) => k < entries@.len() && loaded(try_load, entries@[k as int], image) && forall|j: int|
                0 <= j < entries@.len() && preferred(j, k as int, clamped(target as nat, entries@.len()))
                    ==> failed(try_load, entries@[j]),
            None => forall|j: int| 0 <= j < entries@.len() ==> failed(try_load, entries@[j]),
        }),
        r matches Some((k, image)) ==> ({
            let t = if target < entries@.len() { target as int } else { entries@.len() - 1 };
            let dk = if k < t { t - k } else { k - t };
            forall|j: int|
                0 <= j < entries@.len() && ({
                    let dj = if j < t { t - j } else { j - t };
                    dj < dk || (dj == dk && j < k)
                }) ==> failed(try_load, entries@[j])
        }),
{
    if entries.len() == 0 {
        return None;
    }
    let len = entries.len();
    let t = if target < len {
        target
    } else {
        len - 1
    };
    let ghost tt = clamped(target as nat, entries@.len());
    let mut d: usize = 0;
    while d < len
        invariant
            len == entries@.len(),
            tt == clamped(target as nat, entries@.len()),
            t == tt,
            t < len,
            d <= len,
            forall|i: int| 0 <= i < entries@.len() ==> try_load.requires((&entries@[i],)),
            forall|j: int| 0 <= j < len && distance(j, t as int) < d ==> #[trigger] failed(try_load, entries@[j]),
        decreases len - d,
    {
        // Lower index first: on a tie the earlier file wins.
        if d <= t {
            let index = t - d;
            match try_load(&entries[index]) {
                Some(image) => {
                    return Some((index, image));
                },
                None => {},
            }
        }
        if d > 0 && d < len - t {
            let index = t + d;
            match try_load(&entries[index]) {
                Some(image) => {
                    proof {
                        assert forall|j: int|
                            0 <= j < entries@.len() && preferred(j, index as int, tt) implies failed(
                            try_load,
                            entries@[j],
                        ) by {
                            if distance(j, t as int) == d {
                                assert(j == t - d);
                            }
                        }
                    }
                    return Some((index, image));
                },
                None => {},
            }
        }
        d = d + 1;
    }
    assert forall|j: int| 0 <= j < entries@.len() implies failed(try_load, entries@[j]) by {
        assert(distance(j, t as int) < d);
    }
    None
}

/// Whether `r` is what stepping once in `step` from position `current` of
/// `entries` may give: nothing going backward from the first image or
/// forward from past the end; otherwise the first image that loads, nearest
/// first, every one passed over having failed.
pub open spec fn stepped<E, T, F: Fn(&E) -> Option<T>>(
    entries: Seq<E>,
    current: usize,
    step: Step,
    try_load: F,
    r: Option<(usize, T)>,
) -> bool {
    &&& step == Step::Backward && current == 0 ==> r is None
    &&& step == Step::Forward && current >= entries.len() ==> r is None
    &&& !(step == Step::Backward && current == 0) && !(step == Step::Forward && current >= entries.len()) ==> ({
        let start = if step == Step::Forward { current + 1 } else { current - 1 };
        let (lo, hi) = scan_range(entries.len(), start as nat, step);
        match r {
            Some((k, image)) => lo <= k < hi && loaded(try_load, entries[k as int], image) && (forall|m: int|
                lo <= m < hi && (if step == Step::Forward { m < k } else { k < m }) ==> failed(
                    try_load,
                    entries[m],
                )),
            None => forall|m: int| lo <= m < hi ==> failed(try_load, entries[m]),
        }
    })
}

/// Stepping tries the neighbour first: whatever a step may give, going
/// forward it lands after `current` with every image in between having
/// failed to load, and going backward it lands before `current` likewise;
/// when it gives nothing, every image in that direction failed.
pub proof fn stepping_tries_the_neighbour_first<E, T, F: Fn(&E) -> Option<T>>(
    entries: Seq<E>,
    current: usize,
    step: Step,
    try_load: F,
    r: Option<(usize, T)>,
)
    requires
        stepped(entries, current, step, try_load, r),
    ensures
        step == Step::Forward ==> (match r {
            Some((k, image)) => current < k < entries.len() && loaded(try_load, entries[k as int], image) && (
            forall|m: int| current < m < k ==> failed(try_load, entries[m])),
            None => forall|m: int| current < m < entries.len() ==> failed(try_load, entries[m]),
        }),
        step == Step::Backward ==> (match r {
            Some((k, image)) => k < current && k < entries.len() && loaded(try_load, entries[k as int], image)
                && (forall|m: int| k < m < current && m < entries.len() ==> failed(try_load, entries[m])),
            None => forall|m: int| 0 <= m < current && m < entries.len() ==> failed(try_load, entries[m]),
        }),
{
}

/// Loads the image one step away from position `current` of a fresh listing:
/// the first usable one after it going forward, before it going backward.
/// Nothing at all when going backward from the first image, or forward from
/// a position past the end.
pub fn step_image<E, T, F: Fn(&E) -> Option<T>>(entries: &[E], current: usize, step: Step, try_load: F) -> (r:
    Option<(usize, T)>)
    requires
        forall|i: int| 0 <= i < entries@.len() ==> try_load.requires((&entries@[i],)),
    ensures
        stepped(entries@, current, step, try_load, r),
        step == Step::Forward ==> (match r {
            Some((k, image)) => current < k < entries@.len() && loaded(try_load, entries@[k as int], image) && (
            forall|m: int| current < m < k ==> failed(try_load, entries@[m])),
            None => forall|m: int| current < m < entries@.len() ==> failed(try_load, entries@[m]),
        }),
        step == Step::Backward ==> (match r {
            Some((k, image)) => k < current && k < entries@.len() && loaded(try_load, entries@[k as int], image)
                && (forall|m: int| k < m < current && m < entries@.len() ==> failed(try_load, entries@[m])),
            None => forall|m: int| 0 <= m < current && m < entries@.len() ==> failed(try_load, entries@[m]),
        }),
{
    let start = match step {
        Step::Forward => {
            if current >= entries.len() {
                return None;
            }
            current + 1
        },
        Step::Backward => {
            if current == 0 {
                // Already at the first image; nothing before it.
                return None;
            }
            current - 1
        },
    };
    load_scanning(entries, start, step, try_load)
}

// ---------------------------------------------------------------------------
// Startup
// ---------------------------------------------------------------------------

/// What the window should show when it opens.
pub enum Startup<P> {
    /// A specific file, from the command line or a file association.
    Image(P),
    /// The folder and position recorded at the previous exit.
    Restored { folder: String, index: usize },
    /// Nothing to show; the text explains why and the window is dismissible.
    Message(String),
}

pub const NO_RECORD_MESSAGE: &'static str = "前回開いたフォルダの記録がありません。\n画像ファイルを指定して起動してください。";
pub const STALE_RECORD_PREFIX: &'static str = "前回開いたフォルダを表示できません。\n";
pub const STALE_RECORD_SUFFIX: &'static str = "\n\n設定から記録を削除しました。";
pub const MISSING_PREFIX: &'static str = "画像を表示できませんでした。\n";
pub const EMPTY_FOLDER_PREFIX: &'static str = "表示できる画像がありません。\n";

/// Whether `(startup, save)` is what the viewer decides at startup for the
/// `requested` path, the configuration `config`, and whether the recorded
/// folder is `usable`: save is the configuration to write back, if any.
pub open spec fn startup_decision<P>(
    requested: Option<P>,
    config: Config,
    usable: bool,
    startup: Startup<P>,
    save: Option<Config>,
) -> bool {
    match requested {
        Some(path) => startup == Startup::Image(path) && save is None,
        None => match config.last_opened {
            None => startup matches Startup::Message(text) && text@ == NO_RECORD_MESSAGE@ && save is None,
            Some(last) => if usable {
                startup matches Startup::Restored { folder, index } && folder@ == last.folder@ && index == last.index
                    && save is None
            } else {
                &&& startup matches Startup::Message(text)
                &&& text@ == STALE_RECORD_PREFIX@ + last.folder@ + STALE_RECORD_SUFFIX@
                &&& save matches Some(c) && c.last_opened is None && c.window == config.window
                    && c.overlay == config.overlay && c.logging == config.logging
            },
        },
    }
}

/// Resolves what to show at startup. A requested path always wins; otherwise
/// the folder recorded at the previous exit is restored if `folder_usable`
/// (it exists and holds images) says so. A stale record is dropped from the
/// configuration, which is then handed back to be saved, rather than failing
/// the same way again. Startup is always windowed, so nothing here restores a
/// fullscreen state.
pub fn decide_startup<P, F: Fn(&str) -> bool>(requested: Option<P>, config: Config, folder_usable: F) -> (r: (
    Startup<P>,
    Option<Config>,
))
    requires
        forall|folder: &str| folder_usable.requires((folder,)),
    ensures
        requested is Some ==> startup_decision(requested, config, true, r.0, r.1),
        requested is None && config.last_opened is None ==> startup_decision(requested, config, true, r.0, r.1),
        requested is None && config.last_opened is Some ==> exists|folder: &str, usable: bool|
            folder@ == config.last_opened.unwrap().folder@ && folder_usable.ensures((folder,), usable)
                && startup_decision(requested, config, usable, r.0, r.1),
        r.1 matches Some(saved) ==> requested is None && config.last_opened is Some && saved.last_opened is None
            && saved.window == config.window && saved.overlay == config.overlay && saved.logging == config.logging,
        r.1 is None ==> !(r.0 is Message) || requested is Some || config.last_opened is None,
{
    if let Some(path) = requested {
        return (Startup::Image(path), None);
    }
    let last = match &config.last_opened {
        Some(last) => last,
        None => {
            let mut text = String::new();
            text.push_str(NO_RECORD_MESSAGE);
            return (Startup::Message(text), None);
        },
    };
    let folder = last.folder.as_str();
    let usable = folder_usable(folder);
    if usable {
        let index = last.index;
        let folder = last.folder.clone();
        (Startup::Restored { folder, index }, None)
    } else {
        let mut text = String::new();
        text.push_str(STALE_RECORD_PREFIX);
        text.push_str(folder);
        text.push_str(STALE_RECORD_SUFFIX);
        let mut config = config;
        config.clear_last_opened();
        (Startup::Message(text), Some(config))
    }
}

/// The text shown when the requested file cannot be displayed.
pub fn message_for_missing(path: &str) -> (m: String)
    ensures
        m@ == MISSING_PREFIX@ + path@,
{
    let mut m = String::new();
    m.push_str(MISSING_PREFIX);
    m.push_str(path);
    m
}

/// The text shown when a folder holds no displayable image.
pub fn message_for_empty_folder(folder: &str) -> (m: String)
    ensures
        m@ == EMPTY_FOLDER_PREFIX@ + folder@,
{
    let mut m = String::new();
    m.push_str(EMPTY_FOLDER_PREFIX);
    m.push_str(folder);
    m
}

// ---------------------------------------------------------------------------
// Window geometry and the state kept for the next launch
// ---------------------------------------------------------------------------

/// The smallest window width, in screen pixels.
pub const MIN_WINDOW_WIDTH: u32 = 400;
/// The smallest window height, in screen pixels.
pub const MIN_WINDOW_HEIGHT: u32 = 300;
/// The window width used when no geometry was saved.
pub const DEFAULT_WINDOW_WIDTH: u32 = 1024;
/// The window height used when no geometry was saved.
pub const DEFAULT_WINDOW_HEIGHT: u32 = 768;

/// `v`, raised to `min` if it is smaller.
pub open spec fn at_least(v: u32, min: u32) -> u32 {
    if v < min {
        min
    } else {
        v
    }
}

/// The geometry to open the window with: the saved position, and the saved
/// size raised to the minimum. `None` when nothing was saved, in which case
/// the window is centred at the default size.
pub fn restored_window(saved: Option<WindowConfig>) -> (r: Option<WindowConfig>)
    ensures
        (match saved {
            None => r is None,
            Some(w) => r matches Some(g) && g.x == w.x && g.y == w.y && g.width == at_least(
                w.width,
                MIN_WINDOW_WIDTH,
            ) && g.height == at_least(w.height, MIN_WINDOW_HEIGHT),
        }),
        r matches Some(g) ==> g.width >= 400 && g.height >= 300,
        saved matches Some(w) ==> (w.width >= 400 ==> (r matches Some(g) && g.width == w.width)) && (w.height
            >= 300 ==> (r matches Some(g) && g.height == w.height)),
{
    match saved {
        None => None,
        Some(w) => {
            let width = if w.width < MIN_WINDOW_WIDTH {
                MIN_WINDOW_WIDTH
            } else {
                w.width
            };
            let height = if w.height < MIN_WINDOW_HEIGHT {
                MIN_WINDOW_HEIGHT
            } else {
                w.height
            };
            Some(WindowConfig { x: w.x, y: w.y, width, height })
        },
    }
}

/// The configuration to write at exit: `config` as read from the file, with
/// the window geometry replaced and, when an image is on screen (`shown`),
/// its folder and position recorded. With only a message on screen the
/// recorded folder is left as it was.
pub fn state_to_save(config: Config, window: WindowConfig, shown: Option<LastOpened>) -> (r: Config)
    ensures
        r.window == Some(window),
        r.overlay == config.overlay,
        r.logging == config.logging,
        shown is Some ==> r.last_opened == shown,
        shown is None ==> r.last_opened == config.last_opened,
{
    let mut config = config;
    config.window = Some(window);
    if shown.is_some() {
        config.last_opened = shown;
    }
    config
}

// ---------------------------------------------------------------------------
// Moving within a folder and between folders
// ---------------------------------------------------------------------------

/// The first position of `target` in `keys`, where there is one.
pub open spec fn first_position<K: PartialEq>(keys: Seq<K>, target: K) -> usize {
    choose|c: usize| is_first_position(keys, target, Some(c))
}

proof fn lemma_first_position<K: PartialEq>(keys: Seq<K>, target: K, c: usize)
    requires
        is_first_position(keys, target, Some(c)),
    ensures
        first_position(keys, target) == c,
{
    let d = first_position(keys, target);
    assert(is_first_position(keys, target, Some(d)));
    if d < c {
        assert(!keys[d as int].eq_spec(&target));
    } else if c < d {
        assert(!keys[c as int].eq_spec(&target));
    }
}

/// What one step through the images of the shown folder comes to.
pub enum ImageStep<T> {
    /// Show the image at this position of the fresh listing.
    Show(usize, T),
    /// The shown file is gone from the listing: reopen the folder at the
    /// nearest survivor of the old position.
    Vanished,
    /// Nothing further in that direction: keep showing what is shown.
    Stay,
}

/// One step through a folder that was listed afresh. `previous` are the keys
/// of the listing the shown image (at `index`) came from, `keys` those of
/// the fresh listing, one per entry of `entries`; the shown file is found
/// again by its key, and the step goes from there. For keys whose `==` is
/// specified (byte strings, for example) the result is fixed.
pub fn step_within<K: PartialEq, E, T, F: Fn(&E) -> Option<T>>(
    keys: &[K],
    previous: &[K],
    index: usize,
    entries: &[E],
    step: Step,
    try_load: F,
) -> (r: ImageStep<T>)
    requires
        keys@.len() == entries@.len(),
        forall|i: int| 0 <= i < entries@.len() ==> try_load.requires((&entries@[i],)),
    ensures
        index >= previous@.len() ==> r is Vanished,
        index < previous@.len() && K::obeys_eq_spec() ==> (match r {
            ImageStep::Vanished => is_first_position(keys@, previous@[index as int], None),
            ImageStep::Stay => is_first_position(
                keys@,
                previous@[index as int],
                Some(first_position(keys@, previous@[index as int])),
            ) && stepped(entries@, first_position(keys@, previous@[index as int]), step, try_load, None),
            ImageStep::Show(k, image) => is_first_position(
                keys@,
                previous@[index as int],
                Some(first_position(keys@, previous@[index as int])),
            ) && stepped(entries@, first_position(keys@, previous@[index as int]), step, try_load, Some((k, image))),
        }),
{
    match position_of(keys, previous, index) {
        None => ImageStep::Vanished,
        Some(current) => {
            let stepped_to = step_image(entries, current, step, try_load);
            proof {
                if index < previous@.len() && K::obeys_eq_spec() {
                    lemma_first_position(keys@, previous@[index as int], current);
                }
            }
            match stepped_to {
                Some((k, image)) => ImageStep::Show(k, image),
                None => ImageStep::Stay,
            }
        },
    }
}

/// What looking at one more folder while stepping between folders comes to.
pub enum FolderStep<P, T> {
    /// Show this folder, at this position, with this image.
    Show(P, usize, T),
    /// The folder listed images but none of them loads, so it is as good as
    /// empty: look further in the same direction, from it.
    Continue(P),
    /// No further folder with images in that direction.
    Stop,
}

/// Decides one round of stepping between folders: `candidate` is the next
/// folder with images in the chosen direction, if any, and `first_image`
/// loads the first usable image of a folder.
pub fn folder_step<P, T, F: Fn(&P) -> Option<(usize, T)>>(candidate: Option<P>, first_image: F) -> (r: FolderStep<
    P,
    T,
>)
    requires
        candidate matches Some(folder) ==> first_image.requires((&folder,)),
    ensures
        candidate is None ==> r is Stop,
        candidate matches Some(folder) ==> (match r {
            FolderStep::Show(p, k, image) => p == folder && first_image.ensures((&folder,), Some((k, image))),
            FolderStep::Continue(p) => p == folder && first_image.ensures((&folder,), None),
            FolderStep::Stop => false,
        }),
{
    match candidate {
        None => FolderStep::Stop,
        Some(folder) => match first_image(&folder) {
            Some((k, image)) => FolderStep::Show(folder, k, image),
            None => FolderStep::Continue(folder),
        },
    }
}

} // verus!
