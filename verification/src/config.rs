//! The contents of `config.toml` and the text the viewer writes for it.
//!
//! The file is written by hand rather than through a serializer, because the
//! `verbose` key has to ship as a commented-out sample with its explanation,
//! and a serializer cannot emit comments.
use std::time::Duration;
use vstd::prelude::*;

use crate::text::{decimal, occurs_in, signed_decimal, push_decimal, push_signed};

verus! {

/// Position and size of the window at the previous exit, in screen pixels.
#[derive(Clone, Copy, Debug)]
pub struct WindowConfig {
    pub x: i32,
    pub y: i32,
    pub width: u32,
    pub height: u32,
}

/// The folder shown at the previous exit and the position within it.
#[derive(Clone, Debug)]
pub struct LastOpened {
    pub folder: String,
    pub index: usize,
}

/// The folder / file caption shown when the image changes.
#[derive(Clone, Copy, Debug)]
pub struct OverlayConfig {
    /// How long the caption stays up, in milliseconds. 0 turns it off.
    pub duration_ms: u64,
}

#[derive(Clone, Copy, Debug)]
pub struct LoggingConfig {
    /// Whether to write `viewer.log` at all. Defaults to on.
    pub enabled: bool,
    /// Detailed logging in release builds. Debug builds are always detailed.
    pub verbose: Option<bool>,
}

#[derive(Clone, Debug)]
pub struct Config {
    pub window: Option<WindowConfig>,
    pub last_opened: Option<LastOpened>,
    pub overlay: OverlayConfig,
    pub logging: LoggingConfig,
}

/// How long the caption stays up when the file does not say.
pub fn default_overlay_duration_ms() -> (r: u64)
    ensures
        r == 5000,
{
    5000
}

/// Whether logging is on when the file does not say.
pub fn default_enabled() -> (r: bool)
    ensures
        r,
{
    true
}

impl Default for OverlayConfig {
    fn default() -> (r: Self)
        ensures
            r.duration_ms == 5000,
    {
        OverlayConfig { duration_ms: default_overlay_duration_ms() }
    }
}

impl Default for LoggingConfig {
    fn default() -> (r: Self)
        ensures
            r.enabled,
            r.verbose is None,
    {
        LoggingConfig { enabled: default_enabled(), verbose: None }
    }
}

impl OverlayConfig {
    /// The `[overlay]` section as read from a file: the `duration_ms` key,
    /// or the default when the key is absent.
    pub fn from_key(duration_ms: Option<u64>) -> (r: Self)
        ensures
            r.duration_ms == (match duration_ms {
                Some(ms) => ms,
                None => 5000,
            }),
    {
        match duration_ms {
            Some(ms) => OverlayConfig { duration_ms: ms },
            None => OverlayConfig { duration_ms: default_overlay_duration_ms() },
        }
    }
}

impl LoggingConfig {
    /// The `[logging]` section as read from a file: `enabled` defaults to on,
    /// `verbose` stays unset when absent.
    pub fn from_keys(enabled: Option<bool>, verbose: Option<bool>) -> (r: Self)
        ensures
            r.enabled == (match enabled {
                Some(e) => e,
                None => true,
            }),
            r.verbose == verbose,
    {
        let enabled = match enabled {
            Some(e) => e,
            None => default_enabled(),
        };
        LoggingConfig { enabled, verbose }
    }
}

/// Whether `c` is the configuration used when there is no file.
pub open spec fn is_default_config(c: Config) -> bool {
    &&& c.window is None
    &&& c.last_opened is None
    &&& c.overlay.duration_ms == 5000
    &&& c.logging.enabled
    &&& c.logging.verbose is None
}

impl Default for Config {
    fn default() -> (r: Self)
        ensures
            is_default_config(r),
    {
        Config {
            window: None,
            last_opened: None,
            overlay: OverlayConfig::default(),
            logging: LoggingConfig::default(),
        }
    }
}

impl OverlayConfig {
    /// The caption time as a `Duration`, through `Duration::from_millis`.
    /// `Duration` is opaque here, so nothing is stated of the value beyond the
    /// call it makes.
    #[verifier::external_body]
    pub fn duration(&self) -> Duration {
        Duration::from_millis(self.duration_ms)
    }
}

/// Whether detailed logging is on for `c`: always in debug builds, otherwise
/// only when `[logging] verbose = true`.
pub open spec fn verbose_in(c: Config, debug_build: bool) -> bool {
    debug_build || c.logging.verbose == Some(true)
}

impl Config {
    /// The configuration to start with, given what parsing `config.toml`
    /// produced: the parsed file, or the defaults when the file is absent,
    /// unreadable or malformed (`None`). A bad file never blocks startup.
    pub fn load(parsed: Option<Config>) -> (c: Config)
        ensures
            parsed matches Some(p) ==> c == p,
            parsed is None ==> is_default_config(c),
    {
        match parsed {
            Some(config) => config,
            None => Config::default(),
        }
    }

    /// Whether detailed logging is on: always in debug builds, otherwise only
    /// when `[logging] verbose = true`.
    pub fn verbose_logging(&self, debug_build: bool) -> (r: bool)
        ensures
            r == verbose_in(*self, debug_build),
    {
        debug_build || match self.logging.verbose {
            Some(v) => v,
            None => false,
        }
    }

    /// Forgets the last opened folder, used when that folder turned out to be
    /// unusable at startup.
    pub fn clear_last_opened(&mut self)
        ensures
            final(self).last_opened is None,
            final(self).window == old(self).window,
            final(self).overlay == old(self).overlay,
            final(self).logging == old(self).logging,
    {
        self.last_opened = None;
    }

    /// The text of `config.toml` for this configuration.
    #[verifier::rlimit(40)]
    pub fn to_toml(&self) -> (out: String)
        ensures
            out@ == toml_text(*self),
    {
        let mut out = String::new();

        if let Some(window) = &self.window {
            out.push_str("[window]\n");
            out.push_str("x = ");
            push_signed(&mut out, window.x as i64);
            out.push('\n');
            out.push_str("y = ");
            push_signed(&mut out, window.y as i64);
            out.push('\n');
            out.push_str("width = ");
            push_decimal(&mut out, window.width as u64);
            out.push('\n');
            out.push_str("height = ");
            push_decimal(&mut out, window.height as u64);
            out.push('\n');
            out.push('\n');
        }
        let ghost after_window = out@;

        if let Some(last_opened) = &self.last_opened {
            out.push_str("[last_opened]\n");
            out.push_str("folder = ");
            let quoted = quote(last_opened.folder.as_str());
            out.push_str(quoted.as_str());
            out.push('\n');
            out.push_str("index = ");
            push_decimal(&mut out, last_opened.index as u64);
            out.push('\n');
            out.push('\n');
        }
        let ghost after_last_opened = out@;

        out.push_str("[overlay]\n");
        out.push_str(OVERLAY_COMMENT);
        out.push_str("duration_ms = ");
        push_decimal(&mut out, self.overlay.duration_ms);
        out.push('\n');
        out.push('\n');
        let ghost after_overlay = out@;

        out.push_str("[logging]\n");
        out.push_str("enabled = ");
        out.push_str(if self.logging.enabled { "true" } else { "false" });
        out.push_str(ENABLED_COMMENT);
        out.push('\n');
        out.push_str(VERBOSE_COMMENT_1);
        out.push_str(VERBOSE_COMMENT_2);
        out.push_str(VERBOSE_COMMENT_3);
        out.push_str(VERBOSE_COMMENT_4);
        match self.logging.verbose {
            // Only an explicit `true` is worth keeping as a live key; anything
            // else stays the documented, commented-out sample.
            Some(true) => out.push_str("verbose = true\n"),
            _ => out.push_str("# verbose = false\n"),
        }
        proof {
            assert(after_window =~= window_section(self.window));
            assert(after_last_opened =~= window_section(self.window) + last_opened_section(self.last_opened));
            assert(after_overlay =~= after_last_opened + overlay_section(self.overlay));
            assert(out@ =~= after_overlay + logging_section(self.logging));
        }
        out
    }
}

pub const OVERLAY_COMMENT: &'static str = "# 画像切り替え時にフォルダ名・ファイル名を表示する時間（ミリ秒）。0 で表示しない。\n";
pub const ENABLED_COMMENT: &'static str = "          # ログ出力する/しない（未指定時のデフォルト: true）\n";
pub const VERBOSE_COMMENT_1: &'static str = "# 詳細ログ（デバッグ情報）を出力するかどうかの設定。\n";
pub const VERBOSE_COMMENT_2: &'static str = "# デバッグビルドでは常にこの設定に関わらず詳細ログを出力する。\n";
pub const VERBOSE_COMMENT_3: &'static str = "# リリースビルドでは、この項目が未設定または false の場合はエラーのみ出力する。\n";
pub const VERBOSE_COMMENT_4: &'static str = "# 実運用中に不具合の手がかりが欲しい場合のみ、以下のコメントを外して true にしてください。\n";

pub open spec fn bool_text(b: bool) -> Seq<char> {
    if b {
        "true"@
    } else {
        "false"@
    }
}

/// The `[window]` table, when a geometry is recorded.
pub open spec fn window_section(window: Option<WindowConfig>) -> Seq<char> {
    match window {
        Some(w) => "[window]\n"@
            + "x = "@ + signed_decimal(w.x as int) + seq!['\n']
            + "y = "@ + signed_decimal(w.y as int) + seq!['\n']
            + "width = "@ + decimal(w.width as nat) + seq!['\n']
            + "height = "@ + decimal(w.height as nat) + seq!['\n']
            + seq!['\n'],
        None => Seq::empty(),
    }
}

/// The `[last_opened]` table, when a folder is recorded.
pub open spec fn last_opened_section(last_opened: Option<LastOpened>) -> Seq<char> {
    match last_opened {
        Some(l) => "[last_opened]\n"@
            + "folder = "@ + quoted(l.folder@) + seq!['\n']
            + "index = "@ + decimal(l.index as nat) + seq!['\n']
            + seq!['\n'],
        None => Seq::empty(),
    }
}

/// The `[overlay]` table with its explanatory comment.
pub open spec fn overlay_section(overlay: OverlayConfig) -> Seq<char> {
    "[overlay]\n"@ + OVERLAY_COMMENT@
        + "duration_ms = "@ + decimal(overlay.duration_ms as nat) + seq!['\n']
        + seq!['\n']
}

/// The `[logging]` table: `enabled` as a live key, and `verbose` as a live key
/// only when it is explicitly `true`, otherwise as a commented-out sample.
pub open spec fn logging_section(logging: LoggingConfig) -> Seq<char> {
    "[logging]\n"@
        + "enabled = "@ + bool_text(logging.enabled) + ENABLED_COMMENT@ + seq!['\n']
        + VERBOSE_COMMENT_1@ + VERBOSE_COMMENT_2@ + VERBOSE_COMMENT_3@ + VERBOSE_COMMENT_4@
        + if logging.verbose == Some(true) {
            "verbose = true\n"@
        } else {
            "# verbose = false\n"@
        }
}

/// The whole of `config.toml` for `c`.
pub open spec fn toml_text(c: Config) -> Seq<char> {
    window_section(c.window) + last_opened_section(c.last_opened) + overlay_section(c.overlay)
        + logging_section(c.logging)
}

/// `x` occurs in `a + x + b`.
proof fn lemma_occurs_between(a: Seq<char>, x: Seq<char>, b: Seq<char>)
    ensures
        occurs_in(x, a + x + b),
{
    let whole = a + x + b;
    assert(whole.subrange(a.len() as int, (a.len() + x.len()) as int) =~= x);
}

proof fn lemma_enabled_written(c: Config)
    ensures
        occurs_in(
            "[logging]\n"@ + "enabled = "@ + (if c.logging.enabled {
                "true"@
            } else {
                "false"@
            }),
            toml_text(c),
        ),
{
    let value = if c.logging.enabled {
        "true"@
    } else {
        "false"@
    };
    let front = window_section(c.window) + last_opened_section(c.last_opened) + overlay_section(c.overlay);
    let en = "[logging]\n"@ + "enabled = "@ + value;
    let rest = ENABLED_COMMENT@ + seq!['\n'] + VERBOSE_COMMENT_1@ + VERBOSE_COMMENT_2@ + VERBOSE_COMMENT_3@
        + VERBOSE_COMMENT_4@ + (if c.logging.verbose == Some(true) {
        "verbose = true\n"@
    } else {
        "# verbose = false\n"@
    });
    assert(logging_section(c.logging) =~= en + rest);
    assert(toml_text(c) =~= front + en + rest);
    lemma_occurs_between(front, en, rest);
}

proof fn lemma_verbose_written(c: Config)
    ensures
        occurs_in(
            if c.logging.verbose == Some(true) {
                "verbose = true\n"@
            } else {
                "# verbose = false\n"@
            },
            toml_text(c),
        ),
{
    let verbose = if c.logging.verbose == Some(true) {
        "verbose = true\n"@
    } else {
        "# verbose = false\n"@
    };
    let front = window_section(c.window) + last_opened_section(c.last_opened) + overlay_section(c.overlay)
        + ("[logging]\n"@ + "enabled = "@ + bool_text(c.logging.enabled) + ENABLED_COMMENT@ + seq!['\n']
        + VERBOSE_COMMENT_1@ + VERBOSE_COMMENT_2@ + VERBOSE_COMMENT_3@ + VERBOSE_COMMENT_4@);
    assert(toml_text(c) =~= front + verbose + Seq::<char>::empty());
    lemma_occurs_between(front, verbose, Seq::<char>::empty());
}

proof fn lemma_duration_written(c: Config)
    ensures
        occurs_in("duration_ms = "@ + decimal(c.overlay.duration_ms as nat) + seq!['\n'], toml_text(c)),
{
    let dur = "duration_ms = "@ + decimal(c.overlay.duration_ms as nat) + seq!['\n'];
    let front = window_section(c.window) + last_opened_section(c.last_opened) + ("[overlay]\n"@ + OVERLAY_COMMENT@);
    let rest = seq!['\n'] + logging_section(c.logging);
    assert(overlay_section(c.overlay) =~= ("[overlay]\n"@ + OVERLAY_COMMENT@) + dur + seq!['\n']);
    assert(toml_text(c) =~= front + dur + rest);
    lemma_occurs_between(front, dur, rest);
}

proof fn lemma_window_written(c: Config, win: WindowConfig)
    requires
        c.window == Some(win),
    ensures
        occurs_in(
            "[window]\n"@ + "x = "@ + signed_decimal(win.x as int) + seq!['\n'] + "y = "@ + signed_decimal(
                win.y as int,
            ) + seq!['\n'] + "width = "@ + decimal(win.width as nat) + seq!['\n'] + "height = "@ + decimal(
                win.height as nat,
            ) + seq!['\n'],
            toml_text(c),
        ),
{
    let body = "[window]\n"@ + "x = "@ + signed_decimal(win.x as int) + seq!['\n'] + "y = "@ + signed_decimal(
        win.y as int,
    ) + seq!['\n'] + "width = "@ + decimal(win.width as nat) + seq!['\n'] + "height = "@ + decimal(
        win.height as nat,
    ) + seq!['\n'];
    let rest = seq!['\n'] + (last_opened_section(c.last_opened) + overlay_section(c.overlay) + logging_section(
        c.logging,
    ));
    assert(window_section(c.window) =~= body + seq!['\n']);
    assert(toml_text(c) =~= Seq::<char>::empty() + body + rest);
    lemma_occurs_between(Seq::<char>::empty(), body, rest);
}

proof fn lemma_last_opened_written(c: Config, last: LastOpened)
    requires
        c.last_opened == Some(last),
    ensures
        occurs_in(
            "[last_opened]\n"@ + "folder = "@ + quoted(last.folder@) + seq!['\n'] + "index = "@ + decimal(
                last.index as nat,
            ) + seq!['\n'],
            toml_text(c),
        ),
{
    let body = "[last_opened]\n"@ + "folder = "@ + quoted(last.folder@) + seq!['\n'] + "index = "@ + decimal(
        last.index as nat,
    ) + seq!['\n'];
    let rest = seq!['\n'] + (overlay_section(c.overlay) + logging_section(c.logging));
    assert(last_opened_section(c.last_opened) =~= body + seq!['\n']);
    assert(toml_text(c) =~= window_section(c.window) + body + rest);
    lemma_occurs_between(window_section(c.window), body, rest);
}

/// The written file holds every value of the configuration under its key:
/// `enabled` is written as the value it has (`true` or `false`), the overlay
/// time, the window geometry and the recorded folder and position each
/// stand under their own key, and `verbose` is a live key exactly for an
/// explicit `true`. (Each value's text reads back as the value: see
/// `quoted_value_reads_back` and `text::decimal_reads_back`.)
pub proof fn written_config_holds_every_value(c: Config)
    ensures
        occurs_in(
            "[logging]\n"@ + "enabled = "@ + (if c.logging.enabled {
                "true"@
            } else {
                "false"@
            }),
            toml_text(c),
        ),
        occurs_in("duration_ms = "@ + decimal(c.overlay.duration_ms as nat) + seq!['\n'], toml_text(c)),
        occurs_in(
            if c.logging.verbose == Some(true) {
                "verbose = true\n"@
            } else {
                "# verbose = false\n"@
            },
            toml_text(c),
        ),
        c.window matches Some(w) ==> occurs_in(
            "[window]\n"@ + "x = "@ + signed_decimal(w.x as int) + seq!['\n'] + "y = "@ + signed_decimal(
                w.y as int,
            ) + seq!['\n'] + "width = "@ + decimal(w.width as nat) + seq!['\n'] + "height = "@ + decimal(
                w.height as nat,
            ) + seq!['\n'],
            toml_text(c),
        ),
        c.last_opened matches Some(l) ==> occurs_in(
            "[last_opened]\n"@ + "folder = "@ + quoted(l.folder@) + seq!['\n'] + "index = "@ + decimal(
                l.index as nat,
            ) + seq!['\n'],
            toml_text(c),
        ),
{
    lemma_enabled_written(c);
    lemma_verbose_written(c);
    lemma_duration_written(c);
    if let Some(w) = c.window {
        lemma_window_written(c, w);
    }
    if let Some(l) = c.last_opened {
        lemma_last_opened_written(c, l);
    }
}

// ---------------------------------------------------------------------------
// TOML basic strings
// ---------------------------------------------------------------------------

/// The uppercase hexadecimal digit for `d < 16`.
pub open spec fn hex_digit(d: nat) -> char {
    if d < 10 {
        crate::text::digit_char(d)
    } else if d == 10 {
        'A'
    } else if d == 11 {
        'B'
    } else if d == 12 {
        'C'
    } else if d == 13 {
        'D'
    } else if d == 14 {
        'E'
    } else {
        'F'
    }
}

/// `v` as exactly four uppercase hexadecimal digits, for `v < 0x10000`.
pub open spec fn hex4(v: nat) -> Seq<char> {
    seq![hex_digit((v / 4096) % 16), hex_digit((v / 256) % 16), hex_digit((v / 16) % 16), hex_digit(v % 16)]
}

/// Whether `c` is a control character that TOML only accepts escaped.
pub open spec fn is_control(c: char) -> bool {
    (c as u32) < 0x20 || c == '\u{7f}'
}

/// How one character is written inside a TOML basic string.
pub open spec fn escaped_char(c: char) -> Seq<char> {
    if c == '"' {
        seq!['\\', '"']
    } else if c == '\\' {
        seq!['\\', '\\']
    } else if c == '\n' {
        seq!['\\', 'n']
    } else if c == '\r' {
        seq!['\\', 'r']
    } else if c == '\t' {
        seq!['\\', 't']
    } else if is_control(c) {
        seq!['\\', 'u'] + hex4((c as u32) as nat)
    } else {
        seq![c]
    }
}

/// `s` with every character escaped as a TOML basic string requires.
pub open spec fn escaped(s: Seq<char>) -> Seq<char>
    decreases s.len(),
{
    if s.len() == 0 {
        Seq::empty()
    } else {
        escaped(s.drop_last()) + escaped_char(s.last())
    }
}

/// `s` rendered as a TOML basic string.
pub open spec fn quoted(s: Seq<char>) -> Seq<char> {
    seq!['"'] + escaped(s) + seq!['"']
}

fn hex(d: u32) -> (c: char)
    requires
        d < 16,
    ensures
        c == hex_digit(d as nat),
{
    match d {
        0 => '0',
        1 => '1',
        2 => '2',
        3 => '3',
        4 => '4',
        5 => '5',
        6 => '6',
        7 => '7',
        8 => '8',
        9 => '9',
        10 => 'A',
        11 => 'B',
        12 => 'C',
        13 => 'D',
        14 => 'E',
        _ => 'F',
    }
}

/// Renders `value` as a TOML basic string, escaping what TOML requires.
pub fn quote(value: &str) -> (out: String)
    ensures
        out@ == quoted(value@),
{
    let mut out = String::new();
    out.push('"');
    let ghost start = out@;
    for c in it: value.chars()
        invariant
            it.seq() == value@,
            out@ == start + escaped(value@.take(it.index() as int)),
            start == seq!['"'],
    {
        let ghost before = out@;
        let ghost i = it.index();
        if c == '"' {
            out.push_str("\\\"");
            proof { reveal_strlit("\\\""); }
        } else if c == '\\' {
            out.push_str("\\\\");
            proof { reveal_strlit("\\\\"); }
        } else if c == '\n' {
            out.push_str("\\n");
            proof { reveal_strlit("\\n"); }
        } else if c == '\r' {
            out.push_str("\\r");
            proof { reveal_strlit("\\r"); }
        } else if c == '\t' {
            out.push_str("\\t");
            proof { reveal_strlit("\\t"); }
        } else if (c as u32) < 0x20 || c == '\u{7f}' {
            let v = c as u32;
            out.push('\\');
            out.push('u');
            out.push(hex((v / 4096) % 16));
            out.push(hex((v / 256) % 16));
            out.push(hex((v / 16) % 16));
            out.push(hex(v % 16));
            proof {
                assert(out@ =~= before + (seq!['\\', 'u'] + hex4(v as nat)));
            }
        } else {
            out.push(c);
        }
        proof {
            assert(out@ =~= before + escaped_char(c));
            assert(value@.take(i + 1).drop_last() =~= value@.take(i as int));
            assert(value@.take(i + 1).last() == c);
        }
    }
    proof {
        assert(value@.take(value@.len() as int) =~= value@);
    }
    out.push('"');
    out
}

// ---------------------------------------------------------------------------
// Reading a TOML basic string back
// ---------------------------------------------------------------------------

/// The value of a hexadecimal digit, in either case.
pub open spec fn hex_value(c: char) -> Option<nat> {
    if '0' <= c && c <= '9' {
        Some((c as u32 - '0' as u32) as nat)
    } else if 'A' <= c && c <= 'F' {
        Some((c as u32 - 'A' as u32 + 10) as nat)
    } else if 'a' <= c && c <= 'f' {
        Some((c as u32 - 'a' as u32 + 10) as nat)
    } else {
        None
    }
}

/// The code point four hexadecimal digits spell.
pub open spec fn hex4_value(t: Seq<char>) -> Option<nat>
    recommends
        t.len() == 4,
{
    match (hex_value(t[0]), hex_value(t[1]), hex_value(t[2]), hex_value(t[3])) {
        (Some(a), Some(b), Some(c), Some(d)) => Some(4096 * a + 256 * b + 16 * c + d),
        _ => None,
    }
}

/// The character a simple escape `\e` stands for in a TOML basic string.
pub open spec fn simple_escape(e: char) -> Option<char> {
    if e == '"' {
        Some('"')
    } else if e == '\\' {
        Some('\\')
    } else if e == 'n' {
        Some('\n')
    } else if e == 'r' {
        Some('\r')
    } else if e == 't' {
        Some('\t')
    } else if e == 'b' {
        Some('\u{8}')
    } else if e == 'f' {
        Some('\u{c}')
    } else {
        None
    }
}

/// The code point of `c`.
pub open spec fn code_of(c: char) -> nat {
    (c as u32) as nat
}

pub open spec fn prepend(c: char, rest: Option<Seq<char>>) -> Option<Seq<char>> {
    match rest {
        Some(r) => Some(seq![c] + r),
        None => None,
    }
}

/// The value a TOML basic string body denotes: escapes resolved; `None` when
/// the body holds an unescaped quote or control character, or a bad escape.
pub open spec fn unescaped(t: Seq<char>) -> Option<Seq<char>>
    decreases t.len(),
{
    if t.len() == 0 {
        Some(Seq::empty())
    } else if t[0] == '\\' {
        if t.len() < 2 {
            None
        } else if simple_escape(t[1]) is Some {
            prepend(simple_escape(t[1])->0, unescaped(t.skip(2)))
        } else if t[1] == 'u' && t.len() >= 6 && hex4_value(t.subrange(2, 6)) is Some
            && exists|c: char| #[trigger] code_of(c) == hex4_value(t.subrange(2, 6))->0 {
            prepend(
                choose|c: char| #[trigger] code_of(c) == hex4_value(t.subrange(2, 6))->0,
                unescaped(t.skip(6)),
            )
        } else {
            None
        }
    } else if t[0] == '"' || (is_control(t[0]) && t[0] != '\t') {
        None
    } else {
        prepend(t[0], unescaped(t.drop_first()))
    }
}

/// The value a TOML basic string (quotes included) denotes.
pub open spec fn unquoted(t: Seq<char>) -> Option<Seq<char>> {
    if t.len() >= 2 && t[0] == '"' && t[t.len() - 1] == '"' {
        unescaped(t.subrange(1, t.len() - 1))
    } else {
        None
    }
}

proof fn lemma_escaped_front(s: Seq<char>)
    requires
        s.len() > 0,
    ensures
        escaped(s) == escaped_char(s[0]) + escaped(s.drop_first()),
    decreases s.len(),
{
    if s.len() == 1 {
        assert(s.drop_first() =~= Seq::<char>::empty());
        assert(s.drop_last() =~= Seq::<char>::empty());
        assert(escaped(s) =~= escaped_char(s[0]) + escaped(s.drop_first()));
    } else {
        lemma_escaped_front(s.drop_last());
        assert(s.drop_last().drop_first() =~= s.drop_first().drop_last());
        assert(s.drop_first().last() == s.last());
        assert(escaped(s) =~= escaped_char(s[0]) + escaped(s.drop_first()));
    }
}

proof fn lemma_hex4_reads_back(v: u32)
    requires
        v < 0x10000,
    ensures
        hex4_value(hex4(v as nat)) == Some(v as nat),
{
    let a = (v / 4096) % 16;
    let b = (v / 256) % 16;
    let c = (v / 16) % 16;
    let d = v % 16;
    assert(v == 4096 * ((v / 4096) % 16) + 256 * ((v / 256) % 16) + 16 * ((v / 16) % 16) + v % 16)
        by (bit_vector)
        requires
            v < 0x10000,
    ;
    assert(a < 16 && b < 16 && c < 16 && d < 16);
    lemma_hex_digit_value(a as nat);
    lemma_hex_digit_value(b as nat);
    lemma_hex_digit_value(c as nat);
    lemma_hex_digit_value(d as nat);
    let t = hex4(v as nat);
    assert(t[0] == hex_digit(a as nat));
    assert(t[1] == hex_digit(b as nat));
    assert(t[2] == hex_digit(c as nat));
    assert(t[3] == hex_digit(d as nat));
}

proof fn lemma_hex_digit_value(d: nat)
    requires
        d < 16,
    ensures
        hex_value(hex_digit(d)) == Some(d),
{
}

proof fn lemma_one_char_reads_back(c: char, rest: Seq<char>)
    ensures
        unescaped(escaped_char(c) + rest) == prepend(c, unescaped(rest)),
{
    let t = escaped_char(c) + rest;
    if c == '"' || c == '\\' || c == '\n' || c == '\r' || c == '\t' {
        assert(t.skip(2) =~= rest);
    } else if is_control(c) {
        let v = c as u32;
        assert(v < 0x80);
        lemma_hex4_reads_back(v);
        assert(t.subrange(2, 6) =~= hex4(v as nat));
        assert(t.skip(6) =~= rest);
        assert(t[1] == 'u');
        assert(simple_escape(t[1]) is None);
        assert(code_of(c) == hex4_value(t.subrange(2, 6))->0);
        let chosen = choose|x: char| #[trigger] code_of(x) == hex4_value(t.subrange(2, 6))->0;
        assert((chosen as u32) == (c as u32));
        vstd::utf8::char_u32_cast(chosen, chosen as u32);
        vstd::utf8::char_u32_cast(c, c as u32);
        assert(chosen == c);
    } else {
        assert(t.drop_first() =~= rest);
    }
}

proof fn lemma_escaped_reads_back(s: Seq<char>)
    ensures
        unescaped(escaped(s)) == Some(s),
    decreases s.len(),
{
    if s.len() == 0 {
    } else {
        lemma_escaped_front(s);
        lemma_escaped_reads_back(s.drop_first());
        lemma_one_char_reads_back(s[0], escaped(s.drop_first()));
        assert(seq![s[0]] + s.drop_first() =~= s);
    }
}

/// Reading back a value written by [`quote`] gives exactly that value: a
/// folder recorded in `config.toml` survives the round trip, whatever
/// characters its name holds.
pub proof fn quoted_value_reads_back(s: Seq<char>)
    ensures
        unquoted(quoted(s)) == Some(s),
{
    let t = quoted(s);
    lemma_escaped_reads_back(s);
    assert(t.subrange(1, t.len() - 1) =~= escaped(s));
}

} // verus!
