use imageviewer::config::{
    default_enabled, default_overlay_duration_ms, quote, Config, LastOpened, LoggingConfig,
    OverlayConfig, WindowConfig,
};

fn parse(text: &str) -> toml::Table {
    text.parse::<toml::Table>().expect("generated TOML parses")
}

#[test]
fn defaults_enable_logging_without_verbose() {
    let config = Config::default();
    assert!(config.logging.enabled);
    assert_eq!(config.logging.verbose, None);
}

#[test]
fn generated_file_keeps_verbose_commented_out_by_default() {
    let toml = Config::default().to_toml();
    assert!(toml.contains("# verbose = false"));
    assert!(!toml.contains("\nverbose ="));
}

#[test]
fn explicit_verbose_is_written_as_a_live_key() {
    let mut config = Config::default();
    config.logging.verbose = Some(true);
    let toml = config.to_toml();
    assert!(toml.contains("\nverbose = true"));
    let parsed = parse(&toml);
    assert_eq!(parsed["logging"]["verbose"].as_bool(), Some(true));
}

#[test]
fn window_and_last_opened_survive_a_roundtrip() {
    let config = Config {
        window: Some(WindowConfig {
            x: 100,
            y: 120,
            width: 800,
            height: 600,
        }),
        last_opened: Some(LastOpened {
            folder: r"C:\Users\yoshiaki\Pictures\sample".to_string(),
            index: 5,
        }),
        overlay: OverlayConfig { duration_ms: 1500 },
        logging: LoggingConfig::default(),
    };

    let parsed = parse(&config.to_toml());
    let window = parsed["window"].as_table().expect("window section");
    assert_eq!(
        (
            window["x"].as_integer(),
            window["y"].as_integer(),
            window["width"].as_integer(),
            window["height"].as_integer()
        ),
        (Some(100), Some(120), Some(800), Some(600))
    );
    let last = parsed["last_opened"].as_table().expect("last_opened section");
    assert_eq!(last["folder"].as_str(), Some(r"C:\Users\yoshiaki\Pictures\sample"));
    assert_eq!(last["index"].as_integer(), Some(5));
    assert_eq!(parsed["overlay"]["duration_ms"].as_integer(), Some(1500));
}

#[test]
fn overlay_duration_defaults_to_five_seconds() {
    let config = overlay_from_file("[overlay]\n");
    assert_eq!(config.overlay.duration_ms, 5000);
    assert_eq!(Config::default().overlay.duration_ms, 5000);
}

/// The configuration read from a file that holds only an `[overlay]`
/// section: the TOML parse, then the library's defaults for missing keys.
fn overlay_from_file(text: &str) -> Config {
    let parsed = parse(text);
    let overlay = parsed["overlay"].as_table().expect("parses");
    let duration_ms = overlay.get("duration_ms").map(|v| v.as_integer().expect("an integer") as u64);
    let mut config = Config::default();
    config.overlay = OverlayConfig::from_key(duration_ms);
    config
}

#[test]
fn a_zero_overlay_duration_is_kept() {
    let config = overlay_from_file("[overlay]\nduration_ms = 0\n");
    assert!(config.overlay.duration().is_zero());
    assert!(config.to_toml().contains("\nduration_ms = 0\n"));
}

#[test]
fn verbose_logging_follows_the_build_profile() {
    for debug_build in [false, true] {
        let mut config = Config::default();
        assert_eq!(config.verbose_logging(debug_build), debug_build);
        config.logging.verbose = Some(true);
        assert!(config.verbose_logging(debug_build));
    }
}

#[test]
fn a_missing_file_means_defaults() {
    let config = Config::load(None);
    assert!(config.last_opened.is_none());
    assert!(config.logging.enabled);
    assert!(default_enabled());
    let mut explicit = Config::default();
    explicit.overlay.duration_ms = 7;
    assert_eq!(Config::load(Some(explicit)).overlay.duration_ms, 7);
}

#[test]
fn clearing_the_last_opened_folder_keeps_the_rest() {
    let mut config = Config::default();
    config.last_opened = Some(LastOpened { folder: "pics".to_string(), index: 3 });
    config.overlay.duration_ms = 42;
    config.clear_last_opened();
    assert!(config.last_opened.is_none());
    assert_eq!(config.overlay.duration_ms, 42);
}

#[test]
fn the_whole_default_file_is_exact() {
    let expected = "[overlay]\n\
# 画像切り替え時にフォルダ名・ファイル名を表示する時間（ミリ秒）。0 で表示しない。\n\
duration_ms = 5000\n\
\n\
[logging]\n\
enabled = true          # ログ出力する/しない（未指定時のデフォルト: true）\n\
\n\
# 詳細ログ（デバッグ情報）を出力するかどうかの設定。\n\
# デバッグビルドでは常にこの設定に関わらず詳細ログを出力する。\n\
# リリースビルドでは、この項目が未設定または false の場合はエラーのみ出力する。\n\
# 実運用中に不具合の手がかりが欲しい場合のみ、以下のコメントを外して true にしてください。\n\
# verbose = false\n";
    assert_eq!(Config::default().to_toml(), expected);
}

#[test]
fn negative_positions_are_written_with_a_sign() {
    let mut config = Config::default();
    config.window = Some(WindowConfig { x: -1920, y: -5, width: 0, height: 4294967295 });
    let parsed = parse(&config.to_toml());
    assert_eq!(parsed["window"]["x"].as_integer(), Some(-1920));
    assert_eq!(parsed["window"]["y"].as_integer(), Some(-5));
    assert_eq!(parsed["window"]["width"].as_integer(), Some(0));
    assert_eq!(parsed["window"]["height"].as_integer(), Some(4294967295));
}

#[test]
fn quoting_escapes_what_toml_requires() {
    assert_eq!(quote("plain"), "\"plain\"");
    assert_eq!(quote("a\"b\\c"), "\"a\\\"b\\\\c\"");
    assert_eq!(quote("line\nfeed\r\ttab"), "\"line\\nfeed\\r\\ttab\"");
    assert_eq!(quote("\u{1}\u{7f}"), "\"\\u0001\\u007F\"");
    for value in ["plain", "a\"b\\c", "x\ny", "\u{1b}[0m", "写真 フォルダ", "C:\\dir\\sub"] {
        let parsed = parse(&format!("v = {}\n", quote(value)));
        assert_eq!(parsed["v"].as_str(), Some(value));
    }
}

#[test]
fn missing_logging_keys_take_their_defaults() {
    let logging = LoggingConfig::from_keys(None, None);
    assert!(logging.enabled);
    assert_eq!(logging.verbose, None);
    let logging = LoggingConfig::from_keys(Some(false), Some(true));
    assert!(!logging.enabled);
    assert_eq!(logging.verbose, Some(true));
    assert_eq!(OverlayConfig::from_key(Some(250)).duration_ms, 250);
}

#[test]
fn numbers_are_written_so_that_they_read_back() {
    let mut config = Config::default();
    config.window = Some(WindowConfig { x: -42, y: i32::MIN, width: u32::MAX, height: 0 });
    let parsed = parse(&config.to_toml());
    let window = parsed["window"].as_table().expect("window section");
    assert_eq!(window["x"].as_integer(), Some(-42));
    assert_eq!(window["y"].as_integer(), Some(i32::MIN as i64));
    assert_eq!(window["width"].as_integer(), Some(u32::MAX as i64));
    assert_eq!(window["height"].as_integer(), Some(0));
}
