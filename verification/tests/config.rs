//! The configuration.

use itv_relay::binary64::Binary64;
use itv_relay::config::{Config, ConfigError, RawConfig, RawCongestion, RawRun, Run};
use itv_relay::state::CongestionCfg;

fn float(value: f64) -> Binary64 {
    Binary64 { bits: value.to_bits() }
}

fn number(value: Binary64) -> f64 {
    f64::from_bits(value.bits)
}

fn text_in(table: &toml::Table, key: &str) -> Option<String> {
    table.get(key).map(|value| value.as_str().unwrap().to_string())
}

fn count_in(table: &toml::Table, key: &str) -> Option<u32> {
    table.get(key).map(|value| value.as_integer().unwrap() as u32)
}

fn size_in(table: &toml::Table, key: &str) -> Option<usize> {
    table.get(key).map(|value| value.as_integer().unwrap() as usize)
}

fn float_in(table: &toml::Table, key: &str) -> Option<Binary64> {
    table.get(key).map(|value| float(value.as_float().unwrap()))
}

fn raw_run(table: &toml::Table) -> RawRun {
    RawRun {
        name: text_in(table, "name").unwrap(),
        mode: text_in(table, "mode").unwrap(),
        width: count_in(table, "width"),
        height: count_in(table, "height"),
        bitrate: count_in(table, "bitrate"),
        maxrate: count_in(table, "maxrate"),
        bufsize: count_in(table, "bufsize"),
        preset: text_in(table, "preset"),
        audio_bitrate: count_in(table, "audio_bitrate"),
    }
}

fn read(text: &str) -> Config {
    let table: toml::Table = toml::from_str(text).unwrap();
    let congestion = table["congestion"].as_table().unwrap();
    Config::from_raw(RawConfig {
        playlist_path: text_in(&table, "playlist_path").unwrap(),
        listen: text_in(&table, "listen").unwrap(),
        base_url: text_in(&table, "base_url"),
        logo_base: text_in(&table, "logo_base"),
        epg_url: text_in(&table, "epg_url"),
        ladder: table["ladder"]
            .as_array()
            .unwrap()
            .iter()
            .map(|run| raw_run(run.as_table().unwrap()))
            .collect(),
        startup_ladder: size_in(&table, "startup_ladder"),
        startup_hold_s: float_in(&table, "startup_hold_s"),
        switch_timeout_s: float_in(&table, "switch_timeout_s"),
        switch_preroll_bytes: size_in(&table, "switch_preroll_bytes"),
        congestion: RawCongestion {
            down_ratio: float_in(congestion, "down_ratio").unwrap(),
            down_hold_s: float_in(congestion, "down_hold_s").unwrap(),
            up_ratio: float_in(congestion, "up_ratio").unwrap(),
            up_hold_s: float_in(congestion, "up_hold_s").unwrap(),
            up_cooldown_s: float_in(congestion, "up_cooldown_s"),
            down_cooldown_s: float_in(congestion, "down_cooldown_s").unwrap(),
        },
        sample_interval_s: float_in(&table, "sample_interval_s"),
    })
}

fn run(mode: &str, bitrate: u32, maxrate: u32, audio_bitrate: u32) -> Run {
    Run {
        name: "test".into(),
        mode: mode.into(),
        width: 0,
        height: 0,
        bitrate,
        maxrate,
        bufsize: 0,
        preset: "veryfast".into(),
        audio_bitrate,
    }
}

#[test]
fn copy_output_bps_defaults_to_8mbps() {
    assert_eq!(run("copy", 0, 0, 128).output_bps(), 1_000_000);
}

#[test]
fn encode_output_bps_uses_maxrate_plus_audio() {
    assert_eq!(run("encode", 5_000, 5_800, 128).output_bps(), 741_000);
}

#[test]
fn encode_output_bps_falls_back_to_bitrate_when_maxrate_missing() {
    assert_eq!(run("encode", 5_000, 0, 128).output_bps(), 641_000);
}

fn valid_config() -> Config {
    read(
        r#"
playlist_path = "playlist.m3u"
listen = "0.0.0.0:8088"
startup_ladder = 1

[[ladder]]
name = "copy"
mode = "copy"
bitrate = 8000

[[ladder]]
name = "5m"
mode = "encode"
width = 1920
height = 1080
bitrate = 5000
maxrate = 5800
bufsize = 11000
audio_bitrate = 128

[[ladder]]
name = "3m"
mode = "encode"
width = 1920
height = 1080
bitrate = 3000
maxrate = 3500
bufsize = 6500
audio_bitrate = 128

[congestion]
down_ratio = 0.90
down_hold_s = 2.0
up_ratio = 0.97
up_hold_s = 15.0
down_cooldown_s = 8.0
"#,
    )
}

#[test]
fn validate_accepts_descending_ladder() {
    valid_config().validate().unwrap();
}

#[test]
fn validate_rejects_ladder_with_increasing_bitrate() {
    let mut cfg = valid_config();
    cfg.ladder.swap(1, 2);

    let err = cfg.validate().unwrap_err().message();
    assert!(err.contains("must not increase"));
}

#[test]
fn validate_rejects_unknown_ladder_mode() {
    let mut cfg = valid_config();
    cfg.ladder[1].mode = "mystery".into();

    let err = cfg.validate().unwrap_err().message();
    assert!(err.contains("mode must be"));
}

#[test]
fn validate_rejects_encode_ladder_without_dimensions() {
    let mut cfg = valid_config();
    cfg.ladder[1].width = 0;

    let err = cfg.validate().unwrap_err().message();
    assert!(err.contains("width and height"));
}

#[test]
fn validate_rejects_encode_ladder_without_bufsize() {
    let mut cfg = valid_config();
    cfg.ladder[1].bufsize = 0;

    let err = cfg.validate().unwrap_err().message();
    assert!(err.contains("bufsize"));
}

#[test]
fn validate_rejects_encode_ladder_without_audio_bitrate() {
    let mut cfg = valid_config();
    cfg.ladder[1].audio_bitrate = 0;

    let err = cfg.validate().unwrap_err().message();
    assert!(err.contains("audio_bitrate"));
}

#[test]
fn validate_rejects_encode_ladder_without_preset() {
    let mut cfg = valid_config();
    cfg.ladder[1].preset = " ".into();

    let err = cfg.validate().unwrap_err().message();
    assert!(err.contains("preset"));
}

#[test]
fn normalize_clamps_out_of_range_startup_ladder() {
    let mut cfg = valid_config();
    cfg.startup_ladder = cfg.ladder.len();

    cfg.normalize();
    cfg.validate().unwrap();
    assert_eq!(cfg.startup_ladder, cfg.ladder.len() - 1);
}

#[test]
fn single_ladder_default_startup_can_be_normalized() {
    let mut cfg: Config = read(
        r#"
playlist_path = "playlist.m3u"
listen = "0.0.0.0:8088"

[[ladder]]
name = "copy"
mode = "copy"

[congestion]
down_ratio = 0.90
down_hold_s = 2.0
up_ratio = 0.97
up_hold_s = 15.0
down_cooldown_s = 8.0
"#,
    );

    assert_eq!(cfg.startup_ladder, 1);
    cfg.normalize();
    cfg.validate().unwrap();
    assert_eq!(cfg.startup_ladder, 0);
}

#[test]
fn switch_timeout_defaults_to_8_seconds() {
    let cfg: Config = read(
        r#"
playlist_path = "playlist.m3u"
listen = "0.0.0.0:8088"

[[ladder]]
name = "copy"
mode = "copy"

[congestion]
down_ratio = 0.90
down_hold_s = 2.0
up_ratio = 0.97
up_hold_s = 15.0
down_cooldown_s = 8.0
"#,
    );

    assert_eq!(number(cfg.switch_timeout_s), 8.0);
}

#[test]
fn startup_hold_defaults_to_5_seconds() {
    let cfg = valid_config();

    assert_eq!(number(cfg.startup_hold_s), 5.0);
}

#[test]
fn switch_preroll_defaults_to_256kib() {
    let cfg: Config = read(
        r#"
playlist_path = "playlist.m3u"
listen = "0.0.0.0:8088"

[[ladder]]
name = "copy"
mode = "copy"

[congestion]
down_ratio = 0.90
down_hold_s = 2.0
up_ratio = 0.97
up_hold_s = 15.0
down_cooldown_s = 8.0
"#,
    );

    assert_eq!(cfg.switch_preroll_bytes, 256 * 1024);
}

#[test]
fn up_cooldown_defaults_to_20_seconds() {
    let cfg = valid_config();

    assert_eq!(number(cfg.congestion.up_cooldown_s), 20.0);
}

#[test]
fn every_default_is_filled_in() {
    let cfg = read(
        r#"
playlist_path = "playlist.m3u"
listen = "0.0.0.0:8088"

[[ladder]]
name = "copy"
mode = "copy"

[congestion]
down_ratio = 0.90
down_hold_s = 2.0
up_ratio = 0.97
up_hold_s = 15.0
down_cooldown_s = 8.0
"#,
    );
    assert_eq!(
        cfg.logo_base,
        "https://fastly.jsdelivr.net/gh/fanmingming/live@main/tv"
    );
    assert_eq!(cfg.base_url, None);
    assert_eq!(cfg.epg_url, None);
    assert_eq!(cfg.startup_ladder, 1);
    assert_eq!(number(cfg.sample_interval_s), 1.0);
    assert_eq!(cfg.ladder[0].preset, "veryfast");
    assert_eq!(cfg.ladder[0].audio_bitrate, 128);
    assert_eq!(cfg.ladder[0].width, 0);
    assert_eq!(cfg.ladder[0].bitrate, 0);
    assert_eq!(number(cfg.congestion.down_ratio), 0.90);
}

#[test]
fn given_values_are_kept() {
    let cfg = read(
        r#"
playlist_path = "list.m3u"
listen = "127.0.0.1:1"
base_url = "http://box:1"
logo_base = "http://logos"
epg_url = "http://epg"
startup_ladder = 0
startup_hold_s = 1.5
switch_timeout_s = 2.5
switch_preroll_bytes = 100000
sample_interval_s = 0.25

[[ladder]]
name = "e"
mode = "encode"
width = 640
height = 360
bitrate = 500
maxrate = 650
bufsize = 1000
preset = "ultrafast"
audio_bitrate = 96

[congestion]
down_ratio = 0.5
down_hold_s = 2.0
up_ratio = 1.0
up_hold_s = 15.0
up_cooldown_s = 0.0
down_cooldown_s = 0.0
"#,
    );
    assert_eq!(cfg.playlist_path, "list.m3u");
    assert_eq!(cfg.base_url.as_deref(), Some("http://box:1"));
    assert_eq!(cfg.logo_base, "http://logos");
    assert_eq!(cfg.epg_url.as_deref(), Some("http://epg"));
    assert_eq!(cfg.switch_preroll_bytes, 100_000);
    assert_eq!(number(cfg.startup_hold_s), 1.5);
    assert_eq!(number(cfg.switch_timeout_s), 2.5);
    assert_eq!(number(cfg.sample_interval_s), 0.25);
    assert_eq!(cfg.ladder[0].preset, "ultrafast");
    assert_eq!(cfg.ladder[0].output_bps(), 746 * 125);
    assert_eq!(cfg.validate(), Ok(()));
}

#[test]
fn each_number_has_its_error() {
    let mut cfg = valid_config();
    cfg.ladder.clear();
    assert_eq!(cfg.validate(), Err(ConfigError::LadderEmpty));
    let mut cfg = valid_config();
    cfg.sample_interval_s = float(0.0);
    assert_eq!(cfg.validate(), Err(ConfigError::SampleInterval));
    cfg.sample_interval_s = float(f64::NAN);
    assert_eq!(cfg.validate(), Err(ConfigError::SampleInterval));
    let mut cfg = valid_config();
    cfg.startup_hold_s = float(-0.5);
    assert_eq!(cfg.validate(), Err(ConfigError::StartupHold));
    cfg.startup_hold_s = float(-0.0);
    assert_eq!(cfg.validate(), Ok(()));
    let mut cfg = valid_config();
    cfg.switch_timeout_s = float(-1.0);
    assert_eq!(cfg.validate(), Err(ConfigError::SwitchTimeout));
    let mut cfg = valid_config();
    cfg.switch_preroll_bytes = 0;
    assert_eq!(cfg.validate(), Err(ConfigError::SwitchPreroll));
    let mut cfg = valid_config();
    cfg.congestion.down_ratio = float(1.0);
    assert_eq!(cfg.validate(), Err(ConfigError::DownRatio));
    let mut cfg = valid_config();
    cfg.congestion.up_ratio = float(1.0);
    assert_eq!(cfg.validate(), Ok(()));
    cfg.congestion.up_ratio = float(1.0000001);
    assert_eq!(cfg.validate(), Err(ConfigError::UpRatio));
    let mut cfg = valid_config();
    cfg.congestion.down_hold_s = float(0.0);
    assert_eq!(cfg.validate(), Err(ConfigError::DownHold));
    let mut cfg = valid_config();
    cfg.congestion.up_hold_s = float(0.0);
    assert_eq!(cfg.validate(), Err(ConfigError::UpHold));
    let mut cfg = valid_config();
    cfg.congestion.up_cooldown_s = float(-1.0);
    assert_eq!(cfg.validate(), Err(ConfigError::UpCooldown));
    let mut cfg = valid_config();
    cfg.congestion.down_cooldown_s = float(-1.0);
    assert_eq!(cfg.validate(), Err(ConfigError::DownCooldown));
}

#[test]
fn each_ladder_rule_has_its_error() {
    let mut cfg = valid_config();
    cfg.ladder[2].bitrate = 0;
    assert_eq!(cfg.validate(), Err(ConfigError::Bitrate(2)));
    let mut cfg = valid_config();
    cfg.ladder[1].maxrate = 4_999;
    assert_eq!(cfg.validate(), Err(ConfigError::Maxrate(1)));
    cfg.ladder[1].maxrate = 0;
    assert_eq!(cfg.validate(), Ok(()));
    let mut cfg = valid_config();
    cfg.ladder[1].mode = "hwencode".into();
    cfg.ladder[1].width = 0;
    cfg.ladder[1].bufsize = 0;
    assert_eq!(cfg.validate(), Ok(()));
    let mut cfg = valid_config();
    cfg.ladder[2].height = 0;
    assert_eq!(cfg.validate(), Err(ConfigError::Dimensions(2)));
}

#[test]
fn messages_name_the_ladder() {
    assert_eq!(
        ConfigError::Mode(12).message(),
        "ladder[12] mode must be copy, encode, or hwencode"
    );
    assert_eq!(
        ConfigError::Dimensions(0).message(),
        "ladder[0] width and height must be positive for encode mode"
    );
    assert_eq!(
        ConfigError::LadderEmpty.message(),
        "ladder must not be empty"
    );
    assert_eq!(
        ConfigError::UpRatio.message(),
        "congestion.up_ratio must be in 0..=1"
    );
}

#[test]
fn accepting_checks_and_normalizes() {
    let mut cfg = valid_config();
    cfg.startup_ladder = 7;
    assert_eq!(cfg.clone().accept().unwrap().startup_ladder, 2);
    cfg.ladder.clear();
    assert_eq!(cfg.accept().unwrap_err(), ConfigError::LadderEmpty);
}

#[test]
fn thresholds_come_from_the_configuration() {
    let cfg = valid_config();
    let thresholds = CongestionCfg::from(&cfg);
    assert_eq!(number(thresholds.down_ratio), 0.90);
    assert_eq!(number(thresholds.up_ratio), 0.97);
    assert_eq!(number(thresholds.up_cooldown_s), 20.0);
    assert_eq!(number(thresholds.down_cooldown_s), 8.0);
}
