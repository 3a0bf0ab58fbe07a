//! The configuration: defaults, checks and the rates of the ladders.

use crate::binary64;
use crate::binary64::Binary64;
use crate::playlist;
use crate::state::CongestionCfg;
use crate::text;
use crate::text::{chars_of, push_decimal, push_text, same_text, trim_range};
use vstd::prelude::*;

verus! {

/// The bitrate of a ladder that passes the source on, where none is given.
pub const DEFAULT_COPY_BITRATE_KBPS: u32 = 8_000;

/// A ladder.
#[derive(Debug, Clone)]
pub struct Run {
    /// The name, for the log.
    pub name: String,
    /// "copy" passes the source on; "encode" and "hwencode" encode.
    pub mode: String,
    pub width: u32,
    pub height: u32,
    /// The bitrates are in kilobits per second.
    pub bitrate: u32,
    pub maxrate: u32,
    pub bufsize: u32,
    pub preset: String,
    pub audio_bitrate: u32,
}

/// The thresholds for changing the ladder.
#[derive(Debug, Clone, Copy)]
pub struct Congestion {
    pub down_ratio: Binary64,
    /// How long congestion lasts before a step down, in seconds.
    pub down_hold_s: Binary64,
    pub up_ratio: Binary64,
    /// How long the steady state lasts before a step up, in seconds.
    pub up_hold_s: Binary64,
    /// How long after a change there is no step up, in seconds.
    pub up_cooldown_s: Binary64,
    /// How long after a step down there is no other, in seconds.
    pub down_cooldown_s: Binary64,
}

/// The configuration.
#[derive(Debug, Clone)]
pub struct Config {
    /// The m3u file with the channels.
    pub playlist_path: String,
    /// The address to listen on.
    pub listen: String,
    /// The address that players see, where it is given.
    pub base_url: Option<String>,
    /// Where the logos of the channels are found.
    pub logo_base: String,
    /// The programme guide.
    pub epg_url: Option<String>,
    /// The ladders, from the highest bitrate to the lowest.
    pub ladder: Vec<Run>,
    /// The ladder to start with.
    pub startup_ladder: usize,
    /// How long after the start the first move to ladder 0 is tried.
    pub startup_hold_s: Binary64,
    /// How long a new stream may take until its first data.
    pub switch_timeout_s: Binary64,
    /// How much of a new stream is read before it takes over.
    pub switch_preroll_bytes: usize,
    pub congestion: Congestion,
    /// The time between two measurements, in seconds.
    pub sample_interval_s: Binary64,
}

/// A ladder as it is written down.
#[derive(Debug, Clone)]
pub struct RawRun {
    pub name: String,
    pub mode: String,
    pub width: Option<u32>,
    pub height: Option<u32>,
    pub bitrate: Option<u32>,
    pub maxrate: Option<u32>,
    pub bufsize: Option<u32>,
    pub preset: Option<String>,
    pub audio_bitrate: Option<u32>,
}

/// The thresholds as they are written down.
#[derive(Debug, Clone, Copy)]
pub struct RawCongestion {
    pub down_ratio: Binary64,
    pub down_hold_s: Binary64,
    pub up_ratio: Binary64,
    pub up_hold_s: Binary64,
    pub up_cooldown_s: Option<Binary64>,
    pub down_cooldown_s: Binary64,
}

/// The configuration as it is written down.
#[derive(Debug, Clone)]
pub struct RawConfig {
    pub playlist_path: String,
    pub listen: String,
    pub base_url: Option<String>,
    pub logo_base: Option<String>,
    pub epg_url: Option<String>,
    pub ladder: Vec<RawRun>,
    pub startup_ladder: Option<usize>,
    pub startup_hold_s: Option<Binary64>,
    pub switch_timeout_s: Option<Binary64>,
    pub switch_preroll_bytes: Option<usize>,
    pub congestion: RawCongestion,
    pub sample_interval_s: Option<Binary64>,
}

/// What is wrong with a configuration. Those with a number are about the ladder
/// with that index.
#[derive(Debug, Clone, Copy, PartialEq, Eq, Structural)]
pub enum ConfigError {
    LadderEmpty,
    SampleInterval,
    StartupHold,
    SwitchTimeout,
    SwitchPreroll,
    DownRatio,
    UpRatio,
    DownHold,
    UpHold,
    UpCooldown,
    DownCooldown,
    Mode(usize),
    Bitrate(usize),
    Maxrate(usize),
    Dimensions(usize),
    Bufsize(usize),
    AudioBitrate(usize),
    Preset(usize),
    IncreasingBitrate,
}

// ---------------------------------------------------------------------------
// Rates
// ---------------------------------------------------------------------------

/// The greater of two numbers.
pub open spec fn larger(a: u32, b: u32) -> u32 {
    if a >= b {
        a
    } else {
        b
    }
}

/// The bytes per second that a ladder puts out at most.
pub open spec fn output_rate(run: Run) -> int {
    let kbps = if run.mode@ == "copy"@ {
        larger(run.bitrate, DEFAULT_COPY_BITRATE_KBPS) as int
    } else {
        larger(run.maxrate, run.bitrate) + run.audio_bitrate
    };
    kbps * 1000 / 8
}

/// The rates of all ladders.
pub open spec fn output_rates(ladder: Seq<Run>) -> Seq<u64> {
    Seq::new(ladder.len(), |i: int| output_rate(ladder[i]) as u64)
}

impl Run {
    /// The bytes per second that the ladder puts out at most.
    pub fn output_bps(&self) -> (bps: u64)
        ensures
            bps == output_rate(*self),
    {
        let kbps: u64 = if same_text(self.mode.as_str(), "copy") {
            if self.bitrate >= DEFAULT_COPY_BITRATE_KBPS {
                self.bitrate as u64
            } else {
                DEFAULT_COPY_BITRATE_KBPS as u64
            }
        } else {
            let video = if self.maxrate >= self.bitrate {
                self.maxrate
            } else {
                self.bitrate
            };
            video as u64 + self.audio_bitrate as u64
        };
        kbps * 1000 / 8
    }
}

/// The rates of all ladders.
pub fn ladder_rates(ladder: &Vec<Run>) -> (rates: Vec<u64>)
    ensures
        rates@ == output_rates(ladder@),
{
    let mut rates: Vec<u64> = Vec::new();
    let mut i: usize = 0;
    while i < ladder.len()
        invariant
            i <= ladder@.len(),
            rates@ =~= output_rates(ladder@).take(i as int),
        decreases ladder@.len() - i,
    {
        rates.push(ladder[i].output_bps());
        i = i + 1;
    }
    rates
}

// ---------------------------------------------------------------------------
// Checks
// ---------------------------------------------------------------------------

/// What is wrong with ladder `i` taken by itself.
pub open spec fn run_fault(run: Run, i: usize) -> Option<ConfigError> {
    let copies = run.mode@ == "copy"@;
    let encodes = run.mode@ == "encode"@;
    if !copies && !encodes && run.mode@ != "hwencode"@ {
        Some(ConfigError::Mode(i))
    } else if copies {
        None
    } else if run.bitrate == 0 {
        Some(ConfigError::Bitrate(i))
    } else if run.maxrate != 0 && run.maxrate < run.bitrate {
        Some(ConfigError::Maxrate(i))
    } else if !encodes {
        None
    } else if run.width == 0 || run.height == 0 {
        Some(ConfigError::Dimensions(i))
    } else if run.bufsize == 0 {
        Some(ConfigError::Bufsize(i))
    } else if run.audio_bitrate == 0 {
        Some(ConfigError::AudioBitrate(i))
    } else if text::trimmed(run.preset@).len() == 0 {
        Some(ConfigError::Preset(i))
    } else {
        None
    }
}

/// The first fault of the ladders from `i` on.
pub open spec fn ladder_fault(ladder: Seq<Run>, i: int) -> Option<ConfigError>
    decreases ladder.len() - i,
{
    if i < 0 || i >= ladder.len() {
        None
    } else if run_fault(ladder[i], i as usize) is Some {
        run_fault(ladder[i], i as usize)
    } else if i > 0 && output_rate(ladder[i]) > output_rate(ladder[i - 1]) {
        Some(ConfigError::IncreasingBitrate)
    } else {
        ladder_fault(ladder, i + 1)
    }
}

/// The first fault of the numbers outside the ladders.
pub open spec fn number_fault(c: Config) -> Option<ConfigError> {
    let zero = binary64::naught();
    let one = binary64::whole(1);
    if c.ladder@.len() == 0 {
        Some(ConfigError::LadderEmpty)
    } else if !zero.below(c.sample_interval_s) {
        Some(ConfigError::SampleInterval)
    } else if !zero.not_above(c.startup_hold_s) {
        Some(ConfigError::StartupHold)
    } else if !zero.below(c.switch_timeout_s) {
        Some(ConfigError::SwitchTimeout)
    } else if c.switch_preroll_bytes == 0 {
        Some(ConfigError::SwitchPreroll)
    } else if !zero.not_above(c.congestion.down_ratio) || !c.congestion.down_ratio.below(one) {
        Some(ConfigError::DownRatio)
    } else if !zero.not_above(c.congestion.up_ratio) || !c.congestion.up_ratio.not_above(one) {
        Some(ConfigError::UpRatio)
    } else if !zero.below(c.congestion.down_hold_s) {
        Some(ConfigError::DownHold)
    } else if !zero.below(c.congestion.up_hold_s) {
        Some(ConfigError::UpHold)
    } else if !zero.not_above(c.congestion.up_cooldown_s) {
        Some(ConfigError::UpCooldown)
    } else if !zero.not_above(c.congestion.down_cooldown_s) {
        Some(ConfigError::DownCooldown)
    } else {
        None
    }
}

/// The first fault of a configuration.
pub open spec fn fault(c: Config) -> Option<ConfigError> {
    if number_fault(c) is Some {
        number_fault(c)
    } else {
        ladder_fault(c.ladder@, 0)
    }
}

/// A verdict on a fault.
pub open spec fn verdict(fault: Option<ConfigError>) -> Result<(), ConfigError> {
    match fault {
        Some(error) => Err(error),
        None => Ok(()),
    }
}

fn check_run(run: &Run, i: usize) -> (result: Result<(), ConfigError>)
    ensures
        result == verdict(run_fault(*run, i)),
{
    let copies = same_text(run.mode.as_str(), "copy");
    let encodes = same_text(run.mode.as_str(), "encode");
    if !copies && !encodes && !same_text(run.mode.as_str(), "hwencode") {
        return Err(ConfigError::Mode(i));
    }
    if copies {
        return Ok(());
    }
    if run.bitrate == 0 {
        return Err(ConfigError::Bitrate(i));
    }
    if run.maxrate != 0 && run.maxrate < run.bitrate {
        return Err(ConfigError::Maxrate(i));
    }
    if encodes {
        if run.width == 0 || run.height == 0 {
            return Err(ConfigError::Dimensions(i));
        }
        if run.bufsize == 0 {
            return Err(ConfigError::Bufsize(i));
        }
        if run.audio_bitrate == 0 {
            return Err(ConfigError::AudioBitrate(i));
        }
        let preset = chars_of(run.preset.as_str());
        let (start, end) = trim_range(&preset, 0, preset.len());
        assert(preset@.subrange(0, preset@.len() as int) =~= run.preset@);
        if start == end {
            return Err(ConfigError::Preset(i));
        }
    }
    Ok(())
}

impl Config {
    /// Finds the first fault.
    pub fn validate(&self) -> (result: Result<(), ConfigError>)
        ensures
            result == verdict(fault(*self)),
    {
        let zero = Binary64::zero();
        let one = Binary64::from_u64(1);
        if self.ladder.len() == 0 {
            return Err(ConfigError::LadderEmpty);
        }
        if !zero.lt(self.sample_interval_s) {
            return Err(ConfigError::SampleInterval);
        }
        if !zero.le(self.startup_hold_s) {
            return Err(ConfigError::StartupHold);
        }
        if !zero.lt(self.switch_timeout_s) {
            return Err(ConfigError::SwitchTimeout);
        }
        if self.switch_preroll_bytes == 0 {
            return Err(ConfigError::SwitchPreroll);
        }
        if !zero.le(self.congestion.down_ratio) || !self.congestion.down_ratio.lt(one) {
            return Err(ConfigError::DownRatio);
        }
        if !zero.le(self.congestion.up_ratio) || !self.congestion.up_ratio.le(one) {
            return Err(ConfigError::UpRatio);
        }
        if !zero.lt(self.congestion.down_hold_s) {
            return Err(ConfigError::DownHold);
        }
        if !zero.lt(self.congestion.up_hold_s) {
            return Err(ConfigError::UpHold);
        }
        if !zero.le(self.congestion.up_cooldown_s) {
            return Err(ConfigError::UpCooldown);
        }
        if !zero.le(self.congestion.down_cooldown_s) {
            return Err(ConfigError::DownCooldown);
        }
        let mut prev_bps: u64 = u64::MAX;
        let mut i: usize = 0;
        while i < self.ladder.len()
            invariant
                i <= self.ladder@.len(),
                number_fault(*self) is None,
                ladder_fault(self.ladder@, 0) == ladder_fault(self.ladder@, i as int),
                i == 0 ==> prev_bps == u64::MAX,
                i > 0 ==> prev_bps == output_rate(self.ladder@[i - 1]),
            decreases self.ladder@.len() - i,
        {
            check_run(&self.ladder[i], i)?;
            let bps = self.ladder[i].output_bps();
            if bps > prev_bps {
                return Err(ConfigError::IncreasingBitrate);
            }
            prev_bps = bps;
            i = i + 1;
        }
        Ok(())
    }

    /// Takes the last ladder to start with where the given one does not exist.
    pub fn normalize(&mut self)
        ensures
            *final(self) == normalized(*old(self)),
    {
        if self.ladder.len() > 0 && self.startup_ladder >= self.ladder.len() {
            self.startup_ladder = self.ladder.len() - 1;
        }
    }
}

/// A message about the ladder with index `i`.
pub open spec fn ladder_message(i: usize, what: Seq<char>) -> Seq<char> {
    "ladder["@ + text::decimal(i as int) + "] "@ + what
}

/// The text of an error.
pub open spec fn error_message(error: ConfigError) -> Seq<char> {
    match error {
        ConfigError::LadderEmpty => "ladder must not be empty"@,
        ConfigError::SampleInterval => "sample_interval_s must be positive"@,
        ConfigError::StartupHold => "startup_hold_s must be non-negative"@,
        ConfigError::SwitchTimeout => "switch_timeout_s must be positive"@,
        ConfigError::SwitchPreroll => "switch_preroll_bytes must be positive"@,
        ConfigError::DownRatio => "congestion.down_ratio must be in 0..1"@,
        ConfigError::UpRatio => "congestion.up_ratio must be in 0..=1"@,
        ConfigError::DownHold => "congestion.down_hold_s must be positive"@,
        ConfigError::UpHold => "congestion.up_hold_s must be positive"@,
        ConfigError::UpCooldown => "congestion.up_cooldown_s must be non-negative"@,
        ConfigError::DownCooldown => "congestion.down_cooldown_s must be non-negative"@,
        ConfigError::IncreasingBitrate => "ladder output bitrate must not increase with index"@,
        ConfigError::Mode(i) => ladder_message(i, "mode must be copy, encode, or hwencode"@),
        ConfigError::Bitrate(i) => ladder_message(i, "bitrate must be positive for encode modes"@),
        ConfigError::Maxrate(i) => ladder_message(i, "maxrate must be >= bitrate when set"@),
        ConfigError::Dimensions(i) => ladder_message(i, "width and height must be positive for encode mode"@),
        ConfigError::Bufsize(i) => ladder_message(i, "bufsize must be positive for encode mode"@),
        ConfigError::AudioBitrate(i) => ladder_message(i, "audio_bitrate must be positive for encode mode"@),
        ConfigError::Preset(i) => ladder_message(i, "preset must not be empty for encode mode"@),
    }
}

fn about_ladder(i: usize, what: &str) -> (message: String)
    ensures
        message@ == ladder_message(i, what@),
{
    let mut message = String::new();
    push_text(&mut message, "ladder[");
    push_decimal(&mut message, i as u64);
    push_text(&mut message, "] ");
    push_text(&mut message, what);
    assert(message@ =~= ladder_message(i, what@));
    message
}

impl ConfigError {
    /// The text of the error.
    pub fn message(&self) -> (message: String)
        ensures
            message@ == error_message(*self),
    {
        match *self {
            ConfigError::LadderEmpty => "ladder must not be empty".to_owned(),
            ConfigError::SampleInterval => "sample_interval_s must be positive".to_owned(),
            ConfigError::StartupHold => "startup_hold_s must be non-negative".to_owned(),
            ConfigError::SwitchTimeout => "switch_timeout_s must be positive".to_owned(),
            ConfigError::SwitchPreroll => "switch_preroll_bytes must be positive".to_owned(),
            ConfigError::DownRatio => "congestion.down_ratio must be in 0..1".to_owned(),
            ConfigError::UpRatio => "congestion.up_ratio must be in 0..=1".to_owned(),
            ConfigError::DownHold => "congestion.down_hold_s must be positive".to_owned(),
            ConfigError::UpHold => "congestion.up_hold_s must be positive".to_owned(),
            ConfigError::UpCooldown => "congestion.up_cooldown_s must be non-negative".to_owned(),
            ConfigError::DownCooldown => "congestion.down_cooldown_s must be non-negative".to_owned(),
            ConfigError::IncreasingBitrate => "ladder output bitrate must not increase with index".to_owned(),
            ConfigError::Mode(i) => about_ladder(i, "mode must be copy, encode, or hwencode"),
            ConfigError::Bitrate(i) => about_ladder(i, "bitrate must be positive for encode modes"),
            ConfigError::Maxrate(i) => about_ladder(i, "maxrate must be >= bitrate when set"),
            ConfigError::Dimensions(i) => about_ladder(i, "width and height must be positive for encode mode"),
            ConfigError::Bufsize(i) => about_ladder(i, "bufsize must be positive for encode mode"),
            ConfigError::AudioBitrate(i) => about_ladder(i, "audio_bitrate must be positive for encode mode"),
            ConfigError::Preset(i) => about_ladder(i, "preset must not be empty for encode mode"),
        }
    }
}

// ---------------------------------------------------------------------------
// Defaults
// ---------------------------------------------------------------------------

/// A value that may be left out.
pub open spec fn or_else<T>(given: Option<T>, default: T) -> T {
    match given {
        Some(value) => value,
        None => default,
    }
}

/// `run` is what `raw` says, with nothing for what it leaves out but the
/// preset and the bitrate of the sound.
pub open spec fn completes_run(raw: RawRun, run: Run) -> bool {
    &&& run.name@ == raw.name@
    &&& run.mode@ == raw.mode@
    &&& run.width == or_else(raw.width, 0)
    &&& run.height == or_else(raw.height, 0)
    &&& run.bitrate == or_else(raw.bitrate, 0)
    &&& run.maxrate == or_else(raw.maxrate, 0)
    &&& run.bufsize == or_else(raw.bufsize, 0)
    &&& run.preset@ == or_else(playlist::characters(raw.preset), "veryfast"@)
    &&& run.audio_bitrate == or_else(raw.audio_bitrate, 128)
}

/// `c` is what `raw` says, with the defaults for what it leaves out.
pub open spec fn completes(raw: RawConfig, c: Config) -> bool {
    &&& c.playlist_path@ == raw.playlist_path@
    &&& c.listen@ == raw.listen@
    &&& playlist::characters(c.base_url) == playlist::characters(raw.base_url)
    &&& c.logo_base@ == or_else(
        playlist::characters(raw.logo_base),
        "https://fastly.jsdelivr.net/gh/fanmingming/live@main/tv"@,
    )
    &&& playlist::characters(c.epg_url) == playlist::characters(raw.epg_url)
    &&& c.ladder@.len() == raw.ladder@.len()
    &&& forall|i: int|
        0 <= i < raw.ladder@.len() ==> completes_run(#[trigger] raw.ladder@[i], c.ladder@[i])
    &&& c.startup_ladder == or_else(raw.startup_ladder, 1)
    &&& c.startup_hold_s == or_else(raw.startup_hold_s, binary64::whole(5))
    &&& c.switch_timeout_s == or_else(raw.switch_timeout_s, binary64::whole(8))
    &&& c.switch_preroll_bytes == or_else(raw.switch_preroll_bytes, 262_144)
    &&& c.sample_interval_s == or_else(raw.sample_interval_s, binary64::whole(1))
    &&& c.congestion == Congestion {
        down_ratio: raw.congestion.down_ratio,
        down_hold_s: raw.congestion.down_hold_s,
        up_ratio: raw.congestion.up_ratio,
        up_hold_s: raw.congestion.up_hold_s,
        up_cooldown_s: or_else(raw.congestion.up_cooldown_s, binary64::whole(20)),
        down_cooldown_s: raw.congestion.down_cooldown_s,
    }
}

fn given_or<T>(given: Option<T>, default: T) -> (value: T)
    ensures
        value == or_else(given, default),
{
    match given {
        Some(value) => value,
        None => default,
    }
}

impl Run {
    /// A ladder with the defaults for what is left out.
    pub fn from_raw(raw: &RawRun) -> (run: Run)
        ensures
            completes_run(*raw, run),
    {
        Run {
            name: raw.name.clone(),
            mode: raw.mode.clone(),
            width: given_or(raw.width, 0),
            height: given_or(raw.height, 0),
            bitrate: given_or(raw.bitrate, 0),
            maxrate: given_or(raw.maxrate, 0),
            bufsize: given_or(raw.bufsize, 0),
            preset: match &raw.preset {
                Some(preset) => preset.clone(),
                None => "veryfast".to_owned(),
            },
            audio_bitrate: given_or(raw.audio_bitrate, 128),
        }
    }
}

/// The configuration with a ladder to start with that exists.
pub open spec fn normalized(c: Config) -> Config {
    Config {
        startup_ladder: if c.ladder@.len() > 0 && c.startup_ladder >= c.ladder@.len() {
            (c.ladder@.len() - 1) as usize
        } else {
            c.startup_ladder
        },
        ..c
    }
}

/// The configuration to run with.
pub open spec fn accepted(c: Config) -> Result<Config, ConfigError> {
    match fault(c) {
        Some(error) => Err(error),
        None => Ok(normalized(c)),
    }
}

impl Config {
    /// A configuration with the defaults for what is left out.
    pub fn from_raw(raw: RawConfig) -> (c: Config)
        ensures
            completes(raw, c),
    {
        let mut ladder: Vec<Run> = Vec::new();
        let mut i: usize = 0;
        while i < raw.ladder.len()
            invariant
                i <= raw.ladder@.len(),
                ladder@.len() == i,
                forall|k: int|
                    0 <= k < i ==> completes_run(#[trigger] raw.ladder@[k], ladder@[k]),
            decreases raw.ladder@.len() - i,
        {
            ladder.push(Run::from_raw(&raw.ladder[i]));
            i = i + 1;
        }
        Config {
            playlist_path: raw.playlist_path,
            listen: raw.listen,
            base_url: raw.base_url,
            logo_base: match raw.logo_base {
                Some(base) => base,
                None => "https://fastly.jsdelivr.net/gh/fanmingming/live@main/tv".to_owned(),
            },
            epg_url: raw.epg_url,
            ladder,
            startup_ladder: given_or(raw.startup_ladder, 1),
            startup_hold_s: given_or(raw.startup_hold_s, Binary64::from_u64(5)),
            switch_timeout_s: given_or(raw.switch_timeout_s, Binary64::from_u64(8)),
            switch_preroll_bytes: given_or(raw.switch_preroll_bytes, 262_144),
            congestion: Congestion {
                down_ratio: raw.congestion.down_ratio,
                down_hold_s: raw.congestion.down_hold_s,
                up_ratio: raw.congestion.up_ratio,
                up_hold_s: raw.congestion.up_hold_s,
                up_cooldown_s: given_or(raw.congestion.up_cooldown_s, Binary64::from_u64(20)),
                down_cooldown_s: raw.congestion.down_cooldown_s,
            },
            sample_interval_s: given_or(raw.sample_interval_s, Binary64::from_u64(1)),
        }
    }

    /// The configuration to run with: without fault, and with a ladder to start
    /// with that exists.
    pub fn accept(self) -> (result: Result<Config, ConfigError>)
        ensures
            result == accepted(self),
            result == match fault(self) {
                Some(error) => Err::<Config, ConfigError>(error),
                None => Ok(normalized(self)),
            },
    {
        match self.validate() {
            Err(error) => Err(error),
            Ok(()) => {
                let mut accepted = self;
                accepted.normalize();
                Ok(accepted)
            },
        }
    }
}

impl<'a> From<&'a Config> for CongestionCfg {
    fn from(c: &'a Config) -> (cfg: CongestionCfg) {
        CongestionCfg {
            down_ratio: c.congestion.down_ratio,
            down_hold_s: c.congestion.down_hold_s,
            up_ratio: c.congestion.up_ratio,
            up_hold_s: c.congestion.up_hold_s,
            up_cooldown_s: c.congestion.up_cooldown_s,
            down_cooldown_s: c.congestion.down_cooldown_s,
        }
    }
}

impl<'a> vstd::std_specs::convert::FromSpecImpl<&'a Config> for CongestionCfg {
    open spec fn obeys_from_spec() -> bool {
        true
    }

    open spec fn from_spec(c: &'a Config) -> CongestionCfg {
        CongestionCfg {
            down_ratio: c.congestion.down_ratio,
            down_hold_s: c.congestion.down_hold_s,
            up_ratio: c.congestion.up_ratio,
            up_hold_s: c.congestion.up_hold_s,
            up_cooldown_s: c.congestion.up_cooldown_s,
            down_cooldown_s: c.congestion.down_cooldown_s,
        }
    }
}

// ---------------------------------------------------------------------------
// Laws
// ---------------------------------------------------------------------------

proof fn lemma_ladder_without_fault(ladder: Seq<Run>, i: int, j: int)
    requires
        0 <= i <= j < ladder.len(),
        ladder_fault(ladder, i) is None,
    ensures
        ladder_fault(ladder, j) is None,
        run_fault(ladder[j], j as usize) is None,
        output_rate(ladder[j]) <= output_rate(ladder[i]),
    decreases j - i,
{
    if i < j {
        lemma_ladder_without_fault(ladder, i + 1, j);
    }
}

/// The ladders of a configuration without fault are each in order, and their
/// rates do not increase with the index.
pub proof fn law_valid_ladder_descends(c: Config, i: int, j: int)
    requires
        fault(c) is None,
        0 <= i <= j < c.ladder@.len(),
    ensures
        output_rate(c.ladder@[j]) <= output_rate(c.ladder@[i]),
        run_fault(c.ladder@[j], j as usize) is None,
{
    lemma_ladder_without_fault(c.ladder@, 0, i);
    lemma_ladder_without_fault(c.ladder@, i, j);
}

/// The ladder to start with exists once it is normalized; nothing else changes,
/// and whether the configuration has a fault does not change either.
pub proof fn law_normalized_starts(c: Config)
    requires
        c.ladder@.len() > 0,
    ensures
        normalized(c).startup_ladder < c.ladder@.len(),
        normalized(c) == (Config { startup_ladder: normalized(c).startup_ladder, ..c }),
        c.startup_ladder < c.ladder@.len() ==> normalized(c) == c,
        normalized(normalized(c)) == normalized(c),
        fault(normalized(c)) == fault(c),
{
}

/// A ladder that passes the source on puts out its bitrate, at least 8000 kilobits
/// per second; any other the greater of its two bitrates and the sound. A kilobit
/// is 125 bytes.
pub proof fn law_output_rate(run: Run)
    ensures
        run.mode@ == "copy"@ && run.bitrate >= 8000 ==> output_rate(run) == 125 * run.bitrate,
        run.mode@ == "copy"@ && run.bitrate < 8000 ==> output_rate(run) == 1_000_000,
        run.mode@ != "copy"@ && run.maxrate >= run.bitrate ==> output_rate(run) == 125 * (
        run.maxrate + run.audio_bitrate),
        run.mode@ != "copy"@ && run.maxrate < run.bitrate ==> output_rate(run) == 125 * (
        run.bitrate + run.audio_bitrate),
        0 <= output_rate(run) <= u64::MAX,
{
}

/// The rates of the ladders are those of each.
pub proof fn law_output_rates(ladder: Seq<Run>, i: int)
    requires
        0 <= i < ladder.len(),
    ensures
        output_rates(ladder).len() == ladder.len(),
        output_rates(ladder)[i] == output_rate(ladder[i]),
{
    law_output_rate(ladder[i]);
}

/// Whether a number is above zero.
pub open spec fn positive(x: Binary64) -> bool {
    !x.nan() && x.value() > 0
}

/// Whether a number is not below zero.
pub open spec fn not_negative(x: Binary64) -> bool {
    !x.nan() && x.value() >= 0
}

/// What is asked of the numbers outside the ladders, in the order in which it is
/// looked at, each with the error where it is not so.
pub open spec fn demands(c: Config) -> Seq<(bool, ConfigError)> {
    seq![
        (c.ladder@.len() > 0, ConfigError::LadderEmpty),
        (positive(c.sample_interval_s), ConfigError::SampleInterval),
        (not_negative(c.startup_hold_s), ConfigError::StartupHold),
        (positive(c.switch_timeout_s), ConfigError::SwitchTimeout),
        (c.switch_preroll_bytes > 0, ConfigError::SwitchPreroll),
        (
            not_negative(c.congestion.down_ratio) && c.congestion.down_ratio.value()
                < binary64::unit(),
            ConfigError::DownRatio,
        ),
        (
            not_negative(c.congestion.up_ratio) && c.congestion.up_ratio.value()
                <= binary64::unit(),
            ConfigError::UpRatio,
        ),
        (positive(c.congestion.down_hold_s), ConfigError::DownHold),
        (positive(c.congestion.up_hold_s), ConfigError::UpHold),
        (not_negative(c.congestion.up_cooldown_s), ConfigError::UpCooldown),
        (not_negative(c.congestion.down_cooldown_s), ConfigError::DownCooldown),
    ]
}

/// What is asked of a ladder, in the order in which it is looked at, each with the
/// error where it is not so.
pub open spec fn ladder_demands(run: Run, i: usize) -> Seq<(bool, ConfigError)> {
    let copies = run.mode@ == "copy"@;
    let encodes = run.mode@ == "encode"@;
    seq![
        (copies || encodes || run.mode@ == "hwencode"@, ConfigError::Mode(i)),
        (copies || run.bitrate > 0, ConfigError::Bitrate(i)),
        (copies || run.maxrate == 0 || run.maxrate >= run.bitrate, ConfigError::Maxrate(i)),
        (!encodes || (run.width > 0 && run.height > 0), ConfigError::Dimensions(i)),
        (!encodes || run.bufsize > 0, ConfigError::Bufsize(i)),
        (!encodes || run.audio_bitrate > 0, ConfigError::AudioBitrate(i)),
        (!encodes || !text::blank(run.preset@), ConfigError::Preset(i)),
    ]
}

/// Whether `fault` is the error of the first demand that is not met; none where
/// all are.
pub open spec fn first_unmet(
    demands: Seq<(bool, ConfigError)>,
    fault: Option<ConfigError>,
) -> bool {
    match fault {
        Some(error) => exists|k: int|
            {
                &&& 0 <= k < demands.len()
                &&& !(#[trigger] demands[k]).0
                &&& demands[k].1 == error
                &&& forall|j: int| 0 <= j < k ==> (#[trigger] demands[j]).0
            },
        None => forall|k: int| 0 <= k < demands.len() ==> (#[trigger] demands[k]).0,
    }
}

proof fn lemma_first_unmet(demands: Seq<(bool, ConfigError)>, k: int)
    requires
        0 <= k < demands.len(),
        !demands[k].0,
        forall|j: int| 0 <= j < k ==> (#[trigger] demands[j]).0,
    ensures
        first_unmet(demands, Some(demands[k].1)),
{
}

/// The first demand on the numbers that is not met is what is wrong with them.
#[verifier::spinoff_prover]
pub proof fn law_number_fault(c: Config)
    ensures
        first_unmet(demands(c), number_fault(c)),
{
    binary64::law_whole_exact(1);
    assert(1 * binary64::unit() == binary64::unit());
    assert(binary64::magnitude(0) == 0);
    assert(binary64::naught().value() == 0);
    let d = demands(c);
    if !d[0].0 {
        lemma_first_unmet(d, 0);
    } else if !d[1].0 {
        lemma_first_unmet(d, 1);
    } else if !d[2].0 {
        lemma_first_unmet(d, 2);
    } else if !d[3].0 {
        lemma_first_unmet(d, 3);
    } else if !d[4].0 {
        lemma_first_unmet(d, 4);
    } else if !d[5].0 {
        lemma_first_unmet(d, 5);
    } else if !d[6].0 {
        lemma_first_unmet(d, 6);
    } else if !d[7].0 {
        lemma_first_unmet(d, 7);
    } else if !d[8].0 {
        lemma_first_unmet(d, 8);
    } else if !d[9].0 {
        lemma_first_unmet(d, 9);
    } else if !d[10].0 {
        lemma_first_unmet(d, 10);
    }
}

proof fn lemma_blank(s: Seq<char>)
    ensures
        text::trimmed(s).len() == 0 <==> text::blank(s),
{
    let parts = text::law_trimmed_splits(s);
    let none = Seq::<char>::empty();
    if text::blank(s) {
        assert(s + none + none =~= s);
        text::law_trimmed_between(s, none, none);
    }
    if text::trimmed(s).len() == 0 {
        assert forall|i: int| 0 <= i < s.len() implies text::is_space(#[trigger] s[i]) by {
            if i < parts.0.len() {
                assert(s[i] == parts.0[i]);
            } else {
                assert(s[i] == parts.1[i - parts.0.len()]);
            }
        }
    }
}

/// The first demand on a ladder that is not met is what is wrong with it.
#[verifier::spinoff_prover]
pub proof fn law_run_fault(run: Run, i: usize)
    ensures
        first_unmet(ladder_demands(run, i), run_fault(run, i)),
{
    lemma_blank(run.preset@);
    reveal_strlit("copy");
    reveal_strlit("encode");
    reveal_strlit("hwencode");
    assert("copy"@.len() == 4 && "encode"@.len() == 6 && "hwencode"@.len() == 8);
    let d = ladder_demands(run, i);
    if !d[0].0 {
        lemma_first_unmet(d, 0);
    } else if !d[1].0 {
        lemma_first_unmet(d, 1);
    } else if !d[2].0 {
        lemma_first_unmet(d, 2);
    } else if !d[3].0 {
        lemma_first_unmet(d, 3);
    } else if !d[4].0 {
        lemma_first_unmet(d, 4);
    } else if !d[5].0 {
        lemma_first_unmet(d, 5);
    } else if !d[6].0 {
        lemma_first_unmet(d, 6);
    }
}

proof fn lemma_ladder_fault(ladder: Seq<Run>, i: int) -> (at: int)
    requires
        0 <= i,
    ensures
        match ladder_fault(ladder, i) {
            None => forall|j: int|
                i <= j < ladder.len() ==> run_fault(#[trigger] ladder[j], j as usize) is None && (j
                    > 0 ==> output_rate(ladder[j]) <= output_rate(ladder[j - 1])),
            Some(error) => {
                &&& i <= at < ladder.len()
                &&& forall|j: int|
                    i <= j < at ==> run_fault(#[trigger] ladder[j], j as usize) is None && (j > 0
                        ==> output_rate(ladder[j]) <= output_rate(ladder[j - 1]))
                &&& run_fault(ladder[at], at as usize) == Some(error) || (run_fault(
                    ladder[at],
                    at as usize,
                ) is None && error == ConfigError::IncreasingBitrate && at > 0 && output_rate(
                    ladder[at],
                ) > output_rate(ladder[at - 1]))
            },
        },
    decreases ladder.len() - i,
{
    if i >= ladder.len() || run_fault(ladder[i], i as usize) is Some || (i > 0 && output_rate(
        ladder[i],
    ) > output_rate(ladder[i - 1])) {
        i
    } else {
        lemma_ladder_fault(ladder, i + 1)
    }
}

/// What is wrong with a configuration: what is wrong with its numbers, and where
/// these are in order, with the first ladder that has a fault of its own or puts
/// out more than the one before it. `at` tells which ladder that is. A
/// configuration is without fault where its numbers and ladders are, and no ladder
/// puts out more than the one before it.
pub proof fn law_fault(c: Config) -> (at: int)
    ensures
        number_fault(c) is Some ==> fault(c) == number_fault(c),
        number_fault(c) is None ==> match fault(c) {
            None => forall|j: int|
                0 <= j < c.ladder@.len() ==> run_fault(#[trigger] c.ladder@[j], j as usize) is None
                    && (j > 0 ==> output_rate(c.ladder@[j]) <= output_rate(c.ladder@[j - 1])),
            Some(error) => {
                &&& 0 <= at < c.ladder@.len()
                &&& forall|j: int|
                    0 <= j < at ==> run_fault(#[trigger] c.ladder@[j], j as usize) is None && (j
                        > 0 ==> output_rate(c.ladder@[j]) <= output_rate(c.ladder@[j - 1]))
                &&& run_fault(c.ladder@[at], at as usize) == Some(error) || (run_fault(
                    c.ladder@[at],
                    at as usize,
                ) is None && error == ConfigError::IncreasingBitrate && at > 0 && output_rate(
                    c.ladder@[at],
                ) > output_rate(c.ladder@[at - 1]))
            },
        },
        verdict(fault(c)) == match fault(c) {
            Some(error) => Err::<(), ConfigError>(error),
            None => Ok(()),
        },
{
    lemma_ladder_fault(c.ladder@, 0)
}

/// What is run with is the configuration itself but for the ladder to start with;
/// one with a fault is refused with it.
pub proof fn law_accepted(c: Config)
    ensures
        fault(c) is Some ==> accepted(c) == Err::<Config, ConfigError>(fault(c)->0),
        fault(c) is None ==> {
            &&& accepted(c) == Ok::<Config, ConfigError>(normalized(c))
            &&& normalized(c) == (Config { startup_ladder: normalized(c).startup_ladder, ..c })
            &&& normalized(c).startup_ladder == if c.startup_ladder < c.ladder@.len() {
                c.startup_ladder as int
            } else {
                c.ladder@.len() - 1
            }
        },
{
}

/// A ladder to start with that does not exist gives way to the last one.
pub proof fn law_last_ladder_starts(c: Config)
    requires
        c.ladder@.len() > 0,
        c.startup_ladder >= c.ladder@.len(),
    ensures
        normalized(c).startup_ladder == c.ladder@.len() - 1,
{
}

/// What is written down is taken over, and what is left out has a default: for a
/// ladder zero, but `veryfast` for the preset and 128 kilobits for the sound.
pub proof fn law_run_defaults(raw: RawRun, run: Run)
    requires
        completes_run(raw, run),
    ensures
        run.name@ == raw.name@,
        run.mode@ == raw.mode@,
        raw.width is Some ==> run.width == raw.width->0,
        raw.width is None ==> run.width == 0,
        raw.height is Some ==> run.height == raw.height->0,
        raw.height is None ==> run.height == 0,
        raw.bitrate is Some ==> run.bitrate == raw.bitrate->0,
        raw.bitrate is None ==> run.bitrate == 0,
        raw.maxrate is Some ==> run.maxrate == raw.maxrate->0,
        raw.maxrate is None ==> run.maxrate == 0,
        raw.bufsize is Some ==> run.bufsize == raw.bufsize->0,
        raw.bufsize is None ==> run.bufsize == 0,
        raw.preset is Some ==> run.preset@ == (raw.preset->0)@,
        raw.preset is None ==> run.preset@ == "veryfast"@,
        raw.audio_bitrate is Some ==> run.audio_bitrate == raw.audio_bitrate->0,
        raw.audio_bitrate is None ==> run.audio_bitrate == 128,
{
}

/// What is written down is taken over, and what is left out has a default: ladder
/// 1 to start with, five seconds before the first move, eight seconds for a new
/// stream and 256 kibibytes of it, a second between measurements, and twenty
/// seconds before a step up.
pub proof fn law_defaults(raw: RawConfig, c: Config, i: int)
    requires
        completes(raw, c),
    ensures
        c.playlist_path@ == raw.playlist_path@,
        c.listen@ == raw.listen@,
        raw.base_url is Some <==> c.base_url is Some,
        raw.base_url is Some ==> (c.base_url->0)@ == (raw.base_url->0)@,
        raw.logo_base is Some ==> c.logo_base@ == (raw.logo_base->0)@,
        raw.logo_base is None ==> c.logo_base@
            == "https://fastly.jsdelivr.net/gh/fanmingming/live@main/tv"@,
        raw.epg_url is Some <==> c.epg_url is Some,
        raw.epg_url is Some ==> (c.epg_url->0)@ == (raw.epg_url->0)@,
        c.ladder@.len() == raw.ladder@.len(),
        0 <= i < raw.ladder@.len() ==> completes_run(raw.ladder@[i], c.ladder@[i]),
        raw.startup_ladder is Some ==> c.startup_ladder == raw.startup_ladder->0,
        raw.startup_ladder is None ==> c.startup_ladder == 1,
        raw.startup_hold_s is Some ==> c.startup_hold_s == raw.startup_hold_s->0,
        raw.startup_hold_s is None ==> c.startup_hold_s == binary64::whole(5),
        raw.switch_timeout_s is Some ==> c.switch_timeout_s == raw.switch_timeout_s->0,
        raw.switch_timeout_s is None ==> c.switch_timeout_s == binary64::whole(8),
        raw.switch_preroll_bytes is Some ==> c.switch_preroll_bytes == raw.switch_preroll_bytes->0,
        raw.switch_preroll_bytes is None ==> c.switch_preroll_bytes == 262_144,
        raw.sample_interval_s is Some ==> c.sample_interval_s == raw.sample_interval_s->0,
        raw.sample_interval_s is None ==> c.sample_interval_s == binary64::whole(1),
        c.congestion.down_ratio == raw.congestion.down_ratio,
        c.congestion.down_hold_s == raw.congestion.down_hold_s,
        c.congestion.up_ratio == raw.congestion.up_ratio,
        c.congestion.up_hold_s == raw.congestion.up_hold_s,
        raw.congestion.up_cooldown_s is Some ==> c.congestion.up_cooldown_s
            == raw.congestion.up_cooldown_s->0,
        raw.congestion.up_cooldown_s is None ==> c.congestion.up_cooldown_s == binary64::whole(20),
        c.congestion.down_cooldown_s == raw.congestion.down_cooldown_s,
{
}

/// What is said of each error.
pub proof fn law_error_messages(i: usize)
    ensures
        error_message(ConfigError::LadderEmpty) == "ladder must not be empty"@,
        error_message(ConfigError::SampleInterval) == "sample_interval_s must be positive"@,
        error_message(ConfigError::StartupHold) == "startup_hold_s must be non-negative"@,
        error_message(ConfigError::SwitchTimeout) == "switch_timeout_s must be positive"@,
        error_message(ConfigError::SwitchPreroll) == "switch_preroll_bytes must be positive"@,
        error_message(ConfigError::DownRatio) == "congestion.down_ratio must be in 0..1"@,
        error_message(ConfigError::UpRatio) == "congestion.up_ratio must be in 0..=1"@,
        error_message(ConfigError::DownHold) == "congestion.down_hold_s must be positive"@,
        error_message(ConfigError::UpHold) == "congestion.up_hold_s must be positive"@,
        error_message(ConfigError::UpCooldown) == "congestion.up_cooldown_s must be non-negative"@,
        error_message(ConfigError::DownCooldown) == "congestion.down_cooldown_s must be non-negative"@,
        error_message(ConfigError::IncreasingBitrate) == "ladder output bitrate must not increase with index"@,
        error_message(ConfigError::Mode(i)) == "ladder["@ + text::decimal(i as int) + "] "@
            + "mode must be copy, encode, or hwencode"@,
        error_message(ConfigError::Bitrate(i)) == "ladder["@ + text::decimal(i as int) + "] "@
            + "bitrate must be positive for encode modes"@,
        error_message(ConfigError::Maxrate(i)) == "ladder["@ + text::decimal(i as int) + "] "@
            + "maxrate must be >= bitrate when set"@,
        error_message(ConfigError::Dimensions(i)) == "ladder["@ + text::decimal(i as int) + "] "@
            + "width and height must be positive for encode mode"@,
        error_message(ConfigError::Bufsize(i)) == "ladder["@ + text::decimal(i as int) + "] "@
            + "bufsize must be positive for encode mode"@,
        error_message(ConfigError::AudioBitrate(i)) == "ladder["@ + text::decimal(i as int) + "] "@
            + "audio_bitrate must be positive for encode mode"@,
        error_message(ConfigError::Preset(i)) == "ladder["@ + text::decimal(i as int) + "] "@
            + "preset must not be empty for encode mode"@,
{
}

} // verus!
