use crate::bot::DetectionMethod;
use vstd::prelude::*;

verus! {

/// Screen capture around the cursor.
#[derive(Debug, Clone, PartialEq)]
pub struct CaptureSettings {
    /// Half the side of the captured square, in pixels.
    pub margin: u32,
    pub monitor_id: u8,
    /// Frame rate that the capture aims at.
    pub fps: u8,
}

impl Default for CaptureSettings {
    fn default() -> (s: Self)
        ensures
            s.margin == 200,
            s.monitor_id == 0,
            s.fps == 30,
    {
        CaptureSettings { margin: 200, monitor_id: 0, fps: 30 }
    }
}

/// Casting, potions and the detection method.
#[derive(Debug, Clone, PartialEq)]
pub struct BotSettings {
    pub casting_delay_millis: u64,
    pub use_potions: bool,
    /// How long a cast may wait for a bite before a potion is used again.
    pub cast_max_time_millis: u64,
    pub detection_method: DetectionMethod,
}

impl Default for BotSettings {
    fn default() -> (s: Self)
        ensures
            s.casting_delay_millis == 1000,
            !s.use_potions,
            s.cast_max_time_millis == 20000,
            s.detection_method == DetectionMethod::MoveMap,
    {
        BotSettings {
            casting_delay_millis: 1000,
            use_potions: false,
            cast_max_time_millis: 20000,
            detection_method: DetectionMethod::MoveMap,
        }
    }
}

/// Parameters of the detection by movement in the liquid.
#[derive(Debug, Clone, PartialEq)]
pub struct MovemapSettings {
    /// Rows added to the measured liquid level.
    pub liquid_offset: i32,
    pub liquid_detection_delay_millis: u64,
    pub noises_delay_millis: u64,
    /// How far above the noise the movement must rise to count as a bite.
    pub detection_threshold: u32,
    /// Height, in rows, of the band above the liquid level that is watched.
    pub detection_gap_size: u32,
}

impl Default for MovemapSettings {
    fn default() -> (s: Self)
        ensures
            s.liquid_offset == -10,
            s.liquid_detection_delay_millis == 1000,
            s.noises_delay_millis == 2000,
            s.detection_threshold == 200,
            s.detection_gap_size == 30,
    {
        MovemapSettings {
            liquid_offset: -10,
            liquid_detection_delay_millis: 1000,
            noises_delay_millis: 2000,
            detection_threshold: 200,
            detection_gap_size: 30,
        }
    }
}

/// Parameters of the detection by the sonar's text.
#[derive(Debug, Clone, PartialEq)]
pub struct SonarSettings {
    /// Recognised words closer than this (Levenshtein distance) count as a match.
    pub sonar_detection_threshold: usize,
    /// The wanted items, separated by commas.
    pub sonar_detection_words: String,
}

impl Default for SonarSettings {
    fn default() -> (s: Self)
        ensures
            s.sonar_detection_threshold == 4,
            s.sonar_detection_words@ == Seq::<char>::empty(),
    {
        SonarSettings { sonar_detection_threshold: 4, sonar_detection_words: String::new() }
    }
}

/// All settings of the bot.
#[derive(Debug, Clone, PartialEq)]
pub struct Settings {
    pub capture: CaptureSettings,
    pub bot: BotSettings,
    pub movemap: MovemapSettings,
    pub sonar: SonarSettings,
}

impl Default for Settings {
    fn default() -> (s: Self)
        ensures
            s.capture.margin == 200,
            s.capture.monitor_id == 0,
            s.capture.fps == 30,
            s.bot.casting_delay_millis == 1000,
            !s.bot.use_potions,
            s.bot.cast_max_time_millis == 20000,
            s.bot.detection_method == DetectionMethod::MoveMap,
            s.movemap.liquid_offset == -10,
            s.movemap.liquid_detection_delay_millis == 1000,
            s.movemap.noises_delay_millis == 2000,
            s.movemap.detection_threshold == 200,
            s.movemap.detection_gap_size == 30,
            s.sonar.sonar_detection_threshold == 4,
            s.sonar.sonar_detection_words@ == Seq::<char>::empty(),
    {
        Settings {
            capture: CaptureSettings::default(),
            bot: BotSettings::default(),
            movemap: MovemapSettings::default(),
            sonar: SonarSettings::default(),
        }
    }
}

} // verus!
