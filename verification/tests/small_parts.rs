use terraria_fishing_bot::controller::Controller;
use terraria_fishing_bot::cursor_capturer::CursorCapturer;
use terraria_fishing_bot::settings::{
    BotSettings, CaptureSettings, MovemapSettings, Settings, SonarSettings,
};
use terraria_fishing_bot::bot::DetectionMethod;
use terraria_fishing_bot::ui_terminal::UiTerminal;

#[test]
fn default_settings() {
    let s = Settings::default();
    assert_eq!(s.capture, CaptureSettings { margin: 200, monitor_id: 0, fps: 30 });
    assert_eq!(
        s.bot,
        BotSettings {
            casting_delay_millis: 1000,
            use_potions: false,
            cast_max_time_millis: 20000,
            detection_method: DetectionMethod::MoveMap,
        }
    );
    assert_eq!(
        s.movemap,
        MovemapSettings {
            liquid_offset: -10,
            liquid_detection_delay_millis: 1000,
            noises_delay_millis: 2000,
            detection_threshold: 200,
            detection_gap_size: 30,
        }
    );
    assert_eq!(
        s.sonar,
        SonarSettings { sonar_detection_threshold: 4, sonar_detection_words: String::new() }
    );
}

#[test]
fn terminal_keeps_the_latest_lines() {
    let mut t = UiTerminal::new(2);
    assert!(t.history().is_empty());
    t.print("a");
    t.print("b");
    t.print("c");
    let lines: Vec<&str> = t.history().iter().map(|s| s.as_str()).collect();
    assert_eq!(lines, vec!["b", "c"]);
}

#[test]
fn terminal_of_size_zero_keeps_the_last_line() {
    let mut t = UiTerminal::new(0);
    t.print("a");
    t.print("b");
    let lines: Vec<&str> = t.history().iter().map(|s| s.as_str()).collect();
    assert_eq!(lines, vec!["b"]);
}

#[test]
fn region_is_clipped_to_the_monitor() {
    let c = CursorCapturer::new(1920, 1080);
    assert_eq!(c.get_region(Some((960, 540)), 200), Some((760, 340, 1160, 740)));
    assert_eq!(c.get_region(Some((50, 1070)), 200), Some((0, 870, 250, 1080)));
    assert_eq!(c.get_region(None, 200), None);
    assert_eq!(c.get_region(Some((-300, 10)), 200), None);
    assert_eq!(c.get_region(Some((10, 10)), 0), None);
}

#[test]
fn frame_history_keeps_ten_readings() {
    let mut c = CursorCapturer::new(10, 10);
    for t in 0..12u64 {
        c.add_frame_history(t);
    }
    let v: Vec<u64> = c.frame_history.iter().copied().collect();
    assert_eq!(v, (2..12).collect::<Vec<u64>>());
}

#[test]
fn sleep_follows_the_frame_rate() {
    let mut c = CursorCapturer::new(10, 10);
    c.adjust_sleep(40, 30);
    c.adjust_sleep(40, 30);
    assert_eq!(c.sleep_millis, 2);
    c.adjust_sleep(20, 30);
    assert_eq!(c.sleep_millis, 2);
    c.sleep_millis = 6;
    c.adjust_sleep(30, 30);
    assert_eq!(c.sleep_millis, 5);
    c.adjust_sleep(30, 30);
    assert_eq!(c.sleep_millis, 4);
    c.adjust_sleep(30, 30);
    assert_eq!(c.sleep_millis, 4);
}

#[test]
fn potions_are_due_after_the_delay() {
    let mut c = Controller::new();
    assert!(c.use_potions_if_necessery(0, 1000));
    c.potions_used(500);
    assert_eq!(c.last_potion_use_time, Some(500));
    assert!(!c.use_potions_if_necessery(1500, 1000));
    assert!(c.use_potions_if_necessery(1501, 1000));
    assert!(!c.use_potions_if_necessery(100, 0));
}
