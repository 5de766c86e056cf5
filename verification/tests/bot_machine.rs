use terraria_fishing_bot::bot::{
    draw_gap_lines, Bot, BotAction, BotCommand, BotState, DetectionMethod, UiSended,
};
use terraria_fishing_bot::image::RgbaImage;
use terraria_fishing_bot::settings::Settings;

const W: u32 = 4;
const H: u32 = 6;

/// A black frame with the given rows white.
fn frame(white_rows: &[u32]) -> RgbaImage {
    let mut img = RgbaImage::new(W, H);
    for &y in white_rows {
        for x in 0..W {
            img.put_pixel(x, y, [255, 255, 255, 255]);
        }
    }
    img
}

fn movemap_settings() -> Settings {
    let mut s = Settings::default();
    s.movemap.liquid_offset = 0;
    s.movemap.detection_gap_size = 2;
    s.movemap.detection_threshold = 5;
    s
}

fn change(state: BotState) -> BotAction {
    BotAction::Send(UiSended::ChangeState(state))
}

#[test]
fn new_bot_is_idle() {
    let bot = Bot::new();
    assert_eq!(bot.state, BotState::Idle);
    assert!(bot.liquid_levels.is_empty() && bot.noises.is_empty());
    assert!(bot.last_frame.is_none() && bot.last_cast_time.is_none());
}

#[test]
fn start_depends_on_method_and_only_from_idle() {
    let mut s = Settings::default();
    let mut bot = Bot::new();
    assert!(bot.start(&s, 7));
    assert_eq!(bot.state, BotState::CheckingLiquidLevel(7));
    assert_eq!(bot.take_actions(), vec![change(BotState::CheckingLiquidLevel(7))]);
    assert!(!bot.start(&s, 8));
    assert!(bot.take_actions().is_empty());

    s.bot.detection_method = DetectionMethod::Sonar;
    let mut bot = Bot::new();
    assert!(bot.start(&s, 0));
    assert_eq!(bot.state, BotState::Cast);
}

#[test]
fn stop_forgets_measurements() {
    let s = movemap_settings();
    let mut bot = Bot::new();
    bot.start(&s, 0);
    bot.update(frame(&[]), 1, &s, None);
    bot.update(frame(&[3]), 2, &s, None);
    assert_eq!(bot.liquid_levels, vec![3]);
    bot.take_actions();
    bot.handle_command(BotCommand::Stop, &s, 3);
    assert_eq!(bot.state, BotState::Idle);
    assert!(bot.liquid_levels.is_empty() && bot.noises.is_empty());
    assert_eq!(bot.take_actions(), vec![change(BotState::Idle)]);
    bot.stop();
    assert!(bot.take_actions().is_empty());
}

#[test]
fn first_frame_is_only_kept() {
    let s = movemap_settings();
    let mut bot = Bot::new();
    bot.start(&s, 0);
    bot.take_actions();
    bot.update(frame(&[3]), 5000, &s, None);
    assert_eq!(bot.state, BotState::CheckingLiquidLevel(0));
    assert!(bot.liquid_levels.is_empty());
    assert!(bot.take_actions().is_empty());
    assert!(!bot.is_new_frame(&frame(&[3])));
    assert!(bot.is_new_frame(&frame(&[2])));
}

#[test]
fn full_movemap_cycle() {
    let s = movemap_settings();
    let mut bot = Bot::new();
    bot.start(&s, 0);
    bot.take_actions();

    // Liquid level: the moving row is row 3.
    let mut t = 0;
    for i in 0..6 {
        t += 100;
        let f = if i % 2 == 0 { frame(&[]) } else { frame(&[3]) };
        assert!(bot.can_update(&f, &s));
        bot.update(f, t, &s, None);
    }
    assert_eq!(bot.liquid_levels, vec![3, 3, 3, 3, 3]);
    assert_eq!(bot.state, BotState::CheckingLiquidLevel(0));
    assert!(bot.take_actions().is_empty());

    bot.update(frame(&[]), 1001, &s, None);
    assert_eq!(bot.get_mean_liquid_level(), Some(3));
    assert_eq!(bot.get_detection_gap(&s.movemap), Some((1, 3)));
    assert_eq!(bot.state, BotState::CheckingNoise(1001));
    assert_eq!(
        bot.take_actions(),
        vec![
            BotAction::Send(UiSended::LiquidGap(1, 3)),
            change(BotState::CheckingNoise(1001))
        ]
    );

    // Noise: rows 1 and 2 stay still.
    bot.update(frame(&[3]), 2000, &s, None);
    assert_eq!(bot.noises, vec![0]);
    bot.update(frame(&[]), 3002, &s, None);
    assert_eq!(bot.get_max_noise_level(), Some(0));
    assert_eq!(bot.state, BotState::Cast);
    assert_eq!(bot.take_actions(), vec![change(BotState::Cast)]);

    // Cast, then the cooldown.
    bot.update(frame(&[3]), 3100, &s, None);
    assert_eq!(bot.state, BotState::CastingCooldown(3100));
    assert_eq!(
        bot.take_actions(),
        vec![BotAction::Cast, change(BotState::CastingCooldown(3100))]
    );
    bot.update(frame(&[]), 4000, &s, None);
    assert_eq!(bot.state, BotState::CastingCooldown(3100));
    bot.update(frame(&[3]), 4101, &s, None);
    assert_eq!(bot.state, BotState::WaitingForBite);
    bot.take_actions();

    // Still water in the band: no bite.
    bot.update(frame(&[3]), 4200, &s, None);
    assert_eq!(bot.state, BotState::WaitingForBite);
    assert!(bot.take_actions().is_empty());

    // Rows 1 and 2 move: 8 pixels > 0 + 5.
    bot.update(frame(&[1, 2, 3]), 4300, &s, None);
    assert_eq!(bot.state, BotState::Catch);
    assert_eq!(bot.take_actions(), vec![change(BotState::Catch)]);

    bot.update(frame(&[3]), 4400, &s, None);
    assert_eq!(bot.state, BotState::Cast);
    assert_eq!(bot.take_actions(), vec![BotAction::Catch, change(BotState::Cast)]);
}

#[test]
fn cast_uses_potions_when_asked() {
    let mut s = movemap_settings();
    s.bot.use_potions = true;
    s.bot.detection_method = DetectionMethod::Sonar;
    let mut bot = Bot::new();
    bot.start(&s, 0);
    bot.take_actions();
    bot.update(frame(&[]), 10, &s, None);
    bot.update(frame(&[1]), 20, &s, None);
    assert_eq!(
        bot.take_actions(),
        vec![
            BotAction::Cast,
            BotAction::UsePotions,
            change(BotState::CastingCooldown(20))
        ]
    );
}

#[test]
fn sonar_catches_a_wanted_word() {
    let mut s = Settings::default();
    s.bot.detection_method = DetectionMethod::Sonar;
    s.sonar.sonar_detection_words = "crate,bass".to_string();
    s.sonar.sonar_detection_threshold = 2;
    let mut bot = Bot::new();
    bot.state = BotState::WaitingForBite;
    bot.update(frame(&[]), 0, &s, None);
    let f = frame(&[2]);
    assert!(bot.needs_words(&f, &s));
    bot.update(f, 10, &s, Some(vec!["Nothing".to_string()]));
    assert_eq!(bot.state, BotState::WaitingForBite);
    assert!(bot.take_actions().is_empty());
    let words = vec!["bas".to_string(), "The most common".to_string()];
    bot.update(frame(&[]), 20, &s, Some(words.clone()));
    assert_eq!(bot.state, BotState::Catch);
    assert_eq!(
        bot.take_actions(),
        vec![
            BotAction::Send(UiSended::DetectedItems(words)),
            change(BotState::Catch)
        ]
    );
}

#[test]
fn gap_outside_the_frame_blocks_the_step() {
    let mut s = movemap_settings();
    s.movemap.liquid_offset = 10;
    let mut bot = Bot::new();
    bot.state = BotState::CheckingNoise(0);
    bot.liquid_levels = vec![3, 3, 3, 3];
    bot.last_frame = Some(frame(&[]));
    assert_eq!(bot.get_detection_gap(&s.movemap), Some((11, 13)));
    assert!(!bot.can_update(&frame(&[]), &s));
    assert!(bot.can_update(&RgbaImage::new(4, 20), &s));
}

#[test]
fn yolo_cannot_wait_for_a_bite() {
    let mut s = Settings::default();
    s.bot.detection_method = DetectionMethod::Yolo;
    let mut bot = Bot::new();
    bot.state = BotState::WaitingForBite;
    bot.last_frame = Some(frame(&[]));
    assert!(!bot.can_update(&frame(&[]), &s));
}

#[test]
fn mean_level_of_even_and_odd_counts() {
    let mut bot = Bot::new();
    bot.liquid_levels = vec![1, 2, 3];
    assert_eq!(bot.get_mean_liquid_level(), None);
    bot.liquid_levels = vec![1, 2, 4, 7];
    assert_eq!(bot.get_mean_liquid_level(), Some(5));
    bot.liquid_levels = vec![1, 2, 4, 7, 9];
    assert_eq!(bot.get_mean_liquid_level(), Some(4));
}

#[test]
fn levels_stay_sorted() {
    let s = movemap_settings();
    let mut bot = Bot::new();
    bot.start(&s, 0);
    let rows = [4u32, 1, 5, 1, 2];
    bot.update(frame(&[]), 1, &s, None);
    for (i, &r) in rows.iter().enumerate() {
        bot.update(frame(&[]), 2 + i as u64 * 2, &s, None);
        bot.update(frame(&[r]), 3 + i as u64 * 2, &s, None);
    }
    assert_eq!(bot.liquid_levels, vec![1, 1, 1, 1, 2, 4, 4, 5, 5]);
}

#[test]
fn gap_lines_are_drawn() {
    let mut img = RgbaImage::new(2, 4);
    draw_gap_lines(&mut img, Some((1, 3)));
    assert_eq!([img.get(0, 1, 0), img.get(0, 1, 2)], [0, 255]);
    assert_eq!([img.get(1, 3, 0), img.get(1, 3, 2)], [255, 0]);
    assert_eq!(img.get(0, 0, 3), 0);
    assert_eq!(img.get(0, 2, 3), 0);
    let mut img = RgbaImage::new(2, 2);
    draw_gap_lines(&mut img, Some((0, 9)));
    assert_eq!(img.get(1, 0, 2), 255);
    assert_eq!(img.get(1, 1, 3), 0);
}

#[test]
fn idle_bot_does_nothing_on_frames() {
    let s = movemap_settings();
    let mut bot = Bot::new();
    for (i, rows) in [vec![], vec![3], vec![1, 2], vec![]].iter().enumerate() {
        bot.update(frame(rows), 100 * i as u64, &s, None);
        assert_eq!(bot.state, BotState::Idle);
        assert!(bot.take_actions().is_empty());
    }
    assert!(bot.liquid_levels.is_empty() && bot.noises.is_empty());
}

#[test]
fn watched_band_runs_down_to_the_level() {
    let mut bot = Bot::new();
    bot.liquid_levels = vec![1, 2, 3, 4, 5];
    let mut s = Settings::default();
    s.movemap.liquid_offset = -1;
    s.movemap.detection_gap_size = 10;
    assert_eq!(bot.get_detection_gap(&s.movemap), Some((0, 2)));
    s.movemap.detection_gap_size = 1;
    assert_eq!(bot.get_detection_gap(&s.movemap), Some((1, 2)));
    s.movemap.liquid_offset = -5;
    assert_eq!(bot.get_detection_gap(&s.movemap), None);
    // A band height beyond i32 wraps to a negative one.
    s.movemap.liquid_offset = -1;
    s.movemap.detection_gap_size = u32::MAX;
    assert_eq!(bot.get_detection_gap(&s.movemap), Some((3, 2)));
}
