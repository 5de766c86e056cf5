//! Frame analysis and decision logic of a fishing bot: pixel images,
//! difference masks, liquid-level and noise estimation, the bot's state
//! machine, OCR text matching and the bounded log terminal.

pub mod image;
pub mod opencv;
pub mod text;
pub mod sonar_detector;
pub mod settings;
pub mod bot;
pub mod ui_terminal;
pub mod cursor_capturer;
pub mod controller;
pub mod detector;
