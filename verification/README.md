# terraria_fishing_bot

A fishing bot for Terraria. It watches the screen around the mouse cursor,
learns where the liquid surface lies and how much it moves on its own, casts,
waits for a bite (a burst of movement above the surface, or a wanted item's
name read on the sonar) and reels in.

## Layout

- `src/` — the verified library (Verus):
  - `image.rs` — pixel buffers (`RgbaImage`, `RgbImage`, `GrayImage`);
  - `opencv.rs` — difference masks, channel conversion, colour ranges, circles;
  - `detector.rs` — 4-connected blobs of a mask and the bobber's position;
  - `text.rs`, `sonar_detector.rs` — cleaning, trimming and splitting of OCR
    text, Levenshtein matching of wanted words;
  - `bot.rs` — the bot's state machine: each step takes a frame, the clock,
    the settings and the sonar's words, and queues the outside work
    (`BotAction`) that the caller carries out;
  - `settings.rs`, `cursor_capturer.rs`, `controller.rs`, `ui_terminal.rs` —
    settings with their defaults, the capture region and pacing, the potion
    timer and the bounded log.
- `app/` — the program around the library: screen capture, mouse and keyboard,
  OCR, the settings file, logging and the window.
- `tests/` — tests of the library on concrete values.
