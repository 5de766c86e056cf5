use crate::image::{GrayImage, RgbaImage};
use crate::opencv::{as_signed, difference_value, max_int, rgba_difference_mask};
use crate::settings::{MovemapSettings, Settings};
use crate::sonar_detector::{wants_any, SonarDetector};
use vstd::prelude::*;

verus! {

/// How a bite is recognised.
#[derive(Debug, PartialEq, Eq, Structural, Clone, Copy)]
pub enum DetectionMethod {
    MoveMap,
    Yolo,
    Sonar,
}

/// What the bot is doing. Times are clock readings in milliseconds.
#[derive(Debug, PartialEq, Eq, Structural, Clone, Copy)]
pub enum BotState {
    Idle,
    WaitingForBite,
    CheckingBite,
    Cast,
    Catch,
    /// Waiting, since the given time, before watching for a bite.
    CastingCooldown(u64),
    /// Measuring the liquid level since the given time.
    CheckingLiquidLevel(u64),
    /// Measuring the movement noise since the given time.
    CheckingNoise(u64),
}

/// Orders for the bot.
#[derive(Debug, PartialEq)]
pub enum BotCommand {
    Start,
    Stop,
}

/// Messages for the user interface.
#[derive(Debug, PartialEq)]
pub enum UiSended {
    /// Rows of the band watched for movement.
    LiquidGap(u32, u32),
    /// The words read on the sonar when a wanted item was seen.
    DetectedItems(Vec<String>),
    ChangeState(BotState),
}

/// Outside work that a step of the bot calls for, in the order given.
#[derive(Debug, PartialEq)]
pub enum BotAction {
    /// Click to cast the line.
    Cast,
    /// Click to reel in.
    Catch,
    /// Press the potion key.
    UsePotions,
    /// Send a message to the user interface.
    Send(UiSended),
}

// ---------------------------------------------------------------------------
// Measures of a difference mask (a one-channel image, row-major).
// ---------------------------------------------------------------------------

/// Sum of the bytes of `s`.
pub open spec fn seq_sum(s: Seq<u8>) -> int
    decreases s.len(),
{
    if s.len() == 0 {
        0
    } else {
        seq_sum(s.drop_last()) + s.last()
    }
}

/// Number of nonzero bytes in `s`.
pub open spec fn count_nonzero(s: Seq<u8>) -> int
    decreases s.len(),
{
    if s.len() == 0 {
        0
    } else {
        count_nonzero(s.drop_last()) + if s.last() > 0 {
            1int
        } else {
            0int
        }
    }
}

/// Sum of row `y` of a `w`-wide mask.
pub open spec fn row_sum(mask: Seq<u8>, w: int, y: int) -> int {
    seq_sum(mask.subrange(y * w, y * w + w))
}

/// Row `y` has the greatest sum, that sum is positive, and every earlier row
/// has a smaller sum.
pub open spec fn is_top_row(mask: Seq<u8>, w: int, h: int, y: int) -> bool {
    &&& 0 <= y < h
    &&& row_sum(mask, w, y) > 0
    &&& forall|z: int| 0 <= z < h ==> #[trigger] row_sum(mask, w, z) <= row_sum(mask, w, y)
    &&& forall|z: int| 0 <= z < y ==> #[trigger] row_sum(mask, w, z) < row_sum(mask, w, y)
}

/// The liquid level of a mask: the first row with the greatest sum, when
/// that sum is positive.
pub open spec fn liquid_level(mask: Seq<u8>, w: int, h: int) -> Option<int> {
    if exists|y: int| is_top_row(mask, w, h, y) {
        Some(choose|y: int| is_top_row(mask, w, h, y))
    } else {
        None
    }
}

/// A mask has at most one top row.
pub proof fn lemma_top_row_unique(mask: Seq<u8>, w: int, h: int, y1: int, y2: int)
    requires
        is_top_row(mask, w, h, y1),
        is_top_row(mask, w, h, y2),
    ensures
        y1 == y2,
{
    if y1 < y2 {
        assert(row_sum(mask, w, y1) < row_sum(mask, w, y2));
        assert(row_sum(mask, w, y2) <= row_sum(mask, w, y1));
    } else if y2 < y1 {
        assert(row_sum(mask, w, y2) < row_sum(mask, w, y1));
        assert(row_sum(mask, w, y1) <= row_sum(mask, w, y2));
    }
}

/// Middle value of sorted levels as the bot takes it: nothing for three or
/// fewer; for an odd count, the element at `count / 2`; for an even count, the
/// rounded-down mean of the elements at `count / 2` and `count / 2 + 1`.
pub open spec fn mean_level(levels: Seq<u32>) -> Option<int> {
    let n = levels.len() as int;
    if n <= 3 {
        None
    } else if n % 2 == 0 {
        Some((levels[n / 2] + levels[n / 2 + 1]) / 2)
    } else {
        Some(levels[n / 2] as int)
    }
}

/// Greatest element, when there is one.
pub open spec fn seq_max(s: Seq<u32>) -> Option<int>
    decreases s.len(),
{
    if s.len() == 0 {
        None
    } else {
        match seq_max(s.drop_last()) {
            None => Some(s.last() as int),
            Some(m) => Some(if m >= s.last() {
                m
            } else {
                s.last() as int
            }),
        }
    }
}

/// Rows `(start, stop)` of the band watched for movement: it ends at the mean
/// liquid level (taken as `i32`) plus the offset, and reaches up
/// `detection_gap_size` rows (taken as `i32`), clipped at row 0; nothing when
/// the band's end is not below row 0. Each end is cast to `u32`.
pub open spec fn detection_gap(levels: Seq<u32>, m: MovemapSettings) -> Option<(u32, u32)> {
    match mean_level(levels) {
        None => None,
        Some(mean) => {
            let level = as_signed(mean as u32) + m.liquid_offset;
            let gap = level - as_signed(m.detection_gap_size);
            if level > 0 {
                Some((max_int(gap, 0) as u32, level as u32))
            } else {
                None
            }
        },
    }
}

/// Number of moving pixels in the watched band of a `w`-wide mask.
pub open spec fn abs_difference(mask: Seq<u8>, w: int, gap: Option<(u32, u32)>) -> Option<u32> {
    match gap {
        None => None,
        Some((start, stop)) => Some(count_nonzero(mask.subrange(start * w, stop * w)) as u32),
    }
}

/// The band lies inside a `w` by `h` mask, so that it can be read.
pub open spec fn gap_fits(gap: Option<(u32, u32)>, w: int, h: int) -> bool {
    match gap {
        None => true,
        Some((start, stop)) => start * w <= stop * w <= w * h,
    }
}

/// Elements in ascending order.
pub open spec fn sorted(s: Seq<u32>) -> bool {
    forall|i: int, j: int| 0 <= i <= j < s.len() ==> s[i] <= s[j]
}

/// Where `x` goes in `s`: after the last element not above it, scanning from
/// the end (so into a sorted `s`, before the first element above `x`).
pub open spec fn insert_pos(s: Seq<u32>, x: u32) -> int
    decreases s.len(),
{
    if s.len() == 0 || s.last() <= x {
        s.len() as int
    } else {
        insert_pos(s.drop_last(), x)
    }
}

/// `s` with `x` added at its sorted position.
pub open spec fn sorted_insert(s: Seq<u32>, x: u32) -> Seq<u32> {
    s.insert(insert_pos(s, x), x)
}

proof fn lemma_insert_pos_bounds(s: Seq<u32>, x: u32)
    ensures
        0 <= insert_pos(s, x) <= s.len(),
        forall|k: int| insert_pos(s, x) <= k < s.len() ==> #[trigger] s[k] > x,
        insert_pos(s, x) > 0 ==> s[insert_pos(s, x) - 1] <= x,
    decreases s.len(),
{
    if s.len() > 0 && s.last() > x {
        lemma_insert_pos_bounds(s.drop_last(), x);
        assert forall|k: int| insert_pos(s, x) <= k < s.len() implies #[trigger] s[k] > x by {
            if k < s.len() - 1 {
                assert(s[k] == s.drop_last()[k]);
            }
        }
    }
}

/// Inserting at the sorted position keeps a sequence sorted.
pub proof fn law_sorted_insert_sorted(s: Seq<u32>, x: u32)
    requires
        sorted(s),
    ensures
        sorted(sorted_insert(s, x)),
{
    lemma_insert_pos_bounds(s, x);
    let p = insert_pos(s, x);
    let t = sorted_insert(s, x);
    assert forall|i: int, j: int| 0 <= i <= j < t.len() implies t[i] <= t[j] by {
        if i < p && j > p {
            assert(t[i] == s[i] && t[j] == s[j - 1]);
        } else if i < p && j == p {
            assert(t[i] == s[i] && s[i] <= s[p - 1]);
        } else if i == p && j > p {
            assert(t[j] == s[j - 1]);
        } else if i > p {
            assert(t[i] == s[i - 1] && t[j] == s[j - 1]);
        }
    }
}

/// Inserting at the sorted position adds `x` and nothing else: the result holds
/// the same elements as `s` followed by `x`, so it is what sorting after a push gives.
pub proof fn law_sorted_insert_permutes(s: Seq<u32>, x: u32)
    ensures
        sorted_insert(s, x).to_multiset() == s.push(x).to_multiset(),
{
    broadcast use vstd::seq_lib::group_to_multiset_ensures;

    lemma_insert_pos_bounds(s, x);
    let p = insert_pos(s, x);
    let t = sorted_insert(s, x);
    assert(t.remove(p) =~= s);
    assert(t[p] == x);
    assert(t.to_multiset().remove(x) =~= s.to_multiset());
    assert(t.to_multiset().count(x) > 0);
    assert(t.to_multiset() =~= s.to_multiset().insert(x));
}

/// Time passed since `since`, in milliseconds (none if the clock is behind it).
pub open spec fn elapsed(since: u64, now: u64) -> int {
    if now >= since {
        now - since
    } else {
        0
    }
}

proof fn lemma_sum_step(s: Seq<u8>, a: int, b: int)
    requires
        0 <= a <= b < s.len(),
    ensures
        seq_sum(s.subrange(a, b + 1)) == seq_sum(s.subrange(a, b)) + s[b],
        count_nonzero(s.subrange(a, b + 1)) == count_nonzero(s.subrange(a, b)) + if s[b] > 0 {
            1int
        } else {
            0int
        },
{
    assert(s.subrange(a, b + 1).drop_last() =~= s.subrange(a, b));
}

proof fn lemma_next_row(y: int, w: int, h: int)
    requires
        0 <= y < h,
        0 <= w,
    ensures
        (y + 1) * w == y * w + w,
        y * w + w <= w * h,
        0 <= y * w,
{
    assert((y + 1) * w == y * w + w) by (nonlinear_arith);
    assert(y * w + w <= w * h) by (nonlinear_arith)
        requires
            0 <= y < h,
            0 <= w,
    ;
    assert(0 <= y * w) by (nonlinear_arith)
        requires
            0 <= y,
            0 <= w,
    ;
}

/// The first row of the mask with the greatest positive sum.
fn find_liquid_level(mask: &GrayImage) -> (level: Option<u32>)
    requires
        mask.wf(),
    ensures
        match level {
            Some(y) => liquid_level(mask@, mask.spec_width() as int, mask.spec_height() as int)
                == Some(y as int),
            None => liquid_level(mask@, mask.spec_width() as int, mask.spec_height() as int) is None,
        },
{
    let ghost m = mask@;
    let w: usize = mask.width() as usize;
    let h: u32 = mask.height();
    let raw: &Vec<u8> = mask.as_raw();
    let _len: usize = raw.len();
    assert(raw@.len() == w * h) by {
        assert(mask@.len() == mask.area() * 1);
    }
    let mut best: Option<u32> = None;
    let mut max_stack: u64 = 0;
    let mut y: u32 = 0;
    let mut base: usize = 0;
    while y < h
        invariant
            raw@ == m,
            m.len() == w * h,
            _len == m.len(),
            0 <= y <= h,
            base == y * w,
            max_stack == match best {
                Some(b) => row_sum(m, w as int, b as int),
                None => 0,
            },
            forall|z: int| 0 <= z < y ==> #[trigger] row_sum(m, w as int, z) <= max_stack,
            best matches Some(b) ==> b < y && row_sum(m, w as int, b as int) > 0 && forall|z: int|
                0 <= z < b ==> #[trigger] row_sum(m, w as int, z) < row_sum(m, w as int, b as int),
            max_stack <= 255 * w,
            w <= u32::MAX,
        decreases h - y,
    {
        proof {
            lemma_next_row(y as int, w as int, h as int);
        }
        let mut stack: u64 = 0;
        let mut x: usize = 0;
        while x < w
            invariant
                raw@ == m,
                m.len() == w * h,
                _len == m.len(),
                base == y * w,
                0 <= y < h,
                base + w <= m.len(),
                0 <= x <= w,
                stack == seq_sum(m.subrange(base as int, base + x)),
                stack <= 255 * x,
                w <= u32::MAX,
            decreases w - x,
        {
            proof {
                lemma_sum_step(m, base as int, base + x);
            }
            stack = stack + raw[base + x] as u64;
            x = x + 1;
        }
        assert(stack == row_sum(m, w as int, y as int));
        if stack > max_stack {
            max_stack = stack;
            best = Some(y);
        }
        base = base + w;
        y = y + 1;
    }
    proof {
        let wi = w as int;
        let hi = h as int;
        match best {
            Some(b) => {
                assert(is_top_row(m, wi, hi, b as int));
                let c = choose|y: int| is_top_row(m, wi, hi, y);
                lemma_top_row_unique(m, wi, hi, c, b as int);
            },
            None => {
                if exists|y: int| is_top_row(m, wi, hi, y) {
                    let c = choose|y: int| is_top_row(m, wi, hi, y);
                    assert(row_sum(m, wi, c) <= 0);
                }
            },
        }
    }
    best
}

/// Time passed since `since` on a millisecond clock.
fn elapsed_ms(since: u64, now: u64) -> (d: u64)
    ensures
        d == elapsed(since, now),
{
    if now >= since {
        now - since
    } else {
        0
    }
}

/// Rounded-down mean of two levels.
fn mid_value(a: u32, b: u32) -> (r: u32)
    ensures
        r == (a + b) / 2,
{
    ((a as u64 + b as u64) / 2) as u32
}

/// Adds `level` at its sorted position.
fn insert_sorted(levels: &mut Vec<u32>, level: u32)
    ensures
        final(levels)@ == sorted_insert(old(levels)@, level),
{
    let ghost s = levels@;
    let mut i: usize = levels.len();
    assert(s.take(i as int) =~= s);
    while i > 0 && levels[i - 1] > level
        invariant
            levels@ == s,
            0 <= i <= s.len(),
            insert_pos(s, level) == insert_pos(s.take(i as int), level),
        decreases i,
    {
        proof {
            assert(s.take(i as int).drop_last() =~= s.take(i - 1));
        }
        i = i - 1;
    }
    proof {
        if i == s.len() {
            assert(s.take(i as int) =~= s);
        }
    }
    levels.insert(i, level);
}

// ---------------------------------------------------------------------------
// The bot's state machine.
// ---------------------------------------------------------------------------

/// The decisions of the fishing bot. Each call takes what the bot observed (a
/// frame, the clock, the settings, the sonar's words) and queues the outside
/// work it decides on in `pending`, in order, for the caller to carry out.
pub struct Bot {
    pub state: BotState,
    /// Liquid levels measured so far, kept sorted.
    pub liquid_levels: Vec<u32>,
    /// Movement measured in the watched band while the line rests.
    pub noises: Vec<u32>,
    pub last_frame: Option<RgbaImage>,
    pub last_cast_time: Option<u64>,
    /// Outside work decided on and not yet taken by the caller.
    pub pending: Vec<BotAction>,
}

/// The message that announces a new state.
pub open spec fn send_state(s: BotState) -> BotAction {
    BotAction::Send(UiSended::ChangeState(s))
}

/// The message that announces the watched band, if there is one.
pub open spec fn gap_message(gap: Option<(u32, u32)>) -> Seq<BotAction> {
    match gap {
        Some((start, stop)) => seq![BotAction::Send(UiSended::LiquidGap(start, stop))],
        None => seq![],
    }
}

/// A difference mask can be made: there is a previous frame of the same size.
pub open spec fn has_mask(b: Bot, frame: RgbaImage) -> bool {
    b.last_frame matches Some(last) && last.spec_width() == frame.spec_width() && last.spec_height()
        == frame.spec_height()
}

/// The difference mask of `frame` against the previous frame `last`.
pub open spec fn mask_of(frame: RgbaImage, last: RgbaImage) -> Seq<u8> {
    Seq::new(frame.area(), |i: int| difference_value(frame, last, i))
}

/// The step reads the watched band of the mask.
pub open spec fn reads_gap(b: Bot, s: Settings) -> bool {
    ||| b.state is CheckingNoise
    ||| (b.state is WaitingForBite && s.bot.detection_method == DetectionMethod::MoveMap)
}

/// The step reads the words recognised on the frame.
pub open spec fn reads_words(b: Bot, frame: RgbaImage, s: Settings) -> bool {
    &&& has_mask(b, frame)
    &&& b.state is WaitingForBite
    &&& s.bot.detection_method == DetectionMethod::Sonar
}

/// The step can be taken: the band it reads lies inside the frame, and it does
/// not wait for a bite by a method that has no detector.
pub open spec fn update_ok(b: Bot, frame: RgbaImage, s: Settings) -> bool {
    has_mask(b, frame) ==> {
        &&& reads_gap(b, s) ==> gap_fits(
            detection_gap(b.liquid_levels@, s.movemap),
            frame.spec_width() as int,
            frame.spec_height() as int,
        )
        &&& !(b.state is WaitingForBite && s.bot.detection_method == DetectionMethod::Yolo)
    }
}

/// How one step on a difference mask changes the bot and what it asks for.
pub open spec fn step(
    o: Bot,
    n: Bot,
    mask: Seq<u8>,
    w: int,
    h: int,
    now: u64,
    s: Settings,
    words: Option<Vec<String>>,
    actions: Seq<BotAction>,
) -> bool {
    let band = abs_difference(mask, w, detection_gap(o.liquid_levels@, s.movemap));
    match o.state {
        BotState::CheckingLiquidLevel(t) => {
            let levels = match liquid_level(mask, w, h) {
                Some(y) => sorted_insert(o.liquid_levels@, y as u32),
                None => o.liquid_levels@,
            };
            let done = elapsed(t, now) > s.movemap.liquid_detection_delay_millis && mean_level(
                levels,
            ) is Some;
            &&& n.liquid_levels@ == levels
            &&& n.noises@ == o.noises@
            &&& n.last_cast_time == o.last_cast_time
            &&& n.state == if done {
                BotState::CheckingNoise(now)
            } else {
                o.state
            }
            &&& actions == if done {
                gap_message(detection_gap(levels, s.movemap)) + seq![
                    send_state(BotState::CheckingNoise(now)),
                ]
            } else {
                seq![]
            }
        },
        BotState::CheckingNoise(t) => {
            let noises = match band {
                Some(a) => o.noises@.push(a),
                None => o.noises@,
            };
            let done = elapsed(t, now) > s.movemap.noises_delay_millis && noises.len() > 0;
            &&& n.liquid_levels@ == o.liquid_levels@
            &&& n.noises@ == noises
            &&& n.last_cast_time == o.last_cast_time
            &&& n.state == if done {
                BotState::Cast
            } else {
                o.state
            }
            &&& actions == if done {
                seq![send_state(BotState::Cast)]
            } else {
                seq![]
            }
        },
        BotState::Cast => {
            &&& n.liquid_levels@ == o.liquid_levels@
            &&& n.noises@ == o.noises@
            &&& n.last_cast_time == o.last_cast_time
            &&& n.state == BotState::CastingCooldown(now)
            &&& actions == seq![BotAction::Cast] + (if s.bot.use_potions {
                seq![BotAction::UsePotions]
            } else {
                seq![]
            }) + seq![send_state(BotState::CastingCooldown(now))]
        },
        BotState::CastingCooldown(t) => {
            let done = elapsed(t, now) > s.bot.casting_delay_millis;
            &&& n.liquid_levels@ == o.liquid_levels@
            &&& n.noises@ == o.noises@
            &&& n.last_cast_time == o.last_cast_time
            &&& n.state == if done {
                BotState::WaitingForBite
            } else {
                o.state
            }
            &&& actions == if done {
                seq![send_state(BotState::WaitingForBite)]
            } else {
                seq![]
            }
        },
        BotState::WaitingForBite => {
            &&& n.liquid_levels@ == o.liquid_levels@
            &&& n.noises@ == o.noises@
            &&& match s.bot.detection_method {
                DetectionMethod::Sonar => {
                    let found = wants_any(
                        s.sonar.sonar_detection_words@,
                        words.unwrap()@,
                        s.sonar.sonar_detection_threshold,
                    );
                    let potion = o.last_cast_time matches Some(t) && elapsed(t, now)
                        > s.bot.cast_max_time_millis && s.bot.use_potions;
                    &&& n.state == if found {
                        BotState::Catch
                    } else {
                        o.state
                    }
                    &&& n.last_cast_time == if potion {
                        Some(now)
                    } else {
                        o.last_cast_time
                    }
                    &&& actions == (if found {
                        seq![
                            BotAction::Send(UiSended::DetectedItems(words.unwrap())),
                            send_state(BotState::Catch),
                        ]
                    } else {
                        seq![]
                    }) + (if potion {
                        seq![BotAction::UsePotions]
                    } else {
                        seq![]
                    })
                },
                _ => {
                    &&& n.last_cast_time == o.last_cast_time
                    &&& match band {
                        None => {
                            &&& n.state == BotState::CheckingLiquidLevel(now)
                            &&& actions == seq![
                                BotAction::Catch,
                                send_state(BotState::CheckingLiquidLevel(now)),
                            ]
                        },
                        Some(a) => match seq_max(o.noises@) {
                            Some(noise) => {
                                let bite = a > noise + s.movemap.detection_threshold;
                                &&& n.state == if bite {
                                    BotState::Catch
                                } else {
                                    o.state
                                }
                                &&& actions == if bite {
                                    seq![send_state(BotState::Catch)]
                                } else {
                                    seq![]
                                }
                            },
                            None => {
                                &&& n.state == BotState::CheckingNoise(now)
                                &&& actions == seq![
                                    BotAction::Catch,
                                    send_state(BotState::CheckingNoise(now)),
                                ]
                            },
                        },
                    }
                },
            }
        },
        BotState::Catch => {
            &&& n.liquid_levels@ == o.liquid_levels@
            &&& n.noises@ == o.noises@
            &&& n.last_cast_time == o.last_cast_time
            &&& n.state == BotState::Cast
            &&& actions == seq![BotAction::Catch, send_state(BotState::Cast)]
        },
        _ => {
            &&& n.liquid_levels@ == o.liquid_levels@
            &&& n.noises@ == o.noises@
            &&& n.last_cast_time == o.last_cast_time
            &&& n.state == o.state
            &&& actions == Seq::<BotAction>::empty()
        },
    }
}

/// Blue and red, the colors of the band's first and last rows.
pub open spec fn gap_start_color() -> Seq<u8> {
    seq![0u8, 0u8, 255u8, 255u8]
}

pub open spec fn gap_stop_color() -> Seq<u8> {
    seq![255u8, 0u8, 0u8, 255u8]
}

/// `after` is `before` with the band's rows painted: its last row red, its
/// first row blue (unless the same row), rows outside the frame skipped.
pub open spec fn gap_drawn(before: RgbaImage, after: RgbaImage, gap: Option<(u32, u32)>) -> bool {
    &&& after.wf()
    &&& after.spec_width() == before.spec_width()
    &&& after.spec_height() == before.spec_height()
    &&& forall|x: int, y: int|
        0 <= x < before.spec_width() && 0 <= y < before.spec_height() ==> #[trigger] after.pixel(
            before.index_of(x, y),
        ) == match gap {
            Some((start, stop)) => if y == stop {
                gap_stop_color()
            } else if y == start {
                gap_start_color()
            } else {
                before.pixel(before.index_of(x, y))
            },
            None => before.pixel(before.index_of(x, y)),
        }
}

/// Paints the band's first row blue and its last row red, each when it lies
/// inside the frame.
pub fn draw_gap_lines(frame: &mut RgbaImage, gap: Option<(u32, u32)>)
    requires
        old(frame).wf(),
    ensures
        gap_drawn(*old(frame), *final(frame), gap),
{
    if let Some((y_start, y_stop)) = gap {
        let height: u32 = frame.height();
        let blue: [u8; 4] = [0, 0, 255, 255];
        let red: [u8; 4] = [255, 0, 0, 255];
        assert(blue@ =~= gap_start_color());
        assert(red@ =~= gap_stop_color());
        let ghost orig = *frame;
        if y_start < height {
            frame.paint_row(y_start, blue);
        }
        let ghost mid = *frame;
        if y_stop < height {
            frame.paint_row(y_stop, red);
        }
        assert forall|x: int, y: int|
            0 <= x < orig.spec_width() && 0 <= y < orig.spec_height() implies #[trigger] frame.pixel(
            orig.index_of(x, y),
        ) == if y == y_stop {
            gap_stop_color()
        } else if y == y_start {
            gap_start_color()
        } else {
            orig.pixel(orig.index_of(x, y))
        } by {
            assert(mid.index_of(x, y) == orig.index_of(x, y));
            assert(frame.pixel(mid.index_of(x, y)) == if y == y_stop {
                gap_stop_color()
            } else {
                mid.pixel(mid.index_of(x, y))
            });
            assert(mid.pixel(orig.index_of(x, y)) == if y == y_start {
                gap_start_color()
            } else {
                orig.pixel(orig.index_of(x, y))
            });
        }
    }
}

/// Whether `actions` announce a change to some state.
pub open spec fn announces_state(actions: Seq<BotAction>) -> bool {
    exists|k: int| 0 <= k < actions.len() && #[trigger] actions[k] matches BotAction::Send(
        UiSended::ChangeState(_),
    )
}

/// A step announces a state exactly when it changes the state, and then it
/// announces the new state, so the user interface always shows the bot's
/// state.
pub proof fn law_state_changes_announced(
    o: Bot,
    n: Bot,
    mask: Seq<u8>,
    w: int,
    h: int,
    now: u64,
    s: Settings,
    words: Option<Vec<String>>,
    actions: Seq<BotAction>,
)
    requires
        step(o, n, mask, w, h, now, s, words, actions),
    ensures
        n.state != o.state ==> actions.contains(send_state(n.state)),
        n.state == o.state ==> !announces_state(actions),
{
    let band = abs_difference(mask, w, detection_gap(o.liquid_levels@, s.movemap));
    if n.state != o.state {
        match o.state {
            BotState::CheckingLiquidLevel(t) => {
                let levels = n.liquid_levels@;
                let g = gap_message(detection_gap(levels, s.movemap));
                assert(actions[g.len() as int] == send_state(n.state));
            },
            BotState::Cast => {
                let k = if s.bot.use_potions { 2int } else { 1int };
                assert(actions[k] == send_state(n.state));
            },
            BotState::WaitingForBite => {
                if s.bot.detection_method == DetectionMethod::Sonar {
                    assert(actions[1] == send_state(n.state));
                } else {
                    match band {
                        None => assert(actions[1] == send_state(n.state)),
                        Some(a) => match seq_max(o.noises@) {
                            Some(noise) => assert(actions[0] == send_state(n.state)),
                            None => assert(actions[1] == send_state(n.state)),
                        },
                    }
                }
            },
            BotState::Catch => assert(actions[1] == send_state(n.state)),
            _ => assert(actions[0] == send_state(n.state)),
        }
    } else {
        match o.state {
            BotState::WaitingForBite => {
                if s.bot.detection_method == DetectionMethod::Sonar {
                    let found = wants_any(
                        s.sonar.sonar_detection_words@,
                        words.unwrap()@,
                        s.sonar.sonar_detection_threshold,
                    );
                    assert(!found);
                    if announces_state(actions) {
                        let k = choose|k: int| 0 <= k < actions.len() && #[trigger] actions[k] matches BotAction::Send(
                            UiSended::ChangeState(_),
                        );
                        assert(actions[k] == BotAction::UsePotions);
                    }
                } else {
                    match band {
                        None => {},
                        Some(a) => match seq_max(o.noises@) {
                            Some(noise) => {},
                            None => {},
                        },
                    }
                }
            },
            _ => {},
        }
    }
}

/// An idle bot stays idle and asks for nothing on any frame, so a stopped
/// bot never clicks or presses a key.
pub proof fn law_idle_is_inert(
    o: Bot,
    n: Bot,
    mask: Seq<u8>,
    w: int,
    h: int,
    now: u64,
    s: Settings,
    words: Option<Vec<String>>,
    actions: Seq<BotAction>,
)
    requires
        step(o, n, mask, w, h, now, s, words, actions),
        o.state == BotState::Idle,
    ensures
        n.state == BotState::Idle,
        actions.len() == 0,
        n.liquid_levels@ == o.liquid_levels@,
        n.noises@ == o.noises@,
{
}

/// A step clicks to cast only when the bot was casting, and clicks to reel in
/// only when it was reeling in or, by MoveMap, waiting for a bite; it presses
/// the potion key only when casting or, by Sonar, waiting for a bite.
pub proof fn law_clicks_by_state(
    o: Bot,
    n: Bot,
    mask: Seq<u8>,
    w: int,
    h: int,
    now: u64,
    s: Settings,
    words: Option<Vec<String>>,
    actions: Seq<BotAction>,
)
    requires
        step(o, n, mask, w, h, now, s, words, actions),
    ensures
        actions.contains(BotAction::Cast) ==> o.state == BotState::Cast,
        actions.contains(BotAction::Catch) ==> o.state == BotState::Catch || (o.state
            == BotState::WaitingForBite && s.bot.detection_method != DetectionMethod::Sonar),
        actions.contains(BotAction::UsePotions) ==> (o.state == BotState::Cast && s.bot.use_potions)
            || (o.state == BotState::WaitingForBite && s.bot.detection_method == DetectionMethod::Sonar
            && s.bot.use_potions),
{
    let band = abs_difference(mask, w, detection_gap(o.liquid_levels@, s.movemap));
    if actions.contains(BotAction::Cast) || actions.contains(BotAction::Catch) || actions.contains(
        BotAction::UsePotions,
    ) {
        let a = if actions.contains(BotAction::Cast) {
            BotAction::Cast
        } else if actions.contains(BotAction::Catch) {
            BotAction::Catch
        } else {
            BotAction::UsePotions
        };
        let k = choose|k: int| 0 <= k < actions.len() && actions[k] == a;
        match o.state {
            BotState::CheckingLiquidLevel(t) => {
                let levels = n.liquid_levels@;
                let g = gap_message(detection_gap(levels, s.movemap));
                if n.state != o.state {
                    if k < g.len() {
                        assert(actions[k] == g[k]);
                    } else {
                        assert(actions[k] == send_state(n.state));
                    }
                }
            },
            BotState::WaitingForBite => {
                if s.bot.detection_method == DetectionMethod::Sonar {
                    let found = wants_any(
                        s.sonar.sonar_detection_words@,
                        words.unwrap()@,
                        s.sonar.sonar_detection_threshold,
                    );
                    let first: Seq<BotAction> = if found {
                        seq![
                            BotAction::Send(UiSended::DetectedItems(words.unwrap())),
                            send_state(BotState::Catch),
                        ]
                    } else {
                        seq![]
                    };
                    if k < first.len() {
                        assert(actions[k] == first[k]);
                    } else {
                        assert(actions[k] == BotAction::UsePotions);
                    }
                } else {
                    match band {
                        None => {},
                        Some(v) => match seq_max(o.noises@) {
                            Some(noise) => {},
                            None => {},
                        },
                    }
                }
            },
            BotState::Cast => {
                if !s.bot.use_potions {
                    assert(actions[k] == seq![BotAction::Cast, send_state(BotState::CastingCooldown(now))][k]);
                } else {
                    assert(actions[k] == seq![
                        BotAction::Cast,
                        BotAction::UsePotions,
                        send_state(BotState::CastingCooldown(now)),
                    ][k]);
                }
            },
            _ => {},
        }
    }
}

/// The greatest noise is at least every noise and is one of them.
pub proof fn law_max_noise(noises: Seq<u32>)
    ensures
        seq_max(noises) is None <==> noises.len() == 0,
        seq_max(noises) matches Some(m) ==> (forall|k: int| 0 <= k < noises.len() ==> #[trigger] noises[k] <= m)
            && exists|k: int| 0 <= k < noises.len() && noises[k] == m,
    decreases noises.len(),
{
    if noises.len() > 0 {
        let rest = noises.drop_last();
        law_max_noise(rest);
        match seq_max(rest) {
            None => {
                assert(noises[noises.len() - 1] == noises.last());
            },
            Some(m0) => {
                let m = seq_max(noises).unwrap();
                assert forall|k: int| 0 <= k < noises.len() implies #[trigger] noises[k] <= m by {
                    if k < rest.len() {
                        assert(noises[k] == rest[k]);
                    }
                }
                if m == m0 {
                    let k = choose|k: int| 0 <= k < rest.len() && rest[k] == m0;
                    assert(noises[k] == rest[k]);
                } else {
                    assert(noises[noises.len() - 1] == m);
                }
            },
        }
    }
}

/// The middle of sorted levels lies between the smallest and the greatest.
pub proof fn law_mean_between(levels: Seq<u32>)
    requires
        sorted(levels),
    ensures
        mean_level(levels) matches Some(m) ==> levels[0] <= m <= levels[levels.len() - 1],
{
}

/// While waiting for a bite by movement, with `noise` the greatest measured
/// noise and `moving` the number of moving pixels (as `u32`) in the rows
/// `start..stop` of the watched band, the bot reels in exactly when `moving`
/// exceeds `noise` plus the detection threshold; at or below that it keeps
/// waiting and asks for nothing.
pub proof fn law_bite_needs_noise_margin(
    o: Bot,
    n: Bot,
    mask: Seq<u8>,
    w: int,
    h: int,
    now: u64,
    s: Settings,
    words: Option<Vec<String>>,
    actions: Seq<BotAction>,
    noise: u32,
    start: u32,
    stop: u32,
)
    requires
        step(o, n, mask, w, h, now, s, words, actions),
        o.state == BotState::WaitingForBite,
        s.bot.detection_method == DetectionMethod::MoveMap,
        forall|k: int| 0 <= k < o.noises@.len() ==> #[trigger] o.noises@[k] <= noise,
        exists|k: int| 0 <= k < o.noises@.len() && #[trigger] o.noises@[k] == noise,
        detection_gap(o.liquid_levels@, s.movemap) == Some((start, stop)),
    ensures
        ({
            let moving = count_nonzero(mask.subrange(start * w, stop * w)) as u32;
            &&& (n.state == BotState::Catch) == (moving > noise + s.movemap.detection_threshold)
            &&& moving > noise + s.movemap.detection_threshold ==> actions == seq![
                send_state(BotState::Catch),
            ]
            &&& moving <= noise + s.movemap.detection_threshold ==> n.state
                == BotState::WaitingForBite && actions.len() == 0
        }),
{
    law_max_noise(o.noises@);
    let m = seq_max(o.noises@).unwrap();
    let k = choose|k: int| 0 <= k < o.noises@.len() && #[trigger] o.noises@[k] == noise;
    let j = choose|j: int| 0 <= j < o.noises@.len() && o.noises@[j] == m;
    assert(o.noises@[k] <= m);
    assert(o.noises@[j] <= noise);
}

/// The movement count of a band depends only on the mask bytes of the band's
/// rows: masks that agree there give the same count, whatever lies above or
/// below; and a band with no moving pixel counts 0.
pub proof fn law_band_count_local(m1: Seq<u8>, m2: Seq<u8>, w: int, start: u32, stop: u32)
    requires
        0 <= w,
        start * w <= stop * w <= m1.len(),
        m1.len() == m2.len(),
        forall|i: int| start * w <= i < stop * w ==> #[trigger] m1[i] == m2[i],
    ensures
        abs_difference(m1, w, Some((start, stop))) == abs_difference(m2, w, Some((start, stop))),
        (forall|i: int| start * w <= i < stop * w ==> #[trigger] m1[i] == 0) ==> abs_difference(
            m1,
            w,
            Some((start, stop)),
        ) == Some(0u32),
{
    assert(m1.subrange(start * w, stop * w) =~= m2.subrange(start * w, stop * w));
    if forall|i: int| start * w <= i < stop * w ==> #[trigger] m1[i] == 0 {
        lemma_count_zero(m1.subrange(start * w, stop * w));
    }
}

proof fn lemma_count_zero(s: Seq<u8>)
    requires
        forall|i: int| 0 <= i < s.len() ==> #[trigger] s[i] == 0,
    ensures
        count_nonzero(s) == 0,
    decreases s.len(),
{
    if s.len() > 0 {
        lemma_count_zero(s.drop_last());
    }
}

/// The middle of the levels depends only on the middle elements: levels that
/// agree at index `n / 2` (and, for an even count, at `n / 2 + 1`) have the same
/// middle, whatever the smaller and larger levels are; of sorted levels with an
/// even count of at least four, it lies between those two elements.
pub proof fn law_mean_uses_middle(l1: Seq<u32>, l2: Seq<u32>)
    requires
        l1.len() == l2.len(),
        l1.len() > 3 ==> l1[(l1.len() / 2) as int] == l2[(l1.len() / 2) as int],
        l1.len() > 3 && l1.len() % 2 == 0 ==> l1[(l1.len() / 2 + 1) as int] == l2[(l1.len() / 2 + 1) as int],
    ensures
        mean_level(l1) == mean_level(l2),
        l1.len() <= 3 ==> mean_level(l1) is None,
        sorted(l1) && l1.len() > 3 && l1.len() % 2 == 0 ==> l1[(l1.len() / 2) as int]
            <= mean_level(l1).unwrap() <= l1[(l1.len() / 2 + 1) as int],
{
}

/// While measuring, a step records exactly what it measured: the liquid level
/// of the mask joins the levels (which stay sorted), and the movement in the
/// watched band joins the noises; nothing else is added or lost.
pub proof fn law_measures_recorded(
    o: Bot,
    n: Bot,
    mask: Seq<u8>,
    w: int,
    h: int,
    now: u64,
    s: Settings,
    words: Option<Vec<String>>,
    actions: Seq<BotAction>,
)
    requires
        step(o, n, mask, w, h, now, s, words, actions),
    ensures
        o.state is CheckingLiquidLevel ==> (liquid_level(mask, w, h) matches Some(y)
            ==> n.liquid_levels@.to_multiset() == o.liquid_levels@.to_multiset().insert(y as u32)
            && (sorted(o.liquid_levels@) ==> sorted(n.liquid_levels@))),
        o.state is CheckingLiquidLevel && liquid_level(mask, w, h) is None ==> n.liquid_levels@
            == o.liquid_levels@,
        o.state is CheckingNoise ==> (detection_gap(o.liquid_levels@, s.movemap) matches Some(
            (start, stop),
        ) ==> n.noises@ == o.noises@.push(count_nonzero(mask.subrange(start * w, stop * w)) as u32)),
        o.state is CheckingNoise && detection_gap(o.liquid_levels@, s.movemap) is None
            ==> n.noises@ == o.noises@,
        !(o.state is CheckingLiquidLevel) ==> n.liquid_levels@ == o.liquid_levels@,
        !(o.state is CheckingNoise) ==> n.noises@ == o.noises@,
{
    broadcast use vstd::seq_lib::group_to_multiset_ensures;

    if o.state is CheckingLiquidLevel {
        if let Some(y) = liquid_level(mask, w, h) {
            law_sorted_insert_permutes(o.liquid_levels@, y as u32);
            if sorted(o.liquid_levels@) {
                law_sorted_insert_sorted(o.liquid_levels@, y as u32);
            }
        }
    }
}

/// The liquid level of a mask is the first row whose sum of mask bytes is the
/// greatest, provided that sum is positive.
pub proof fn law_liquid_level_first_greatest_row(mask: Seq<u8>, w: int, h: int, y: int)
    requires
        0 <= y < h,
        seq_sum(mask.subrange(y * w, y * w + w)) > 0,
        forall|z: int|
            0 <= z < h ==> #[trigger] seq_sum(mask.subrange(z * w, z * w + w)) <= seq_sum(
                mask.subrange(y * w, y * w + w),
            ),
        forall|z: int|
            0 <= z < y ==> #[trigger] seq_sum(mask.subrange(z * w, z * w + w)) < seq_sum(
                mask.subrange(y * w, y * w + w),
            ),
    ensures
        liquid_level(mask, w, h) == Some(y),
{
    assert forall|z: int| 0 <= z < h implies #[trigger] row_sum(mask, w, z) <= row_sum(mask, w, y) by {
        assert(row_sum(mask, w, z) == seq_sum(mask.subrange(z * w, z * w + w)));
    }
    assert forall|z: int| 0 <= z < y implies #[trigger] row_sum(mask, w, z) < row_sum(mask, w, y) by {
        assert(row_sum(mask, w, z) == seq_sum(mask.subrange(z * w, z * w + w)));
    }
    assert(is_top_row(mask, w, h, y));
    let c = choose|c: int| is_top_row(mask, w, h, c);
    lemma_top_row_unique(mask, w, h, c, y);
}

/// Each measuring or waiting phase lasts its own delay: while no more than
/// that delay has passed since the phase began, a step leaves the state as it
/// is and asks for nothing, whatever the other delays are. The noise phase
/// ends in `Cast` once its delay has passed and some noise was measured.
pub proof fn law_phases_wait_their_delay(
    o: Bot,
    n: Bot,
    mask: Seq<u8>,
    w: int,
    h: int,
    now: u64,
    s: Settings,
    words: Option<Vec<String>>,
    actions: Seq<BotAction>,
)
    requires
        step(o, n, mask, w, h, now, s, words, actions),
    ensures
        o.state matches BotState::CheckingNoise(t) && now <= t + s.movemap.noises_delay_millis
            ==> n.state == o.state && actions.len() == 0,
        o.state matches BotState::CheckingNoise(t) && now > t + s.movemap.noises_delay_millis
            && o.noises@.len() > 0 ==> n.state == BotState::Cast && actions == seq![
            send_state(BotState::Cast),
        ],
        o.state matches BotState::CheckingLiquidLevel(t) && now <= t
            + s.movemap.liquid_detection_delay_millis ==> n.state == o.state && actions.len() == 0,
        o.state matches BotState::CheckingLiquidLevel(t) && now > t
            + s.movemap.liquid_detection_delay_millis && n.liquid_levels@.len() > 3 ==> n.state
            == BotState::CheckingNoise(now),
        o.state matches BotState::CheckingLiquidLevel(t) && n.liquid_levels@.len() <= 3 ==> n.state
            == o.state && actions.len() == 0,
        o.state matches BotState::CastingCooldown(t) && now <= t + s.bot.casting_delay_millis
            ==> n.state == o.state && actions.len() == 0,
        o.state matches BotState::CastingCooldown(t) && now > t + s.bot.casting_delay_millis
            ==> n.state == BotState::WaitingForBite && actions == seq![
            send_state(BotState::WaitingForBite),
        ],
{
}

/// With a band height that fits in `i32`, the watched band runs downwards:
/// its first row is at most its last, which lies below row 0.
pub proof fn law_gap_ordered(levels: Seq<u32>, m: MovemapSettings)
    requires
        m.detection_gap_size <= i32::MAX,
    ensures
        detection_gap(levels, m) matches Some((start, stop)) ==> start <= stop && stop > 0,
{
}

/// The liquid level is the first row of greatest positive sum; there is none
/// exactly when every row sums to 0.
pub proof fn law_liquid_level(mask: Seq<u8>, w: int, h: int)
    requires
        0 <= w,
        0 <= h,
        mask.len() == w * h,
    ensures
        liquid_level(mask, w, h) matches Some(y) ==> is_top_row(mask, w, h, y),
        liquid_level(mask, w, h) is None <==> forall|y: int| 0 <= y < h ==> #[trigger] row_sum(mask, w, y) == 0,
{
    if liquid_level(mask, w, h) is None {
        assert forall|y: int| 0 <= y < h implies #[trigger] row_sum(mask, w, y) == 0 by {
            lemma_rows_nonnegative(mask, w, y);
            if row_sum(mask, w, y) > 0 {
                lemma_top_row_exists(mask, w, h, y);
            }
        }
    } else {
        let y = liquid_level(mask, w, h).unwrap();
        assert(is_top_row(mask, w, h, y));
        assert(row_sum(mask, w, y) != 0);
    }
}

proof fn lemma_sum_nonnegative(s: Seq<u8>)
    ensures
        seq_sum(s) >= 0,
    decreases s.len(),
{
    if s.len() > 0 {
        lemma_sum_nonnegative(s.drop_last());
    }
}

proof fn lemma_rows_nonnegative(mask: Seq<u8>, w: int, y: int)
    ensures
        row_sum(mask, w, y) >= 0,
{
    lemma_sum_nonnegative(mask.subrange(y * w, y * w + w));
}

/// When some row has a positive sum, some row is the top row.
proof fn lemma_top_row_exists(mask: Seq<u8>, w: int, h: int, y0: int)
    requires
        0 <= y0 < h,
        row_sum(mask, w, y0) > 0,
    ensures
        exists|y: int| is_top_row(mask, w, h, y),
{
    lemma_first_max_row(mask, w, h, h);
    let best = first_max_row(mask, w, h, h);
    assert(row_sum(mask, w, y0) <= row_sum(mask, w, best));
    assert(is_top_row(mask, w, h, best));
}

/// The first row of greatest sum among rows `0..k` (row 0 when `k` is 0).
spec fn first_max_row(mask: Seq<u8>, w: int, h: int, k: int) -> int
    decreases k,
{
    if k <= 1 {
        0
    } else {
        let b = first_max_row(mask, w, h, k - 1);
        if row_sum(mask, w, k - 1) > row_sum(mask, w, b) {
            k - 1
        } else {
            b
        }
    }
}

proof fn lemma_first_max_row(mask: Seq<u8>, w: int, h: int, k: int)
    requires
        1 <= k,
    ensures
        0 <= first_max_row(mask, w, h, k) < k,
        forall|z: int| 0 <= z < k ==> #[trigger] row_sum(mask, w, z) <= row_sum(mask, w, first_max_row(mask, w, h, k)),
        forall|z: int| 0 <= z < first_max_row(mask, w, h, k) ==> #[trigger] row_sum(mask, w, z) < row_sum(mask, w, first_max_row(mask, w, h, k)),
    decreases k,
{
    if k > 1 {
        lemma_first_max_row(mask, w, h, k - 1);
    }
}

impl Bot {
    /// The levels are sorted and the kept frame is a well-formed image.
    pub open spec fn wf(&self) -> bool {
        &&& sorted(self.liquid_levels@)
        &&& self.last_frame matches Some(f) ==> f.wf()
    }

    /// An idle bot that has measured nothing.
    pub fn new() -> (b: Bot)
        ensures
            b.wf(),
            b.state == BotState::Idle,
            b.liquid_levels@.len() == 0,
            b.noises@.len() == 0,
            b.last_frame is None,
            b.last_cast_time is None,
            b.pending@.len() == 0,
    {
        Bot {
            state: BotState::Idle,
            liquid_levels: Vec::new(),
            noises: Vec::new(),
            last_frame: None,
            last_cast_time: None,
            pending: Vec::new(),
        }
    }

    /// Hands over the queued outside work, oldest first, and empties the queue.
    pub fn take_actions(&mut self) -> (actions: Vec<BotAction>)
        ensures
            actions@ == old(self).pending@,
            final(self).pending@.len() == 0,
            final(self).state == old(self).state,
            final(self).liquid_levels == old(self).liquid_levels,
            final(self).noises == old(self).noises,
            final(self).last_frame == old(self).last_frame,
            final(self).last_cast_time == old(self).last_cast_time,
    {
        let mut actions: Vec<BotAction> = Vec::new();
        std::mem::swap(&mut actions, &mut self.pending);
        actions
    }

    fn set_state(&mut self, new_state: BotState)
        ensures
            final(self).state == new_state,
            final(self).pending@ == old(self).pending@.push(send_state(new_state)),
            final(self).liquid_levels == old(self).liquid_levels,
            final(self).noises == old(self).noises,
            final(self).last_frame == old(self).last_frame,
            final(self).last_cast_time == old(self).last_cast_time,
    {
        self.state = new_state;
        self.pending.push(BotAction::Send(UiSended::ChangeState(new_state)));
    }

    /// The middle of the sorted liquid levels, as `mean_level` describes it.
    pub fn get_mean_liquid_level(&self) -> (mean: Option<u32>)
        ensures
            match mean {
                Some(v) => mean_level(self.liquid_levels@) == Some(v as int),
                None => mean_level(self.liquid_levels@) is None,
            },
    {
        let count: usize = self.liquid_levels.len();
        if count <= 3 {
            return None;
        }
        let half: usize = count / 2;
        if count % 2 == 0 {
            Some(mid_value(self.liquid_levels[half], self.liquid_levels[half + 1]))
        } else {
            Some(self.liquid_levels[half])
        }
    }

    /// The greatest noise measured, if any.
    pub fn get_max_noise_level(&self) -> (max: Option<u32>)
        ensures
            match max {
                Some(v) => seq_max(self.noises@) == Some(v as int),
                None => seq_max(self.noises@) is None,
            },
    {
        let mut best: Option<u32> = None;
        let mut i: usize = 0;
        while i < self.noises.len()
            invariant
                0 <= i <= self.noises@.len(),
                match best {
                    Some(v) => seq_max(self.noises@.take(i as int)) == Some(v as int),
                    None => seq_max(self.noises@.take(i as int)) is None,
                },
            decreases self.noises@.len() - i,
        {
            proof {
                assert(self.noises@.take(i + 1).drop_last() =~= self.noises@.take(i as int));
            }
            let v: u32 = self.noises[i];
            best = match best {
                None => Some(v),
                Some(m) => Some(if m >= v { m } else { v }),
            };
            i = i + 1;
        }
        assert(self.noises@.take(self.noises@.len() as int) =~= self.noises@);
        best
    }

    /// Rows of the band watched for movement, as `detection_gap` describes it.
    pub fn get_detection_gap(&self, movemap: &MovemapSettings) -> (gap: Option<(u32, u32)>)
        ensures
            gap == detection_gap(self.liquid_levels@, *movemap),
    {
        match self.get_mean_liquid_level() {
            None => None,
            Some(mean) => {
                let level: i64 = crate::opencv::to_signed(mean) + movemap.liquid_offset as i64;
                let gap: i64 = level - crate::opencv::to_signed(movemap.detection_gap_size);
                if level > 0 {
                    let start: i64 = if gap >= 0 { gap } else { 0 };
                    Some((start as u32, level as u32))
                } else {
                    None
                }
            },
        }
    }

    /// Number of nonzero pixels of `mask` in the watched band.
    pub fn get_abs_difference(&self, mask: &GrayImage, movemap: &MovemapSettings) -> (count: Option<u32>)
        requires
            mask.wf(),
            gap_fits(
                detection_gap(self.liquid_levels@, *movemap),
                mask.spec_width() as int,
                mask.spec_height() as int,
            ),
        ensures
            count == abs_difference(mask@, mask.spec_width() as int, detection_gap(self.liquid_levels@, *movemap)),
    {
        match self.get_detection_gap(movemap) {
            None => None,
            Some((y_start, y_stop)) => {
                let w: usize = mask.width() as usize;
                let raw: &Vec<u8> = mask.as_raw();
                assert(raw@.len() == mask.spec_width() * mask.spec_height()) by {
                    assert(mask@.len() == mask.area() * 1);
                }
                let _len: usize = raw.len();
                let start_idx: usize = y_start as usize * w;
                let stop_idx: usize = y_stop as usize * w;
                let mut count: usize = 0;
                let mut i: usize = start_idx;
                while i < stop_idx
                    invariant
                        start_idx <= i <= stop_idx,
                        stop_idx <= raw@.len(),
                        count == count_nonzero(raw@.subrange(start_idx as int, i as int)),
                        count <= i - start_idx,
                    decreases stop_idx - i,
                {
                    proof {
                        lemma_sum_step(raw@, start_idx as int, i as int);
                    }
                    if raw[i] > 0 {
                        count = count + 1;
                    }
                    i = i + 1;
                }
                Some(count as u32)
            },
        }
    }

    /// The difference mask of `current_frame` against the previous frame, when
    /// there is a previous frame of the same size.
    pub fn get_difference_mask(&self, current_frame: &RgbaImage) -> (mask: Option<GrayImage>)
        requires
            self.wf(),
            current_frame.wf(),
        ensures
            mask is Some <==> has_mask(*self, *current_frame),
            mask matches Some(m) ==> m.wf() && m.spec_width() == current_frame.spec_width()
                && m.spec_height() == current_frame.spec_height() && m@ == mask_of(
                *current_frame,
                self.last_frame.unwrap(),
            ),
    {
        match &self.last_frame {
            None => None,
            Some(last_image) => {
                if current_frame.width() != last_image.width() || current_frame.height() != last_image.height() {
                    return None;
                }
                let m = rgba_difference_mask(current_frame, last_image);
                assert(m@ =~= mask_of(*current_frame, *last_image)) by {
                    assert forall|i: int| 0 <= i < current_frame.area() implies m@[i] == mask_of(
                        *current_frame,
                        *last_image,
                    )[i] by {
                        assert(m.byte(i, 0) == m@[i * 1 + 0]);
                    }
                }
                Some(m)
            },
        }
    }

    /// Takes one frame: when there is a previous frame of the same size, it
    /// makes their difference mask and takes the step that `step` describes for
    /// the current state, queueing the outside work; in any case the frame
    /// becomes the previous frame. `now` is the clock in milliseconds, and
    /// `words` the words read on this frame when the step needs them.
    pub fn update(&mut self, frame: RgbaImage, now: u64, settings: &Settings, words: Option<Vec<String>>)
        requires
            old(self).wf(),
            frame.wf(),
            update_ok(*old(self), frame, *settings),
            reads_words(*old(self), frame, *settings) ==> words is Some,
        ensures
            final(self).wf(),
            final(self).last_frame == Some(frame),
            final(self).pending@.len() >= old(self).pending@.len(),
            final(self).pending@.subrange(0, old(self).pending@.len() as int) == old(self).pending@,
            has_mask(*old(self), frame) ==> step(
                *old(self),
                *final(self),
                mask_of(frame, old(self).last_frame.unwrap()),
                frame.spec_width() as int,
                frame.spec_height() as int,
                now,
                *settings,
                words,
                final(self).pending@.skip(old(self).pending@.len() as int),
            ),
            !has_mask(*old(self), frame) ==> {
                &&& final(self).state == old(self).state
                &&& final(self).liquid_levels@ == old(self).liquid_levels@
                &&& final(self).noises@ == old(self).noises@
                &&& final(self).last_cast_time == old(self).last_cast_time
                &&& final(self).pending@ == old(self).pending@
            },
    {
        let ghost o = *self;
        let mask = match self.get_difference_mask(&frame) {
            None => {
                self.last_frame = Some(frame);
                return ;
            },
            Some(m) => m,
        };
        let ghost w = frame.spec_width() as int;
        let ghost h = frame.spec_height() as int;
        match self.state {
            BotState::CheckingLiquidLevel(time) => {
                if let Some(level) = find_liquid_level(&mask) {
                    insert_sorted(&mut self.liquid_levels, level);
                    proof {
                        law_sorted_insert_sorted(o.liquid_levels@, level);
                    }
                }
                let delay: u64 = settings.movemap.liquid_detection_delay_millis;
                if elapsed_ms(time, now) > delay {
                    if let Some(_mean) = self.get_mean_liquid_level() {
                        if let Some(gap) = self.get_detection_gap(&settings.movemap) {
                            self.pending.push(BotAction::Send(UiSended::LiquidGap(gap.0, gap.1)));
                        }
                        self.set_state(BotState::CheckingNoise(now));
                    }
                }
            },
            BotState::CheckingNoise(time) => {
                if let Some(level) = self.get_abs_difference(&mask, &settings.movemap) {
                    self.noises.push(level);
                }
                let delay: u64 = settings.movemap.noises_delay_millis;
                if elapsed_ms(time, now) > delay {
                    if let Some(_max) = self.get_max_noise_level() {
                        self.set_state(BotState::Cast);
                    }
                }
            },
            BotState::Cast => {
                self.pending.push(BotAction::Cast);
                if settings.bot.use_potions {
                    self.pending.push(BotAction::UsePotions);
                }
                self.set_state(BotState::CastingCooldown(now));
            },
            BotState::CastingCooldown(time) => {
                let delay: u64 = settings.bot.casting_delay_millis;
                if elapsed_ms(time, now) > delay {
                    self.set_state(BotState::WaitingForBite);
                }
            },
            BotState::WaitingForBite => {
                self.waiting_for_bite_logic(&mask, now, settings, words);
            },
            BotState::Catch => {
                self.pending.push(BotAction::Catch);
                self.set_state(BotState::Cast);
            },
            _ => {},
        }
        self.last_frame = Some(frame);
        proof {
            let n = *self;
            let acts = n.pending@.skip(o.pending@.len() as int);
            assert(n.pending@.subrange(0, o.pending@.len() as int) =~= o.pending@);
            assert(mask@ == mask_of(frame, o.last_frame.unwrap()));
            match o.state {
                BotState::CheckingLiquidLevel(t) => {
                    assert(acts =~= if n.state != o.state {
                        gap_message(detection_gap(n.liquid_levels@, settings.movemap)) + seq![
                            send_state(BotState::CheckingNoise(now)),
                        ]
                    } else {
                        seq![]
                    });
                },
                BotState::CheckingNoise(t) => {
                    assert(acts =~= if n.state != o.state {
                        seq![send_state(BotState::Cast)]
                    } else {
                        seq![]
                    });
                },
                BotState::Cast => {
                    assert(acts =~= seq![BotAction::Cast] + (if settings.bot.use_potions {
                        seq![BotAction::UsePotions]
                    } else {
                        seq![]
                    }) + seq![send_state(BotState::CastingCooldown(now))]);
                },
                BotState::CastingCooldown(t) => {
                    assert(acts =~= if n.state != o.state {
                        seq![send_state(BotState::WaitingForBite)]
                    } else {
                        seq![]
                    });
                },
                BotState::Catch => {
                    assert(acts =~= seq![BotAction::Catch, send_state(BotState::Cast)]);
                },
                BotState::WaitingForBite => {},
                _ => {
                    assert(acts =~= Seq::<BotAction>::empty());
                },
            }
        }
    }

    /// The step while waiting for a bite.
    fn waiting_for_bite_logic(
        &mut self,
        mask: &GrayImage,
        now: u64,
        settings: &Settings,
        words: Option<Vec<String>>,
    )
        requires
            old(self).wf(),
            old(self).state == BotState::WaitingForBite,
            mask.wf(),
            settings.bot.detection_method != DetectionMethod::Yolo,
            settings.bot.detection_method == DetectionMethod::MoveMap ==> gap_fits(
                detection_gap(old(self).liquid_levels@, settings.movemap),
                mask.spec_width() as int,
                mask.spec_height() as int,
            ),
            settings.bot.detection_method == DetectionMethod::Sonar ==> words is Some,
        ensures
            final(self).wf(),
            final(self).last_frame == old(self).last_frame,
            final(self).pending@.len() >= old(self).pending@.len(),
            final(self).pending@.subrange(0, old(self).pending@.len() as int) == old(self).pending@,
            step(
                *old(self),
                *final(self),
                mask@,
                mask.spec_width() as int,
                mask.spec_height() as int,
                now,
                *settings,
                words,
                final(self).pending@.skip(old(self).pending@.len() as int),
            ),
    {
        let ghost o = *self;
        match settings.bot.detection_method {
            DetectionMethod::Sonar => {
                let ws: Vec<String> = match words {
                    Some(ws) => ws,
                    None => Vec::new(),
                };
                let found: bool = SonarDetector::wants_any(
                    settings.sonar.sonar_detection_words.as_str(),
                    &ws,
                    settings.sonar.sonar_detection_threshold,
                );
                let ghost mid = self.pending@;
                if found {
                    self.pending.push(BotAction::Send(UiSended::DetectedItems(ws)));
                    self.set_state(BotState::Catch);
                }
                let ghost after_found = self.pending@;
                if let Some(time) = self.last_cast_time {
                    if elapsed_ms(time, now) > settings.bot.cast_max_time_millis && settings.bot.use_potions {
                        self.pending.push(BotAction::UsePotions);
                        self.last_cast_time = Some(now);
                    }
                }
                proof {
                    let acts = self.pending@.skip(o.pending@.len() as int);
                    assert(self.pending@.subrange(0, o.pending@.len() as int) =~= o.pending@);
                    let potion = o.last_cast_time matches Some(t) && elapsed(t, now)
                        > settings.bot.cast_max_time_millis && settings.bot.use_potions;
                    assert(acts =~= (if found {
                        seq![
                            BotAction::Send(UiSended::DetectedItems(words.unwrap())),
                            send_state(BotState::Catch),
                        ]
                    } else {
                        seq![]
                    }) + (if potion {
                        seq![BotAction::UsePotions]
                    } else {
                        seq![]
                    }));
                }
            },
            _ => {
                match self.get_abs_difference(mask, &settings.movemap) {
                    None => {
                        self.pending.push(BotAction::Catch);
                        self.set_state(BotState::CheckingLiquidLevel(now));
                    },
                    Some(abs_difference) => {
                        match self.get_max_noise_level() {
                            Some(noise) => {
                                if abs_difference as u64 > noise as u64
                                    + settings.movemap.detection_threshold as u64 {
                                    self.set_state(BotState::Catch);
                                }
                            },
                            None => {
                                self.pending.push(BotAction::Catch);
                                self.set_state(BotState::CheckingNoise(now));
                            },
                        }
                    },
                }
                proof {
                    let acts = self.pending@.skip(o.pending@.len() as int);
                    assert(self.pending@.subrange(0, o.pending@.len() as int) =~= o.pending@);
                    if self.state == BotState::CheckingLiquidLevel(now) {
                        assert(acts =~= seq![BotAction::Catch, send_state(BotState::CheckingLiquidLevel(now))]);
                    } else if self.state == BotState::CheckingNoise(now) {
                        assert(acts =~= seq![BotAction::Catch, send_state(BotState::CheckingNoise(now))]);
                    } else if self.state == BotState::Catch {
                        assert(acts =~= seq![send_state(BotState::Catch)]);
                    } else {
                        assert(acts =~= Seq::<BotAction>::empty());
                    }
                }
            },
        }
    }


    /// Leaves `Idle` and starts the procedure of the detection method (measuring
    /// the liquid level for MoveMap, casting for Sonar); `true` when it did.
    /// A bot that is not idle is left as it is.
    pub fn start(&mut self, settings: &Settings, now: u64) -> (started: bool)
        requires
            !(old(self).state == BotState::Idle && settings.bot.detection_method == DetectionMethod::Yolo),
        ensures
            started == (old(self).state == BotState::Idle),
            final(self).liquid_levels == old(self).liquid_levels,
            final(self).noises == old(self).noises,
            final(self).last_frame == old(self).last_frame,
            final(self).last_cast_time == old(self).last_cast_time,
            started ==> {
                let s = if settings.bot.detection_method == DetectionMethod::MoveMap {
                    BotState::CheckingLiquidLevel(now)
                } else {
                    BotState::Cast
                };
                &&& final(self).state == s
                &&& final(self).pending@ == old(self).pending@.push(send_state(s))
            },
            !started ==> final(self).state == old(self).state && final(self).pending@ == old(
                self,
            ).pending@,
    {
        if self.state == BotState::Idle {
            match settings.bot.detection_method {
                DetectionMethod::MoveMap => {
                    self.set_state(BotState::CheckingLiquidLevel(now));
                },
                _ => {
                    self.set_state(BotState::Cast);
                },
            }
            return true;
        }
        false
    }

    /// Returns to `Idle`, forgetting the measured levels, noises and cast time.
    /// An idle bot is left as it is.
    pub fn stop(&mut self)
        ensures
            final(self).last_frame == old(self).last_frame,
            final(self).state == BotState::Idle,
            old(self).state != BotState::Idle ==> {
                &&& final(self).liquid_levels@.len() == 0
                &&& final(self).noises@.len() == 0
                &&& final(self).last_cast_time is None
                &&& final(self).pending@ == old(self).pending@.push(send_state(BotState::Idle))
            },
            old(self).state == BotState::Idle ==> {
                &&& final(self).liquid_levels == old(self).liquid_levels
                &&& final(self).noises == old(self).noises
                &&& final(self).last_cast_time == old(self).last_cast_time
                &&& final(self).pending@ == old(self).pending@
            },
    {
        if self.state != BotState::Idle {
            self.liquid_levels.clear();
            self.noises.clear();
            self.last_cast_time = None;
            self.set_state(BotState::Idle);
        }
    }

    /// Carries out a command: `Start` starts, `Stop` stops.
    pub fn handle_command(&mut self, cmd: BotCommand, settings: &Settings, now: u64)
        requires
            cmd is Start ==> !(old(self).state == BotState::Idle && settings.bot.detection_method
                == DetectionMethod::Yolo),
        ensures
            cmd is Start ==> {
                let s = if settings.bot.detection_method == DetectionMethod::MoveMap {
                    BotState::CheckingLiquidLevel(now)
                } else {
                    BotState::Cast
                };
                &&& old(self).state == BotState::Idle ==> final(self).state == s
                    && final(self).pending@ == old(self).pending@.push(send_state(s))
                &&& old(self).state != BotState::Idle ==> final(self).state == old(self).state
                    && final(self).pending@ == old(self).pending@
                &&& final(self).liquid_levels == old(self).liquid_levels
                &&& final(self).noises == old(self).noises
                &&& final(self).last_cast_time == old(self).last_cast_time
            },
            cmd is Stop ==> {
                &&& final(self).state == BotState::Idle
                &&& old(self).state != BotState::Idle ==> final(self).liquid_levels@.len() == 0
                    && final(self).noises@.len() == 0 && final(self).last_cast_time is None
                    && final(self).pending@ == old(self).pending@.push(send_state(BotState::Idle))
                &&& old(self).state == BotState::Idle ==> final(self).pending@ == old(self).pending@
            },
            final(self).last_frame == old(self).last_frame,
    {
        match cmd {
            BotCommand::Start => {
                self.start(settings, now);
            },
            BotCommand::Stop => {
                self.stop();
            },
        }
    }

    /// Whether `frame` differs from the previous frame (or there is none), so
    /// that it is worth a step.
    pub fn is_new_frame(&self, frame: &RgbaImage) -> (new: bool)
        ensures
            new == !(self.last_frame matches Some(last) && last.spec_width()
                == frame.spec_width() && last.spec_height() == frame.spec_height() && last@
                == frame@),
    {
        match &self.last_frame {
            None => true,
            Some(last) => !last.same_as(frame),
        }
    }

    /// Whether the next step on `frame` reads the words recognised on it.
    pub fn needs_words(&self, frame: &RgbaImage, settings: &Settings) -> (b: bool)
        ensures
            b == reads_words(*self, *frame, *settings),
    {
        let has_prev: bool = match &self.last_frame {
            None => false,
            Some(last) => last.width() == frame.width() && last.height() == frame.height(),
        };
        has_prev && self.state == BotState::WaitingForBite && settings.bot.detection_method
            == DetectionMethod::Sonar
    }

    /// Whether `update` can take a step on `frame`: the band it reads lies
    /// inside the frame, and it does not wait for a bite by the method that
    /// has no detector.
    pub fn can_update(&self, frame: &RgbaImage, settings: &Settings) -> (b: bool)
        ensures
            b == update_ok(*self, *frame, *settings),
    {
        let has_prev: bool = match &self.last_frame {
            None => false,
            Some(last) => last.width() == frame.width() && last.height() == frame.height(),
        };
        if !has_prev {
            return true;
        }
        let waiting: bool = self.state == BotState::WaitingForBite;
        let method = settings.bot.detection_method;
        if waiting && method == DetectionMethod::Yolo {
            return false;
        }
        let reads: bool = match self.state {
            BotState::CheckingNoise(_) => true,
            _ => waiting && method == DetectionMethod::MoveMap,
        };
        if !reads {
            return true;
        }
        match self.get_detection_gap(&settings.movemap) {
            None => true,
            Some((start, stop)) => {
                let w: u64 = frame.width() as u64;
                let h: u64 = frame.height() as u64;
                proof {
                    crate::image::lemma_area_bounds(w as int, h as int, 1);
                    assert(start * w <= u32::MAX * u32::MAX && stop * w <= u32::MAX * u32::MAX && w
                        * h <= u32::MAX * u32::MAX) by (nonlinear_arith)
                        requires
                            start <= u32::MAX,
                            stop <= u32::MAX,
                            w <= u32::MAX,
                            h <= u32::MAX,
                    ;
                }
                (start as u64) * w <= (stop as u64) * w && (stop as u64) * w <= w * h
            },
        }
    }

    /// Marks the watched band on `frame`: its first row blue, its last row red.
    pub fn draw_detection_gap(&self, frame: &mut RgbaImage, movemap: &MovemapSettings)
        requires
            old(frame).wf(),
        ensures
            gap_drawn(*old(frame), *final(frame), self.get_gap_spec(*movemap)),
    {
        let gap = self.get_detection_gap(movemap);
        draw_gap_lines(frame, gap);
    }

    pub open spec fn get_gap_spec(&self, movemap: MovemapSettings) -> Option<(u32, u32)> {
        detection_gap(self.liquid_levels@, movemap)
    }

}

} // verus!
