use vstd::prelude::*;

verus! {

/// A potion is due when none was used yet, or when more than `delay_millis`
/// passed since the last one.
pub open spec fn potion_is_due(last_use: Option<u64>, now: u64, delay_millis: u64) -> bool {
    match last_use {
        None => true,
        Some(t) => crate::bot::elapsed(t, now) > delay_millis,
    }
}

/// What the bot's input side remembers between key presses: when the potion
/// key last went down. The presses and clicks themselves are made by the
/// caller.
pub struct Controller {
    pub last_potion_use_time: Option<u64>,
}

impl Controller {
    /// A controller that has used no potion yet.
    pub fn new() -> (c: Controller)
        ensures
            c.last_potion_use_time is None,
    {
        Controller { last_potion_use_time: None }
    }

    /// Records that the potion key was pressed at `now`.
    pub fn potions_used(&mut self, now: u64)
        ensures
            final(self).last_potion_use_time == Some(now),
    {
        self.last_potion_use_time = Some(now);
    }

    /// Whether the potions are to be used now: none was used yet, or more than
    /// `potion_use_delay_millis` passed since the last use.
    pub fn use_potions_if_necessery(&self, now: u64, potion_use_delay_millis: u64) -> (due: bool)
        ensures
            due == potion_is_due(self.last_potion_use_time, now, potion_use_delay_millis),
    {
        match self.last_potion_use_time {
            None => true,
            Some(t) => {
                let passed: u64 = if now >= t { now - t } else { 0 };
                passed > potion_use_delay_millis
            },
        }
    }
}

} // verus!
