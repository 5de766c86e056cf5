use vstd::prelude::*;

verus! {

/// `s` after adding `x` to a window that keeps at most `size` items (at
/// least one): the oldest item leaves first.
pub open spec fn window_push<T>(s: Seq<T>, x: T, size: nat) -> Seq<T> {
    (if s.len() >= size && s.len() > 0 {
        s.drop_first()
    } else {
        s
    }).push(x)
}

/// The window after adding each of `items` in turn to an empty one.
pub open spec fn window_of<T>(items: Seq<T>, size: nat) -> Seq<T>
    decreases items.len(),
{
    if items.len() == 0 {
        Seq::empty()
    } else {
        window_push(window_of(items.drop_last(), size), items.last(), size)
    }
}

/// The window keeps exactly the latest `max(size, 1)` items, in order.
pub proof fn law_window_keeps_latest<T>(items: Seq<T>, size: nat)
    ensures
        window_of(items, size) == items.skip(
            if items.len() > if size > 0 { size } else { 1 } {
                items.len() - if size > 0 { size } else { 1 }
            } else {
                0
            },
        ),
    decreases items.len(),
{
    let cap: int = if size > 0 { size as int } else { 1 };
    if items.len() > 0 {
        let rest = items.drop_last();
        law_window_keeps_latest(rest, size);
        let start_rest: int = if rest.len() > cap { rest.len() - cap } else { 0 };
        let start: int = if items.len() > cap { items.len() - cap } else { 0 };
        let w = window_of(rest, size);
        assert(w == rest.skip(start_rest));
        if w.len() >= size && w.len() > 0 {
            assert(w.drop_first().push(items.last()) =~= items.skip(start));
        } else {
            assert(w.push(items.last()) =~= items.skip(start));
        }
    } else {
        assert(items.skip(0) =~= items);
    }
}

/// The lines of the log panel: at most `size` of the latest lines (at least
/// the latest one), oldest first.
pub struct UiTerminal {
    history: std::collections::VecDeque<String>,
    size: usize,
}

impl UiTerminal {
    pub closed spec fn lines(&self) -> Seq<String> {
        self.history@
    }

    pub closed spec fn capacity(&self) -> nat {
        self.size as nat
    }

    /// An empty terminal that keeps `size` lines.
    pub fn new(size: usize) -> (t: Self)
        ensures
            t.lines().len() == 0,
            t.capacity() == size,
    {
        UiTerminal { history: std::collections::VecDeque::with_capacity(size), size }
    }

    /// Adds a line, dropping the oldest one when the terminal is full.
    pub fn print(&mut self, text: &str)
        ensures
            final(self).capacity() == old(self).capacity(),
            final(self).lines().len() == window_push(old(self).lines(), final(self).lines().last(), old(self).capacity()).len(),
            final(self).lines() == window_push(
                old(self).lines(),
                final(self).lines().last(),
                old(self).capacity(),
            ),
            final(self).lines().last()@ == text@,
    {
        if self.history.len() >= self.size {
            let _ = self.history.pop_front();
        }
        let line: String = text.to_owned();
        self.history.push_back(line);
        proof {
            let o = old(self).history@;
            if o.len() >= self.size && o.len() > 0 {
                assert(o.subrange(1, o.len() as int) =~= o.drop_first());
            }
        }
    }

    /// The kept lines, oldest first.
    pub fn history(&self) -> (h: &std::collections::VecDeque<String>)
        ensures
            h@ == self.lines(),
    {
        &self.history
    }
}

} // verus!
