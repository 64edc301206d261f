//! The activity indicator shown beside live connection reports.
use vstd::prelude::*;

verus! {

/// Number of frames of the indicator.
pub const FRAMES: usize = 10;

/// Milliseconds a frame stays before the next one may show.
pub const FRAME_MS: u64 = 80;

/// The character of frame `i`: a braille dot pattern turning round.
pub open spec fn frame_char(i: int) -> char {
    if i == 0 {
        '\u{280b}'
    } else if i == 1 {
        '\u{2819}'
    } else if i == 2 {
        '\u{2839}'
    } else if i == 3 {
        '\u{2838}'
    } else if i == 4 {
        '\u{283c}'
    } else if i == 5 {
        '\u{2834}'
    } else if i == 6 {
        '\u{2826}'
    } else if i == 7 {
        '\u{2827}'
    } else if i == 8 {
        '\u{2807}'
    } else {
        '\u{280f}'
    }
}

pub struct ActivityMonitor {
    current_state: usize,
    last_update_ms: u64,
}

impl ActivityMonitor {
    /// The frame currently shown.
    pub closed spec fn state(&self) -> nat {
        self.current_state as nat
    }

    /// When the frame last changed, in milliseconds.
    pub closed spec fn last_update(&self) -> nat {
        self.last_update_ms as nat
    }

    /// An indicator on its first frame, started at `now_ms`.
    pub fn new(now_ms: u64) -> (a: ActivityMonitor)
        ensures
            a.state() == 0,
            a.last_update() == now_ms,
    {
        ActivityMonitor { current_state: 0, last_update_ms: now_ms }
    }

    /// Moves to the next frame when the current one has been shown longer
    /// than the frame time, and returns the frame to show.
    pub fn tick(&mut self, now_ms: u64) -> (r: &'static str)
        requires
            old(self).state() < FRAMES,
        ensures
            final(self).state() < FRAMES,
            now_ms > old(self).last_update() + FRAME_MS ==> final(self).state() == (old(self).state()
                + 1) % (FRAMES as nat) && final(self).last_update() == now_ms,
            now_ms <= old(self).last_update() + FRAME_MS ==> *final(self) == *old(self),
            r@ == seq![frame_char(final(self).state() as int)],
    {
        if now_ms >= self.last_update_ms && now_ms - self.last_update_ms > FRAME_MS {
            self.current_state = (self.current_state + 1) % FRAMES;
            self.last_update_ms = now_ms;
        }
        frame(self.current_state)
    }
}

/// The text of frame `i`.
pub fn frame(i: usize) -> (r: &'static str)
    requires
        i < FRAMES,
    ensures
        r@ == seq![frame_char(i as int)],
{
    proof {
        reveal_strlit("\u{280b}");
        reveal_strlit("\u{2819}");
        reveal_strlit("\u{2839}");
        reveal_strlit("\u{2838}");
        reveal_strlit("\u{283c}");
        reveal_strlit("\u{2834}");
        reveal_strlit("\u{2826}");
        reveal_strlit("\u{2827}");
        reveal_strlit("\u{2807}");
        reveal_strlit("\u{280f}");
    }
    if i == 0 {
        "\u{280b}"
    } else if i == 1 {
        "\u{2819}"
    } else if i == 2 {
        "\u{2839}"
    } else if i == 3 {
        "\u{2838}"
    } else if i == 4 {
        "\u{283c}"
    } else if i == 5 {
        "\u{2834}"
    } else if i == 6 {
        "\u{2826}"
    } else if i == 7 {
        "\u{2827}"
    } else if i == 8 {
        "\u{2807}"
    } else {
        "\u{280f}"
    }
}

} // verus!
