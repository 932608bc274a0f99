//! Display brightness: the lowest value the slider allows, snapping coarse
//! backlights to twenty steps, the percentage shown, and the throttled
//! slider between the user and the settings daemon.
use vstd::prelude::*;

verus! {

/// The larger of two integers.
pub open spec fn max_of(a: int, b: int) -> int {
    if a >= b {
        a
    } else {
        b
    }
}

/// `x` clamped to `[lo, hi]`.
pub open spec fn clamped(x: int, lo: int, hi: int) -> int {
    if x < lo {
        lo
    } else if x > hi {
        hi
    } else {
        x
    }
}

/// The lowest raw value: one percent of `max`, at least 1 (0 without a
/// backlight range).
pub open spec fn floor_of(max: int) -> int {
    if max <= 0 {
        0
    } else {
        max_of(max / 100, 1)
    }
}

/// The snapped raw value: `raw` clamped to `[floor, max]`; on a backlight
/// with at most 20 levels, rounded to the nearest of 20 even steps and kept
/// above the floor.
pub open spec fn snapped(raw: int, max: int) -> int {
    let r = clamped(raw, floor_of(max), max_of(max, 0));
    if max > 0 && max <= 20 {
        let step = clamped((r * 20 + max / 2) / max, 0, 20);
        max_of((step * max + 10) / 20, floor_of(max))
    } else {
        r
    }
}

/// `raw` as a whole percentage of `max`, 0 without a range.
pub open spec fn percent_of(raw: int, max: int) -> int {
    if max <= 0 {
        0
    } else {
        clamped(clamped(raw, 0, max) * 100 / max, 0, 100)
    }
}

/// Lowest raw value the slider allows, so the screen never goes fully black.
pub fn floor(max: i32) -> (r: i32)
    ensures
        r == floor_of(max as int),
        max > 0 ==> 1 <= r <= max,
{
    if max <= 0 {
        0
    } else {
        let hundredth = max / 100;
        if hundredth >= 1 {
            hundredth
        } else {
            1
        }
    }
}

/// Snap a raw brightness to the 20 coarse steps used by COSMIC when the
/// backlight has very few levels; finer backlights are used as-is.
pub fn snap(raw: i32, max: i32) -> (r: i32)
    ensures
        r == snapped(raw as int, max as int),
        max > 0 ==> floor_of(max as int) <= r <= max,
        max <= 0 ==> r == 0,
{
    let lo = floor(max);
    let hi = if max >= 0 {
        max
    } else {
        0
    };
    let r = if raw < lo {
        lo
    } else if raw > hi {
        hi
    } else {
        raw
    };
    if max > 0 && max <= 20 {
        let rr = r as u64;
        let m = max as u64;
        assert(rr <= 20);
        let q = (rr * 20 + m / 2) / m;
        let step = if q > 20 {
            20
        } else {
            q
        };
        assert(step * m <= 400) by (nonlinear_arith)
            requires
                step <= 20,
                m <= 20,
        ;
        let v = ((step * m + 10) / 20) as i32;
        assert((step * m + 10) / 20 <= m as int) by (nonlinear_arith)
            requires
                step <= 20,
                1 <= m,
        ;
        if v >= lo {
            v
        } else {
            lo
        }
    } else {
        r
    }
}

/// Brightness as a percentage of `max`.
pub fn percent(raw: i32, max: i32) -> (r: u8)
    ensures
        r == percent_of(raw as int, max as int),
        r <= 100,
{
    if max <= 0 {
        return 0;
    }
    let c = if raw < 0 {
        0
    } else if raw > max {
        max
    } else {
        raw
    };
    let cu = c as u64;
    let m = max as u64;
    assert((cu * 100) / (m as int) <= 100) by (nonlinear_arith)
        requires
            cu <= m,
            1 <= m,
    ;
    (cu * 100 / m) as u8
}

// ---------------------------------------------------------------------------
// The slider
// ---------------------------------------------------------------------------

/// The brightness slider between the user and the settings daemon. While the
/// user drags, writes are throttled: a flush tick writes the latest value if
/// it changed since the last write, and the ticks stop once nothing changed.
#[derive(Debug, Clone, Copy, PartialEq, Eq, Structural)]
pub struct Slider {
    /// Highest raw value of the backlight.
    pub max: i32,
    /// What the slider shows.
    pub value: i32,
    /// The last value written to the daemon (or reported by it).
    pub sent: i32,
    /// Flush ticks are running.
    pub flushing: bool,
}

impl Slider {
    /// While no flush runs, the slider shows what the daemon has.
    pub open spec fn wf(self) -> bool {
        !self.flushing ==> self.value == self.sent
    }

    /// The slider after the user moves it to `raw`.
    pub open spec fn dragged(self, raw: int) -> Slider {
        Slider { value: snapped(raw, self.max as int) as i32, flushing: true, ..self }
    }

    /// The slider after a flush tick, and the value the tick writes.
    pub open spec fn flushed(self) -> (Slider, Option<i32>) {
        if self.value == self.sent {
            (Slider { flushing: false, ..self }, None)
        } else {
            (Slider { sent: self.value, ..self }, Some(self.value))
        }
    }

    /// The slider after the daemon reports `value`: taken over unless the
    /// user is dragging.
    pub open spec fn with_report(self, value: i32) -> Slider {
        if self.flushing {
            self
        } else {
            Slider { value: value, sent: value, ..self }
        }
    }

    /// Nothing known yet.
    pub fn new() -> (s: Slider)
        ensures
            s == (Slider { max: 0, value: 0, sent: 0, flushing: false }),
            s.wf(),
    {
        Slider { max: 0, value: 0, sent: 0, flushing: false }
    }

    /// The daemon reported the backlight's highest raw value.
    pub fn set_max(&mut self, max: i32)
        ensures
            *final(self) == (Slider { max: max, ..*old(self) }),
    {
        self.max = max;
    }

    /// The daemon reported the brightness.
    pub fn reported(&mut self, value: i32)
        ensures
            *final(self) == old(self).with_report(value),
            old(self).wf() ==> final(self).wf(),
    {
        if !self.flushing {
            self.value = value;
            self.sent = value;
        }
    }

    /// The user moved the slider to `raw`. Returns `true` when flush ticks
    /// must start, that is when none were running.
    pub fn drag(&mut self, raw: i32) -> (start: bool)
        ensures
            *final(self) == old(self).dragged(raw as int),
            start == !old(self).flushing,
            final(self).wf(),
    {
        self.value = snap(raw, self.max);
        let start = !self.flushing;
        self.flushing = true;
        start
    }

    /// A flush tick: the value to write now, if it changed since the last
    /// write. `None` means the ticks stop.
    pub fn flush(&mut self) -> (w: Option<i32>)
        ensures
            (*final(self), w) == old(self).flushed(),
            final(self).wf(),
    {
        if self.value == self.sent {
            self.flushing = false;
            None
        } else {
            self.sent = self.value;
            Some(self.value)
        }
    }
}

/// Throttled writes lose nothing: a flush writes the value the slider
/// shows, and the tick after it, with no drag in between, writes nothing and
/// stops the ticks, leaving the daemon at the slider's value.
pub proof fn law_flush_writes_the_latest_value(s: Slider)
    ensures
        s.flushed().1 matches Some(v) ==> v == s.value,
        s.flushed().0.sent == s.value,
        s.flushed().0.flushed().1 is None,
        !s.flushed().0.flushed().0.flushing,
        s.flushed().0.flushed().0.sent == s.value,
{
}

/// A report from the daemon never moves a slider being dragged.
pub proof fn law_reports_do_not_interrupt_a_drag(s: Slider, raw: int, value: i32)
    ensures
        s.dragged(raw).with_report(value) == s.dragged(raw),
{
}

} // verus!
