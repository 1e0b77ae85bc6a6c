//! Thermal control by the frequency of the processor.

use vstd::prelude::*;

use crate::ace::memory::age;
use crate::ace::memory::Clock;
use crate::text::parse_u64;
use crate::text::parses;

verus! {

/// The least time between two looks at the frequency, in nanoseconds.
pub const CHECK_INTERVAL: u64 = 50_000_000;

#[derive(Clone, Copy, Debug, PartialEq, Eq, Structural)]
pub enum ThermalState {
    Normal,
    Warning,
    Critical,
}

/// How much of the largest frequency is left: `Low` below 0.6, `Middle` below 0.86.
#[derive(Clone, Copy, Debug, PartialEq, Eq, Structural)]
pub enum Coherence {
    Low,
    Middle,
    High,
}

/// The share of the largest frequency; all of it where that is not known.
pub open spec fn coherence_of(freq: u64, max: u64) -> Coherence {
    if max == 0 {
        Coherence::High
    } else if 10 * freq < 6 * max {
        Coherence::Low
    } else if 100 * freq < 86 * max {
        Coherence::Middle
    } else {
        Coherence::High
    }
}

/// The state that a look at the frequency works on.
pub struct Watch {
    pub max_freq: u64,
    pub count: u32,
}

/// The state after a look, and whether the processor throttles: where its frequency is less
/// than seven tenths of the largest that was seen.
pub open spec fn looked(w: Watch, freq: u64) -> (Watch, bool) {
    let max_freq = if freq > w.max_freq {
        freq
    } else {
        w.max_freq
    };
    if max_freq > 0 && freq < max_freq * 70 / 100 {
        (
            Watch {
                max_freq,
                count: if w.count < u32::MAX {
                    (w.count + 1) as u32
                } else {
                    u32::MAX
                },
            },
            true,
        )
    } else {
        (
            Watch {
                max_freq,
                count: if w.count > 0 {
                    (w.count - 1) as u32
                } else {
                    0
                },
            },
            false,
        )
    }
}

/// Thermal control. Temperatures are single-precision patterns.
pub struct ThermalLSC {
    max_observed_freq: u64,
    throttle_count: u32,
    warning_temp: u32,
    critical_temp: u32,
    current_temp: u32,
    state: ThermalState,
    last_check: u64,
    clock: Clock,
}

/// The pattern of 45 degrees.
pub const INITIAL_TEMP: u32 = 0x4234_0000;

/// The pattern of 75 degrees.
pub const WARNING_TEMP: u32 = 0x4296_0000;

/// The pattern of 85 degrees.
pub const CRITICAL_TEMP: u32 = 0x42AA_0000;

impl ThermalLSC {
    pub closed spec fn watch(&self) -> Watch {
        Watch { max_freq: self.max_observed_freq, count: self.throttle_count }
    }

    pub closed spec fn last(&self) -> u64 {
        self.last_check
    }

    pub closed spec fn temps(&self) -> (u32, u32, u32) {
        (self.warning_temp, self.critical_temp, self.current_temp)
    }

    pub closed spec fn spec_state(&self) -> ThermalState {
        self.state
    }

    /// Control with a warning and a critical temperature.
    pub fn new(warning_temp: u32, critical_temp: u32) -> (r: ThermalLSC)
        ensures
            r.watch() == (Watch { max_freq: 0, count: 0 }),
            r.temps() == (warning_temp, critical_temp, INITIAL_TEMP),
            r.spec_state() == ThermalState::Normal,
    {
        let clock = Clock::start();
        let now: u64 = clock.nanos();
        ThermalLSC {
            max_observed_freq: 0,
            throttle_count: 0,
            warning_temp,
            critical_temp,
            current_temp: INITIAL_TEMP,
            state: ThermalState::Normal,
            last_check: now,
            clock,
        }
    }

    /// Nanoseconds on the clock of this control.
    pub fn nanos(&self) -> (n: u64) {
        self.clock.nanos()
    }

    /// The frequency in kHz that a reading holds; zero where there is none.
    pub fn current_freq_khz(&self, reading: Option<&str>) -> (r: u64)
        ensures
            match reading {
                Some(text) => parses(text@, Some(r)) || (r == 0 && parses(text@, None)),
                None => r == 0,
            },
    {
        match reading {
            Some(text) => match parse_u64(text) {
                Some(n) => n,
                None => 0,
            },
            None => 0,
        }
    }

    /// Whether it is time for another look at the frequency.
    pub fn check_due(&self, now: u64) -> (r: bool)
        ensures
            r == (age(now, self.last()) >= CHECK_INTERVAL),
    {
        if now >= self.last_check {
            now - self.last_check >= CHECK_INTERVAL
        } else {
            false
        }
    }

    /// Whether the processor throttles. The frequency is looked at where the last look is
    /// old enough; else the count of looks that found throttling says.
    pub fn is_throttling(&mut self, now: u64, freq_khz: u64) -> (r: bool)
        ensures
            final(self).temps() == old(self).temps(),
            final(self).spec_state() == old(self).spec_state(),
            if age(now, old(self).last()) < CHECK_INTERVAL {
                &&& r == (old(self).watch().count > 0)
                &&& final(self).watch() == old(self).watch()
                &&& final(self).last() == old(self).last()
            } else {
                &&& (final(self).watch(), r) == looked(old(self).watch(), freq_khz)
                &&& final(self).last() == now
            },
    {
        if !self.check_due(now) {
            return self.throttle_count > 0;
        }
        self.last_check = now;
        if freq_khz > self.max_observed_freq {
            self.max_observed_freq = freq_khz;
        }
        if self.max_observed_freq > 0 && (freq_khz as u128) < self.max_observed_freq as u128 * 70
            / 100 {
            self.throttle_count = self.throttle_count.saturating_add(1);
            true
        } else {
            self.throttle_count = self.throttle_count.saturating_sub(1);
            false
        }
    }

    /// The share of the largest frequency.
    pub fn coherence(&self, freq_khz: u64) -> (r: Coherence)
        ensures
            r == coherence_of(freq_khz, self.watch().max_freq),
    {
        let max: u128 = self.max_observed_freq as u128;
        let freq: u128 = freq_khz as u128;
        if max == 0 {
            Coherence::High
        } else if 10 * freq < 6 * max {
            Coherence::Low
        } else if 100 * freq < 86 * max {
            Coherence::Middle
        } else {
            Coherence::High
        }
    }

    /// Takes in a temperature; the state stays.
    pub fn update_temperature(&mut self, temp: u32) -> (r: ThermalState)
        ensures
            r == old(self).spec_state(),
            final(self).spec_state() == old(self).spec_state(),
            final(self).watch() == old(self).watch(),
            final(self).last() == old(self).last(),
            final(self).temps() == (old(self).temps().0, old(self).temps().1, temp),
    {
        self.current_temp = temp;
        self.state
    }

    /// By how many tenths the load is scaled.
    pub fn throttle_factor(&self, freq_khz: u64) -> (r: u32)
        ensures
            r == (match coherence_of(freq_khz, self.watch().max_freq) {
                Coherence::Low => 3u32,
                Coherence::Middle => 7u32,
                Coherence::High => 10u32,
            }),
    {
        match self.coherence(freq_khz) {
            Coherence::Low => 3,
            Coherence::Middle => 7,
            Coherence::High => 10,
        }
    }
}

pub type ThermalCoordinator = ThermalLSC;

impl Default for ThermalLSC {
    fn default() -> (r: ThermalLSC)
        ensures
            r.watch() == (Watch { max_freq: 0, count: 0 }),
            r.temps() == (WARNING_TEMP, CRITICAL_TEMP, INITIAL_TEMP),
            r.spec_state() == ThermalState::Normal,
    {
        ThermalLSC::new(WARNING_TEMP, CRITICAL_TEMP)
    }
}

/// A look never lowers the largest frequency, and throttling is found exactly below seven
/// tenths of it.
pub proof fn law_look(w: Watch, freq: u64)
    ensures
        looked(w, freq).0.max_freq >= w.max_freq,
        looked(w, freq).0.max_freq >= freq,
        looked(w, freq).1 <==> freq < looked(w, freq).0.max_freq * 70 / 100,
        looked(w, freq).1 ==> coherence_of(freq, looked(w, freq).0.max_freq) != Coherence::High,
{
}

/// Coherence goes by the share of the largest frequency: below three fifths it is low, from 86
/// hundredths on it is high. Without a frequency to go by it is high.
pub proof fn law_coherence_shares(t: &ThermalLSC, freq: u64, r: Coherence)
    requires
        call_ensures(ThermalLSC::coherence, (t, freq), r),
    ensures
        ({
            let max = t.watch().max_freq;
            &&& r == Coherence::Low <==> max > 0 && 5 * freq < 3 * max
            &&& r == Coherence::High <==> max == 0 || 50 * freq >= 43 * max
        }),
{
}

/// A higher frequency never lowers coherence, nor the factor that goes with it.
pub proof fn law_factor_grows(t: &ThermalLSC, f: u64, g: u64, a: u32, b: u32)
    requires
        f <= g,
        call_ensures(ThermalLSC::throttle_factor, (t, f), a),
        call_ensures(ThermalLSC::throttle_factor, (t, g), b),
    ensures
        3 <= a <= b <= 10,
        g >= t.watch().max_freq ==> b == 10,
        2 * f < t.watch().max_freq ==> a == 3,
{
}

/// Looks are due in turns: at a look it is not due again before 50 ms have gone.
pub proof fn law_look_in_turns(t: &ThermalLSC, now: u64, r: bool)
    requires
        call_ensures(ThermalLSC::check_due, (t, now), r),
        now >= t.last(),
    ensures
        r <==> now - t.last() >= 50_000_000,
{
}

/// Each look that finds throttling counts one more, each other one less.
pub proof fn law_look_counts(w: Watch, freq: u64)
    ensures
        looked(w, freq).1 && w.count < u32::MAX ==> looked(w, freq).0.count == w.count + 1,
        !looked(w, freq).1 && w.count > 0 ==> looked(w, freq).0.count == w.count - 1,
        !looked(w, freq).1 && w.count == 0 ==> looked(w, freq).0.count == 0,
        looked(w, freq).0.max_freq == freq || looked(w, freq).0.max_freq == w.max_freq,
{
}

} // verus!
