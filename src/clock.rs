use vstd::prelude::*;

verus! {

pub const SEC_PER_MINUTE: u64 = 60;

pub const SEC_PER_HOUR: u64 = 3600;

pub const SEC_PER_DAY: u64 = 86400;

/// A Julian year of 365.25 days.
pub const SEC_PER_YEAR: u64 = 31557600;

/// Simulated time, split into calendar units.
#[derive(Debug, Default, Clone, Copy, PartialEq, Eq, Structural)]
pub struct ElapsedTime {
    pub years: u64,
    pub days: u64,
    pub hours: u64,
    pub minutes: u64,
    pub seconds: u64,
}

impl ElapsedTime {
    /// Total number of seconds the split stands for.
    pub open spec fn total(&self) -> int {
        self.years * SEC_PER_YEAR + self.days * SEC_PER_DAY + self.hours * SEC_PER_HOUR + self.minutes
            * SEC_PER_MINUTE + self.seconds
    }
}

/// Splits `total_seconds` into whole years, then days, hours, minutes and seconds.
pub fn compute_elapsed_time(total_seconds: u64) -> (t: ElapsedTime)
    ensures
        t.total() == total_seconds,
        t.days * SEC_PER_DAY < SEC_PER_YEAR,
        t.hours < 24,
        t.minutes < 60,
        t.seconds < 60,
{
    let years = total_seconds / SEC_PER_YEAR;
    let rest = total_seconds % SEC_PER_YEAR;
    let days = rest / SEC_PER_DAY;
    let rest2 = rest % SEC_PER_DAY;
    let hours = rest2 / SEC_PER_HOUR;
    let rest3 = rest2 % SEC_PER_HOUR;
    let minutes = rest3 / SEC_PER_MINUTE;
    let seconds = rest3 % SEC_PER_MINUTE;
    proof {
        assert(total_seconds == years * SEC_PER_YEAR + rest) by (nonlinear_arith)
            requires
                years == total_seconds / SEC_PER_YEAR,
                rest == total_seconds % SEC_PER_YEAR,
        ;
        assert(rest == days * SEC_PER_DAY + rest2) by (nonlinear_arith)
            requires
                days == rest / SEC_PER_DAY,
                rest2 == rest % SEC_PER_DAY,
        ;
        assert(days * SEC_PER_DAY <= rest) by (nonlinear_arith)
            requires
                rest == days * SEC_PER_DAY + rest2,
                rest2 >= 0,
        ;
        assert(rest2 == hours * SEC_PER_HOUR + rest3) by (nonlinear_arith)
            requires
                hours == rest2 / SEC_PER_HOUR,
                rest3 == rest2 % SEC_PER_HOUR,
        ;
        assert(hours < 24) by (nonlinear_arith)
            requires
                hours == rest2 / SEC_PER_HOUR,
                rest2 < SEC_PER_DAY,
        ;
        assert(rest3 == minutes * SEC_PER_MINUTE + seconds) by (nonlinear_arith)
            requires
                minutes == rest3 / SEC_PER_MINUTE,
                seconds == rest3 % SEC_PER_MINUTE,
        ;
        assert(minutes < 60) by (nonlinear_arith)
            requires
                minutes == rest3 / SEC_PER_MINUTE,
                rest3 < SEC_PER_HOUR,
        ;
    }
    ElapsedTime { years, days, hours, minutes, seconds }
}

} // verus!
