//! Wall-clock instants.
use vstd::prelude::*;

verus! {

pub const NANOS_PER_SEC: i32 = 1_000_000_000;

/// Seconds and nanoseconds since 1970-01-01T00:00:00Z.
#[derive(Clone, Copy, Debug, PartialEq, Eq, Structural)]
pub struct Timespec {
    pub sec: i64,
    pub nsec: i32,
}

/// `secs` seconds before `sec`, saturating at the earliest second.
pub open spec fn sec_before(sec: i64, secs: i64) -> i64 {
    if sec - secs >= i64::MIN {
        (sec - secs) as i64
    } else {
        i64::MIN
    }
}

impl Timespec {
    pub open spec fn wf(&self) -> bool {
        0 <= self.nsec < NANOS_PER_SEC
    }

    /// The instant as a count of nanoseconds.
    pub open spec fn nanos(&self) -> int {
        self.sec * 1_000_000_000 + self.nsec
    }

    /// Whether `self` comes strictly before `other`.
    pub open spec fn spec_before(&self, other: Timespec) -> bool {
        self.sec < other.sec || (self.sec == other.sec && self.nsec < other.nsec)
    }

    #[verifier::when_used_as_spec(spec_before)]
    pub fn before(&self, other: Timespec) -> (r: bool)
        ensures
            r == self.spec_before(other),
    {
        self.sec < other.sec || (self.sec == other.sec && self.nsec < other.nsec)
    }

    /// The instant `secs` whole seconds before this one, keeping the
    /// nanoseconds (saturating at the earliest representable second).
    pub fn seconds_earlier(&self, secs: i64) -> (r: Timespec)
        requires
            secs >= 0,
        ensures
            r.nsec == self.nsec,
            r.sec == sec_before(self.sec, secs),
    {
        let sec = if self.sec >= i64::MIN + secs {
            self.sec - secs
        } else {
            i64::MIN
        };
        Timespec { sec, nsec: self.nsec }
    }
}

/// Relies on `time::get_time`: the current wall-clock time, with the
/// nanoseconds below one second (`Timespec::new` asserts that range).
#[verifier::external_body]
pub fn now() -> (r: Timespec)
    ensures
        r.wf(),
{
    let t = time::get_time();
    Timespec { sec: t.sec, nsec: t.nsec }
}

} // verus!
