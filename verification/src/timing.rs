//! The millisecond clock and the round-trip estimator.

use vstd::prelude::*;

verus! {

/// The floor of the variance term of the retransmission timeout, in
/// milliseconds.
pub const MAX_INTERVAL: u32 = 200;

/// The number that the bits of `a` write in two's complement.
pub open spec fn signed(a: u32) -> int {
    if a < 0x8000_0000 {
        a as int
    } else {
        a - 0x1_0000_0000
    }
}

/// Whether an `i32` holds the difference of the two instants.
pub open spec fn i32diff_ok(a: u32, b: u32) -> bool {
    i32::MIN <= signed(a) - signed(b) <= i32::MAX
}

/// How far instant `a` lies behind instant `b`, both read in two's complement.
pub fn i32diff(a: u32, b: u32) -> (diff: i32)
    requires
        i32diff_ok(a, b),
    ensures
        diff == signed(a) - signed(b),
{
    assert(a < 0x8000_0000 ==> (a as i32) == a) by (bit_vector);
    assert(a >= 0x8000_0000 ==> (a as i32) == a - 0x1_0000_0000) by (bit_vector);
    assert(b < 0x8000_0000 ==> (b as i32) == b) by (bit_vector);
    assert(b >= 0x8000_0000 ==> (b as i32) == b - 0x1_0000_0000) by (bit_vector);
    let x: i32 = #[verifier::truncate] (a as i32);
    let y: i32 = #[verifier::truncate] (b as i32);
    x - y
}

/// Tells whether an `i32` holds the difference of the two instants.
pub fn i32diff_fits(a: u32, b: u32) -> (fits: bool)
    ensures
        fits == i32diff_ok(a, b),
{
    let x: i64 = if a < 0x8000_0000 {
        a as i64
    } else {
        a as i64 - 0x1_0000_0000
    };
    let y: i64 = if b < 0x8000_0000 {
        b as i64
    } else {
        b as i64 - 0x1_0000_0000
    };
    x - y >= -0x8000_0000 && x - y <= 0x7fff_ffff
}

/// std's `SystemTime::elapsed` on the Unix epoch, in whole milliseconds: how far the
/// system clock has come. `None` where the clock stands before the epoch. The
/// time it shows depends on the machine, and nothing is claimed of it.
#[verifier::external_body]
fn clock_millis() -> (millis: Option<u128>) {
    match std::time::SystemTime::UNIX_EPOCH.elapsed() {
        Ok(elapsed) => Some(elapsed.as_millis()),
        Err(_) => None,
    }
}

/// The low 32 bits of a count of milliseconds.
pub fn millis_u32(millis: u128) -> (now: u32)
    ensures
        now == millis % 0x1_0000_0000,
{
    assert(millis as u32 == millis % 0x1_0000_0000) by (bit_vector);
    #[verifier::truncate] (millis as u32)
}

/// The current time, as the low 32 bits of the milliseconds since the Unix epoch.
/// `None` where the clock stands before the epoch. What the clock shows is
/// outside any claim; `instant_of` states what is made of each reading.
pub fn now_millis() -> (now: Option<u32>) {
    instant_of(clock_millis())
}

/// The instant that a reading of the clock stands for: its low 32 bits, and none
/// where there is no reading.
pub fn instant_of(reading: Option<u128>) -> (now: Option<u32>)
    ensures
        now is Some == reading is Some,
        reading matches Some(millis) ==> now == Some((millis % 0x1_0000_0000) as u32),
{
    match reading {
        Some(millis) => Some(millis_u32(millis)),
        None => None,
    }
}

/// The round-trip state: smoothed round trip and its mean deviation, in
/// milliseconds.
pub struct Rtt {
    pub srtt: int,
    pub rttval: int,
}

/// The distance of two numbers.
pub open spec fn dist(a: int, b: int) -> int {
    if a > b {
        a - b
    } else {
        b - a
    }
}

/// The larger of two numbers.
pub open spec fn larger(a: int, b: int) -> int {
    if a > b {
        a
    } else {
        b
    }
}

impl Rtt {
    /// The state after the sample `rtt`. The first sample sets it; a later one
    /// weighs an eighth of the round trip and a quarter of the deviation.
    pub open spec fn sampled(self, rtt: int) -> Rtt {
        if self.srtt == 0 {
            Rtt { srtt: rtt, rttval: rtt / 2 }
        } else {
            Rtt {
                srtt: larger(1, (7 * self.srtt + rtt) / 8),
                rttval: (3 * self.rttval + dist(rtt, self.srtt)) / 4,
            }
        }
    }

    /// The retransmission timeout.
    pub open spec fn rto(self) -> int {
        let raw = larger(20, self.srtt + larger(MAX_INTERVAL as int, 4 * self.rttval));
        if raw < 30000 {
            raw
        } else {
            30000
        }
    }

    /// Whether every number on the way to the next state and its timeout is one
    /// that a `u32` holds.
    pub open spec fn sample_ok(self, rtt: int) -> bool {
        let next = self.sampled(rtt);
        &&& self.srtt != 0 ==> 3 * self.rttval + dist(rtt, self.srtt) <= u32::MAX
        &&& self.srtt != 0 ==> 7 * self.srtt + rtt <= u32::MAX
        &&& 4 * next.rttval <= u32::MAX
        &&& next.srtt + larger(MAX_INTERVAL as int, 4 * next.rttval) <= u32::MAX
    }

    /// Whether round trip and deviation stay within `bound`.
    pub open spec fn within(self, bound: int) -> bool {
        &&& 0 <= self.srtt <= bound
        &&& 0 <= self.rttval <= bound
    }
}

/// Tells whether the estimator can take the sample `rtt` within `u32`.
pub fn sample_fits(srtt: u32, rttval: u32, rtt: u32) -> (fits: bool)
    ensures
        fits == (Rtt { srtt: srtt as int, rttval: rttval as int }).sample_ok(rtt as int),
{
    let limit: u64 = u32::MAX as u64;
    let s: u64 = srtt as u64;
    let v: u64 = rttval as u64;
    let r: u64 = rtt as u64;
    let delta: u64 = if r > s {
        r - s
    } else {
        s - r
    };
    if srtt != 0 && (3 * v + delta > limit || 7 * s + r > limit) {
        return false;
    }
    let next_val: u64 = if srtt == 0 {
        r / 2
    } else {
        (3 * v + delta) / 4
    };
    let mean: u64 = (7 * s + r) / 8;
    let next_srtt: u64 = if srtt == 0 {
        r
    } else if mean < 1 {
        1
    } else {
        mean
    };
    let spread: u64 = if MAX_INTERVAL as u64 > 4 * next_val {
        MAX_INTERVAL as u64
    } else {
        4 * next_val
    };
    4 * next_val <= limit && next_srtt + spread <= limit
}

/// As long as no sample exceeds a bound of up to 2^29 - 1 milliseconds, round trip
/// and deviation stay within that bound and no computation leaves `u32`.
pub proof fn law_rtt_bounded(r: Rtt, rtt: int, bound: int)
    requires
        1 <= bound <= 0x1fff_ffff,
        r.within(bound),
        0 <= rtt <= bound,
    ensures
        r.sample_ok(rtt),
        r.sampled(rtt).within(bound),
{
}

/// A sample moves the smoothed round trip toward itself and never past itself.
pub proof fn law_rtt_between(r: Rtt, rtt: int)
    requires
        1 <= r.srtt,
        1 <= rtt,
    ensures
        r.srtt <= rtt ==> r.srtt <= r.sampled(rtt).srtt <= rtt,
        rtt <= r.srtt ==> rtt <= r.sampled(rtt).srtt <= r.srtt,
{
}

/// The timeout lies between 200 and 30000 milliseconds, above 200 once a positive
/// sample was taken.
pub proof fn law_rto_bounded(r: Rtt, rtt: int)
    requires
        0 <= r.srtt,
        0 <= r.rttval,
        0 < rtt,
    ensures
        200 <= r.rto() <= 30000,
        200 < r.sampled(rtt).rto() <= 30000,
{
}

/// The difference of two instants is their distance on a clock that starts over after
/// 2^32 milliseconds, and each instant read in two's complement is one that an `i32`
/// holds.
pub proof fn law_difference(a: u32, b: u32)
    ensures
        -0x8000_0000 <= signed(a) <= 0x7fff_ffff,
        (signed(a) - signed(b) - (a - b)) % 0x1_0000_0000 == 0,
        a < 0x8000_0000 <==> signed(a) >= 0,
        i32diff_ok(a, b) <==> -0x8000_0000 <= signed(a) - signed(b) <= 0x7fff_ffff,
        (a < 0x8000_0000) == (b < 0x8000_0000) ==> i32diff_ok(a, b) && signed(a) - signed(b) == a
            - b,
{
}

} // verus!
