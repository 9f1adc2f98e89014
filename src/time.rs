//! Time values: spans of time, and instants as the span since the Unix epoch.
use vstd::prelude::*;

use crate::encoding::{Codec, DecodeError};

verus! {

/// Nanoseconds in one second.
pub const NANOS_PER_SEC: u32 = 1_000_000_000;

/// A span of time: whole seconds and the nanoseconds below one second.
#[derive(Debug, Clone, Copy, PartialEq, Eq, Structural, PartialOrd, Ord, Hash)]
pub struct Duration {
    secs: u64,
    nanos: u32,
}

impl DeepView for Duration {
    type V = Duration;

    open spec fn deep_view(&self) -> Duration {
        *self
    }
}

impl Duration {
    #[verifier::type_invariant]
    pub closed spec fn wf(self) -> bool {
        self.nanos < NANOS_PER_SEC
    }

    pub closed spec fn spec_secs(self) -> u64 {
        self.secs
    }

    pub closed spec fn spec_nanos(self) -> u32 {
        self.nanos
    }

    /// The span of `secs` seconds and `nanos` nanoseconds, when `nanos` is
    /// below one second.
    pub fn new(secs: u64, nanos: u32) -> (r: Option<Duration>)
        ensures
            r is Some <==> nanos < NANOS_PER_SEC,
            r matches Some(d) ==> d.spec_secs() == secs && d.spec_nanos() == nanos,
    {
        if nanos < NANOS_PER_SEC {
            Some(Duration { secs, nanos })
        } else {
            None
        }
    }

    pub fn from_secs(secs: u64) -> (r: Duration)
        ensures
            r.spec_secs() == secs,
            r.spec_nanos() == 0,
    {
        Duration { secs, nanos: 0 }
    }

    pub fn from_millis(millis: u64) -> (r: Duration)
        ensures
            r.spec_secs() * NANOS_PER_SEC + r.spec_nanos() == millis * 1_000_000,
    {
        let secs = millis / 1000;
        let rest = millis % 1000;
        assert(secs * NANOS_PER_SEC + rest * 1_000_000 == millis * 1_000_000) by (nonlinear_arith)
            requires
                secs == millis / 1000,
                rest == millis % 1000,
        ;
        Duration { secs, nanos: (rest * 1_000_000) as u32 }
    }

    pub fn as_secs(&self) -> (r: u64)
        ensures
            r == self.spec_secs(),
    {
        self.secs
    }

    pub fn subsec_nanos(&self) -> (r: u32)
        ensures
            r == self.spec_nanos(),
            r < NANOS_PER_SEC,
    {
        proof {
            use_type_invariant(self);
        }
        self.nanos
    }
}

/// Seconds, then nanoseconds, each as a BigSize; nanoseconds of a second
/// or more are refused.
impl Codec for Duration {
    open spec fn encodable(v: Duration) -> bool {
        v.spec_nanos() < NANOS_PER_SEC
    }

    open spec fn encoding(v: Duration) -> Seq<u8> {
        <(u64, u32) as Codec>::encoding((v.spec_secs(), v.spec_nanos()))
    }

    open spec fn decoding(b: Seq<u8>) -> Result<(Duration, nat), DecodeError> {
        match <(u64, u32) as Codec>::decoding(b) {
            Err(e) => Err(e),
            Ok(((s, n), k)) => if n < NANOS_PER_SEC {
                Ok((duration_of(s, n), k))
            } else {
                Err(DecodeError::InvalidNanos)
            },
        }
    }

    proof fn lemma_round_trip(v: Duration, rest: Seq<u8>) {
        <(u64, u32) as Codec>::lemma_round_trip((v.spec_secs(), v.spec_nanos()), rest);
        lemma_duration_of(v);
    }

    proof fn lemma_canonical(b: Seq<u8>) {
        <(u64, u32) as Codec>::lemma_canonical(b);
        lemma_duration_of(duration_of(0, 0));
    }

    fn consensus_encode(&self, out: &mut Vec<u8>) {
        proof {
            use_type_invariant(self);
        }
        let pair: (u64, u32) = (self.secs, self.nanos);
        pair.consensus_encode(out);
    }

    fn consensus_decode(b: &[u8], pos: usize) -> (r: Result<(Duration, usize), DecodeError>) {
        match <(u64, u32) as Codec>::consensus_decode(b, pos) {
            Err(e) => Err(e),
            Ok(((s, n), end)) => if n < NANOS_PER_SEC {
                Ok((Duration { secs: s, nanos: n }, end))
            } else {
                Err(DecodeError::InvalidNanos)
            },
        }
    }
}

/// The span in nanoseconds.
pub open spec fn total_nanos(d: Duration) -> int {
    d.spec_secs() * NANOS_PER_SEC + d.spec_nanos()
}

/// The span with these parts.
pub closed spec fn duration_of(secs: u64, nanos: u32) -> Duration {
    Duration { secs, nanos }
}

pub proof fn lemma_duration_of(d: Duration)
    ensures
        duration_of(d.spec_secs(), d.spec_nanos()) == d,
        forall|s: u64, n: u32|
            (#[trigger] duration_of(s, n)).spec_secs() == s && duration_of(s, n).spec_nanos() == n,
{
}

/// The largest whole second count of an instant after the epoch.
pub const MAX_EPOCH_SECS: u64 = 0x7FFF_FFFF_FFFF_FFFF;

/// An instant, as the time elapsed since the Unix epoch.
#[derive(Debug, Clone, Copy, PartialEq, Eq, Structural, PartialOrd, Ord, Hash)]
pub struct SystemTime {
    since_epoch: Duration,
}

impl DeepView for SystemTime {
    type V = SystemTime;

    open spec fn deep_view(&self) -> SystemTime {
        *self
    }
}

impl SystemTime {
    #[verifier::type_invariant]
    pub closed spec fn wf(self) -> bool {
        self.since_epoch.spec_secs() <= MAX_EPOCH_SECS
    }

    pub closed spec fn spec_since_epoch(self) -> Duration {
        self.since_epoch
    }

    /// The instant `d` after the epoch, if it is representable.
    pub fn from_epoch_offset(d: Duration) -> (r: Option<SystemTime>)
        ensures
            r is Some <==> d.spec_secs() <= MAX_EPOCH_SECS,
            r matches Some(t) ==> t.spec_since_epoch() == d,
    {
        if d.as_secs() <= MAX_EPOCH_SECS {
            Some(SystemTime { since_epoch: d })
        } else {
            None
        }
    }

    pub fn duration_since_epoch(&self) -> (r: Duration)
        ensures
            r == self.spec_since_epoch(),
            r.spec_secs() <= MAX_EPOCH_SECS,
    {
        proof {
            use_type_invariant(self);
        }
        self.since_epoch
    }

    /// How long after `earlier` this instant is; `None` when it is before.
    pub fn duration_since(&self, earlier: &SystemTime) -> (r: Option<Duration>)
        ensures
            ({
                let a = self.spec_since_epoch().spec_secs() * NANOS_PER_SEC
                    + self.spec_since_epoch().spec_nanos();
                let b = earlier.spec_since_epoch().spec_secs() * NANOS_PER_SEC
                    + earlier.spec_since_epoch().spec_nanos();
                &&& r is Some <==> b <= a
                &&& r matches Some(d) ==> d.spec_secs() * NANOS_PER_SEC + d.spec_nanos() == a - b
            }),
    {
        proof {
            use_type_invariant(self);
            use_type_invariant(earlier);
            use_type_invariant(&self.since_epoch);
            use_type_invariant(&earlier.since_epoch);
        }
        let (s1, n1) = (self.since_epoch.secs, self.since_epoch.nanos);
        let (s2, n2) = (earlier.since_epoch.secs, earlier.since_epoch.nanos);
        if s1 < s2 || (s1 == s2 && n1 < n2) {
            assert(s1 * NANOS_PER_SEC + n1 < s2 * NANOS_PER_SEC + n2) by (nonlinear_arith)
                requires
                    s1 < s2 || (s1 == s2 && n1 < n2),
                    n1 < NANOS_PER_SEC,
                    n2 < NANOS_PER_SEC,
            ;
            None
        } else if n1 >= n2 {
            assert((s1 - s2) * NANOS_PER_SEC + (n1 - n2) == (s1 * NANOS_PER_SEC + n1) - (s2
                * NANOS_PER_SEC + n2)) by (nonlinear_arith);
            Some(Duration { secs: s1 - s2, nanos: n1 - n2 })
        } else {
            assert((s1 - s2 - 1) * NANOS_PER_SEC + (n1 + NANOS_PER_SEC - n2) == (s1 * NANOS_PER_SEC
                + n1) - (s2 * NANOS_PER_SEC + n2)) by (nonlinear_arith);
            Some(Duration { secs: s1 - s2 - 1, nanos: n1 + NANOS_PER_SEC - n2 })
        }
    }
}

/// The span since the epoch; instants past the representable range are refused.
impl Codec for SystemTime {
    open spec fn encodable(v: SystemTime) -> bool {
        Duration::encodable(v.spec_since_epoch()) && v.spec_since_epoch().spec_secs()
            <= MAX_EPOCH_SECS
    }

    open spec fn encoding(v: SystemTime) -> Seq<u8> {
        Duration::encoding(v.spec_since_epoch())
    }

    open spec fn decoding(b: Seq<u8>) -> Result<(SystemTime, nat), DecodeError> {
        match Duration::decoding(b) {
            Err(e) => Err(e),
            Ok((d, k)) => if d.spec_secs() <= MAX_EPOCH_SECS {
                Ok((instant_of(d), k))
            } else {
                Err(DecodeError::TimeOverflow)
            },
        }
    }

    proof fn lemma_round_trip(v: SystemTime, rest: Seq<u8>) {
        Duration::lemma_round_trip(v.spec_since_epoch(), rest);
        lemma_instant_of(v);
    }

    proof fn lemma_canonical(b: Seq<u8>) {
        Duration::lemma_canonical(b);
        lemma_instant_of(instant_of(duration_of(0, 0)));
    }

    fn consensus_encode(&self, out: &mut Vec<u8>) {
        self.since_epoch.consensus_encode(out);
    }

    fn consensus_decode(b: &[u8], pos: usize) -> (r: Result<(SystemTime, usize), DecodeError>) {
        match Duration::consensus_decode(b, pos) {
            Err(e) => Err(e),
            Ok((d, end)) => if d.as_secs() <= MAX_EPOCH_SECS {
                Ok((SystemTime { since_epoch: d }, end))
            } else {
                Err(DecodeError::TimeOverflow)
            },
        }
    }
}

/// The instant this long after the epoch.
pub closed spec fn instant_of(d: Duration) -> SystemTime {
    SystemTime { since_epoch: d }
}

pub proof fn lemma_instant_of(t: SystemTime)
    ensures
        instant_of(t.spec_since_epoch()) == t,
        forall|d: Duration| (#[trigger] instant_of(d)).spec_since_epoch() == d,
{
}

} // verus!
