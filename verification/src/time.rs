use vstd::prelude::*;

verus! {

/// Nanoseconds in one second.
pub const NANOS_PER_SEC: u32 = 1_000_000_000;

/// Seconds of the time-to-live given to a message when none is specified.
pub const DEFAULT_TTL_SECS: u64 = 3600;

/// `std::time::SystemTime`, carried from the clock to the conversion below
/// and never looked into.
#[verifier::external_type_specification]
#[verifier::external_body]
pub struct ExSystemTime(std::time::SystemTime);

/// Reads the system clock with `std::time::SystemTime::now`. The reading
/// depends on the machine, so nothing is claimed of it.
#[verifier::external_body]
fn system_now() -> std::time::SystemTime {
    std::time::SystemTime::now()
}

/// Calls `SystemTime::duration_since` with `UNIX_EPOCH` as the earlier time:
/// the span from the epoch to `t`, or nothing when `t` lies before the epoch.
#[verifier::external_body]
fn since_unix_epoch(t: &std::time::SystemTime) -> Option<core::time::Duration> {
    match t.duration_since(std::time::UNIX_EPOCH) {
        Ok(d) => Some(d),
        Err(_) => None,
    }
}

/// `core::time::Duration::as_secs`: the whole seconds of a span.
pub assume_specification[ core::time::Duration::as_secs ](d: &core::time::Duration) -> (s: u64)
;

/// `core::time::Duration::subsec_nanos`: the fractional part of a span in
/// nanoseconds, which std documents to be below one billion.
pub assume_specification[ core::time::Duration::subsec_nanos ](d: &core::time::Duration) -> (n:
    u32)
    ensures
        n < 1_000_000_000,
;

/// A span of time: whole seconds and a fraction below one second.
#[derive(Debug, Clone, Copy, PartialEq, Eq, Hash)]
pub struct Duration {
    secs: u64,
    nanos: u32,
}

/// A point in time, held as the span since the Unix epoch.
#[derive(Debug, Clone, Copy, PartialEq, Eq, Hash)]
pub struct Timestamp {
    since_epoch: Duration,
}

impl Duration {
    #[verifier::type_invariant]
    spec fn fraction_in_range(self) -> bool {
        self.well_formed()
    }

    /// The whole seconds of the span.
    pub closed spec fn whole_secs(self) -> u64 {
        self.secs
    }

    /// The part of the span below one second, in nanoseconds.
    pub closed spec fn fraction(self) -> u32 {
        self.nanos
    }

    /// The span with the given parts.
    pub closed spec fn of_parts(secs: u64, nanos: u32) -> Duration {
        Duration { secs, nanos }
    }

    /// Whether the fraction is below one second. Every span that a program
    /// holds is well formed.
    pub open spec fn well_formed(self) -> bool {
        self.fraction() < NANOS_PER_SEC
    }

    /// The length of the span in nanoseconds.
    pub open spec fn nanos(self) -> nat {
        (self.whole_secs() * NANOS_PER_SEC + self.fraction()) as nat
    }

    /// A span is determined by its two parts.
    pub proof fn lemma_parts(secs: u64, nanos: u32)
        ensures
            Self::of_parts(secs, nanos).whole_secs() == secs,
            Self::of_parts(secs, nanos).fraction() == nanos,
            forall|d: Duration|
                d.whole_secs() == secs && d.fraction() == nanos ==> d == #[trigger] Self::of_parts(
                    secs,
                    nanos,
                ),
    {
    }

    /// The span of no length.
    pub fn zero() -> (d: Duration)
        ensures
            d.nanos() == 0,
    {
        Duration { secs: 0, nanos: 0 }
    }

    /// A span of whole seconds.
    pub fn from_secs(secs: u64) -> (d: Duration)
        ensures
            d.nanos() == secs * NANOS_PER_SEC,
    {
        Duration { secs, nanos: 0 }
    }

    /// A span of `secs` seconds and `nanos` nanoseconds. A billion
    /// nanoseconds or more carry over into the seconds; the span exists
    /// unless the seconds then pass `u64::MAX`.
    pub fn new(secs: u64, nanos: u32) -> (r: Option<Duration>)
        ensures
            r is Some <==> secs + nanos / NANOS_PER_SEC <= u64::MAX,
            r matches Some(d) ==> d == Self::of_parts(
                (secs + nanos / NANOS_PER_SEC) as u64,
                nanos % NANOS_PER_SEC,
            ) && d.well_formed() && d.nanos() == secs * NANOS_PER_SEC + nanos,
    {
        let carry: u64 = (nanos / NANOS_PER_SEC) as u64;
        let rest: u32 = nanos % NANOS_PER_SEC;
        if secs > u64::MAX - carry {
            None
        } else {
            Some(Duration { secs: secs + carry, nanos: rest })
        }
    }

    /// The span that a `core::time::Duration` stands for.
    pub fn from_std(d: core::time::Duration) -> (span: Duration)
        ensures
            span.well_formed(),
    {
        Duration { secs: d.as_secs(), nanos: d.subsec_nanos() }
    }

    /// The whole seconds of the span.
    pub fn as_secs(&self) -> (s: u64)
        ensures
            s == self.whole_secs(),
            s == self.nanos() / (NANOS_PER_SEC as nat),
    {
        proof {
            use_type_invariant(self);
        }
        self.secs
    }

    /// The part of the span below one second, in nanoseconds.
    pub fn subsec_nanos(&self) -> (n: u32)
        ensures
            n == self.fraction(),
            n == self.nanos() % (NANOS_PER_SEC as nat),
            n < NANOS_PER_SEC,
    {
        proof {
            use_type_invariant(self);
        }
        self.nanos
    }

    /// The length of the span in nanoseconds.
    pub fn as_nanos(&self) -> (n: u128)
        ensures
            n == self.nanos(),
    {
        let secs: u128 = self.secs as u128;
        let nanos: u128 = self.nanos as u128;
        assert(secs * 1_000_000_000 + nanos <= u128::MAX) by {
            assert(secs <= u64::MAX && nanos <= u32::MAX);
        }
        secs * 1_000_000_000 + nanos
    }

    /// Whether this span is strictly longer than `other`.
    pub fn longer_than(&self, other: &Duration) -> (r: bool)
        ensures
            r == (self.nanos() > other.nanos()),
    {
        self.as_nanos() > other.as_nanos()
    }
}

/// The time-to-live given to a message when none is specified: one hour.
pub fn default_ttl() -> (d: Duration)
    ensures
        d.nanos() == DEFAULT_TTL_SECS * NANOS_PER_SEC,
{
    Duration::from_secs(DEFAULT_TTL_SECS)
}

impl Timestamp {
    /// The span from the Unix epoch to this point in time.
    pub closed spec fn span(self) -> Duration {
        self.since_epoch
    }

    /// The point in time that lies `since_epoch` after the Unix epoch.
    pub closed spec fn at(since_epoch: Duration) -> Timestamp {
        Timestamp { since_epoch }
    }

    /// Nanoseconds from the Unix epoch to this point in time.
    pub open spec fn nanos(self) -> nat {
        self.span().nanos()
    }

    /// A point in time is determined by its span from the epoch.
    pub proof fn lemma_span(since_epoch: Duration)
        ensures
            Self::at(since_epoch).span() == since_epoch,
            forall|t: Timestamp| t.span() == since_epoch ==> t == #[trigger] Self::at(since_epoch),
    {
    }

    /// The Unix epoch itself.
    pub fn epoch() -> (t: Timestamp)
        ensures
            t.nanos() == 0,
    {
        Timestamp { since_epoch: Duration::zero() }
    }

    /// The point in time that lies `since_epoch` after the Unix epoch.
    pub fn from_unix(since_epoch: Duration) -> (t: Timestamp)
        ensures
            t == Self::at(since_epoch),
            t.span() == since_epoch,
    {
        Timestamp { since_epoch }
    }

    /// The span from the Unix epoch to this point in time.
    pub fn since_unix(&self) -> (d: Duration)
        ensures
            d == self.span(),
            d.well_formed(),
    {
        proof {
            use_type_invariant(&self.since_epoch);
        }
        self.since_epoch
    }

    /// The reading of the system clock; a clock set before the Unix epoch
    /// reads as the epoch.
    pub fn now() -> (t: Timestamp)
        ensures
            t.span().well_formed(),
    {
        let t = system_now();
        let reading = match since_unix_epoch(&t) {
            Some(d) => Some(Duration::from_std(d)),
            None => None,
        };
        Timestamp::from_reading(reading)
    }

    /// The point in time that a reading of the clock stands for: the span
    /// since the Unix epoch that the clock gave, or the epoch itself where
    /// the clock was set before the epoch and gave none.
    pub fn from_reading(reading: Option<Duration>) -> (t: Timestamp)
        ensures
            t == match reading {
                Some(span) => Timestamp::at(span),
                None => Timestamp::at(Duration::of_parts(0, 0)),
            },
            reading matches Some(span) ==> t.span() == span,
            reading is None ==> t.nanos() == 0,
            t.span().well_formed(),
    {
        match reading {
            Some(span) => {
                proof {
                    use_type_invariant(&span);
                }
                Timestamp::from_unix(span)
            },
            None => {
                let t = Timestamp::epoch();
                proof {
                    use_type_invariant(&t.since_epoch);
                    Timestamp::lemma_epoch_is(t);
                }
                t
            },
        }
    }

    /// The one point in time at no distance from the Unix epoch.
    pub proof fn lemma_epoch_is(t: Timestamp)
        requires
            t.nanos() == 0,
        ensures
            t == Timestamp::at(Duration::of_parts(0, 0)),
    {
        Duration::lemma_parts(0, 0);
        Timestamp::lemma_span(Duration::of_parts(0, 0));
    }

    /// The span from `earlier` to this point in time, or nothing when
    /// `earlier` is in fact the later of the two.
    pub fn duration_since(&self, earlier: &Timestamp) -> (r: Option<Duration>)
        ensures
            r is Some <==> earlier.nanos() <= self.nanos(),
            r matches Some(d) ==> d.nanos() == self.nanos() - earlier.nanos(),
    {
        proof {
            use_type_invariant(&self.since_epoch);
            use_type_invariant(&earlier.since_epoch);
        }
        let a = &self.since_epoch;
        let b = &earlier.since_epoch;
        if a.secs > b.secs {
            if a.nanos >= b.nanos {
                Some(Duration { secs: a.secs - b.secs, nanos: a.nanos - b.nanos })
            } else {
                Some(
                    Duration {
                        secs: a.secs - b.secs - 1,
                        nanos: a.nanos + (NANOS_PER_SEC - b.nanos),
                    },
                )
            }
        } else if a.secs == b.secs && a.nanos >= b.nanos {
            Some(Duration { secs: 0, nanos: a.nanos - b.nanos })
        } else {
            None
        }
    }

    /// The point in time `d` after this one, or nothing when it lies beyond
    /// what a timestamp can hold.
    pub fn checked_add(&self, d: &Duration) -> (r: Option<Timestamp>)
        ensures
            r is Some <==> (self.nanos() + d.nanos()) / (NANOS_PER_SEC as nat) <= u64::MAX,
            r matches Some(t) ==> t.nanos() == self.nanos() + d.nanos(),
    {
        proof {
            use_type_invariant(&self.since_epoch);
            use_type_invariant(d);
        }
        let a = &self.since_epoch;
        let sum: u32 = a.nanos + d.nanos;
        let carry: u64 = if sum >= NANOS_PER_SEC {
            1
        } else {
            0
        };
        let rest: u32 = if sum >= NANOS_PER_SEC {
            sum - NANOS_PER_SEC
        } else {
            sum
        };
        if a.secs > u64::MAX - d.secs {
            None
        } else if a.secs + d.secs > u64::MAX - carry {
            None
        } else {
            Some(Timestamp { since_epoch: Duration { secs: a.secs + d.secs + carry, nanos: rest } })
        }
    }
}

} // verus!
