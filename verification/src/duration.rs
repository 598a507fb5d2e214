use vstd::prelude::*;

verus! {

/// Failures of the duration parser.
#[derive(PartialEq, Eq, Structural, Clone, Copy, Debug)]
pub enum DurationError {
    /// An alphabetic run is not a known time unit.
    InvalidUnit,
    /// The numeric and alphabetic runs do not pair up.
    InvalidDuration,
    /// A number or the summed duration does not fit.
    Overflow,
}

/// A span of time: whole seconds and a sub-second remainder.
#[derive(PartialEq, Eq, Structural, Clone, Copy, Debug)]
pub struct Duration {
    pub secs: u64,
    pub nanos: u32,
}

pub const MINUTE: u64 = 60;

pub const HOUR: u64 = 60 * MINUTE;

pub const DAY: u64 = 24 * HOUR;

impl Duration {
    /// The nanosecond part stays below one second.
    pub open spec fn wf(self) -> bool {
        self.nanos < 1000000000
    }

    pub fn zero() -> (r: Duration)
        ensures
            r.secs == 0,
            r.nanos == 0,
    {
        Duration { secs: 0, nanos: 0 }
    }

    pub fn from_secs(secs: u64) -> (r: Duration)
        ensures
            r.secs == secs,
            r.nanos == 0,
    {
        Duration { secs, nanos: 0 }
    }

    pub fn from_millis(millis: u64) -> (r: Duration)
        ensures
            r.secs == millis / 1000,
            r.nanos == (millis % 1000) * 1000000,
    {
        Duration { secs: millis / 1000, nanos: ((millis % 1000) as u32) * 1000000 }
    }

    pub fn from_micros(micros: u64) -> (r: Duration)
        ensures
            r.secs == micros / 1000000,
            r.nanos == (micros % 1000000) * 1000,
    {
        Duration { secs: micros / 1000000, nanos: ((micros % 1000000) as u32) * 1000 }
    }

    pub fn from_nanos(nanos: u64) -> (r: Duration)
        ensures
            r.secs == nanos / 1000000000,
            r.nanos == nanos % 1000000000,
    {
        Duration { secs: nanos / 1000000000, nanos: (nanos % 1000000000) as u32 }
    }

    pub fn as_secs(&self) -> (r: u64)
        ensures
            r == self.secs,
    {
        self.secs
    }

    /// The sum of two spans, unless the seconds overflow.
    pub fn checked_add(self, other: Duration) -> (r: Option<Duration>)
        requires
            self.wf(),
            other.wf(),
        ensures
            r == spec_add_duration(self, other),
    {
        let nanos: u32 = self.nanos + other.nanos;
        let (carry, rem): (u64, u32) = if nanos >= 1000000000 {
            (1, nanos - 1000000000)
        } else {
            (0, nanos)
        };
        match self.secs.checked_add(other.secs) {
            Some(s1) => match s1.checked_add(carry) {
                Some(s2) => Some(Duration { secs: s2, nanos: rem }),
                None => None,
            },
            None => None,
        }
    }
}

/// The sum of two well-formed spans; `None` when the seconds overflow.
pub open spec fn spec_add_duration(a: Duration, b: Duration) -> Option<Duration> {
    let nanos = a.nanos + b.nanos;
    let carry: int = if nanos >= 1000000000 {
        1
    } else {
        0
    };
    let rem: int = if nanos >= 1000000000 {
        nanos - 1000000000
    } else {
        nanos
    };
    if a.secs + b.secs + carry > u64::MAX {
        None
    } else {
        Some(Duration { secs: (a.secs + b.secs + carry) as u64, nanos: rem as u32 })
    }
}

/// The units a duration string may name.
#[derive(PartialEq, Eq, Structural, Clone, Copy, Debug)]
pub enum TimeUnit {
    NanoSecond,
    MicroSecond,
    MilliSecond,
    Second,
    Minute,
    Hour,
    Day,
}

/// The unit an alphabetic run names, if any.
pub open spec fn spec_unit_of(s: Seq<u8>) -> Option<TimeUnit> {
    if s.len() == 1 && (s[0] == 100 || s[0] == 68) {
        Some(TimeUnit::Day)
    } else if s.len() == 1 && (s[0] == 104 || s[0] == 72) {
        Some(TimeUnit::Hour)
    } else if s.len() == 1 && (s[0] == 109 || s[0] == 77) {
        Some(TimeUnit::Minute)
    } else if s.len() == 1 && (s[0] == 115 || s[0] == 83) {
        Some(TimeUnit::Second)
    } else if s.len() == 2 && s[0] == 109 && s[1] == 115 {
        Some(TimeUnit::MilliSecond)
    } else if s.len() == 2 && s[0] == 117 && s[1] == 115 {
        Some(TimeUnit::MicroSecond)
    } else if s.len() == 3 && s[0] == 0xC2 && s[1] == 0xB5 && s[2] == 115 {
        Some(TimeUnit::MicroSecond)
    } else if s.len() == 2 && s[0] == 110 && s[1] == 115 {
        Some(TimeUnit::NanoSecond)
    } else {
        None
    }
}

/// `n` of a unit as a span; `None` when the seconds overflow.
pub open spec fn spec_unit_duration(u: TimeUnit, n: u64) -> Option<Duration> {
    match u {
        TimeUnit::NanoSecond => Some(
            Duration { secs: (n / 1000000000) as u64, nanos: (n % 1000000000) as u32 },
        ),
        TimeUnit::MicroSecond => Some(
            Duration { secs: (n / 1000000) as u64, nanos: ((n % 1000000) * 1000) as u32 },
        ),
        TimeUnit::MilliSecond => Some(
            Duration { secs: (n / 1000) as u64, nanos: ((n % 1000) * 1000000) as u32 },
        ),
        TimeUnit::Second => Some(Duration { secs: n, nanos: 0 }),
        TimeUnit::Minute => if n > u64::MAX / 60 {
            None
        } else {
            Some(Duration { secs: (n * 60) as u64, nanos: 0 })
        },
        TimeUnit::Hour => if n > u64::MAX / 3600 {
            None
        } else {
            Some(Duration { secs: (n * 3600) as u64, nanos: 0 })
        },
        TimeUnit::Day => if n > u64::MAX / 86400 {
            None
        } else {
            Some(Duration { secs: (n * 86400) as u64, nanos: 0 })
        },
    }
}

impl TimeUnit {
    /// `n` of this unit as a span; the caller keeps the product inside
    /// 64 bits.
    pub fn to_duration(&self, n: u64) -> (r: Duration)
        requires
            spec_unit_duration(*self, n) is Some,
        ensures
            Some(r) == spec_unit_duration(*self, n),
    {
        match unit_duration_checked(*self, n) {
            Some(d) => d,
            None => Duration { secs: 0, nanos: 0 },
        }
    }

    /// The unit an alphabetic run names.
    pub fn from(s: &[u8]) -> (r: Result<TimeUnit, DurationError>)
        ensures
            ({
                match spec_unit_of(s@) {
                    Some(u) => r matches Ok(u2) && u2 == u,
                    None => r matches Err(e) && e == DurationError::InvalidUnit,
                }
            }),
    {
        if s.len() == 1 {
            let b: u8 = s[0];
            if b == 100 || b == 68 {
                Ok(TimeUnit::Day)
            } else if b == 104 || b == 72 {
                Ok(TimeUnit::Hour)
            } else if b == 109 || b == 77 {
                Ok(TimeUnit::Minute)
            } else if b == 115 || b == 83 {
                Ok(TimeUnit::Second)
            } else {
                Err(DurationError::InvalidUnit)
            }
        } else if s.len() == 2 {
            let a: u8 = s[0];
            let b: u8 = s[1];
            if a == 109 && b == 115 {
                Ok(TimeUnit::MilliSecond)
            } else if a == 117 && b == 115 {
                Ok(TimeUnit::MicroSecond)
            } else if a == 110 && b == 115 {
                Ok(TimeUnit::NanoSecond)
            } else {
                Err(DurationError::InvalidUnit)
            }
        } else if s.len() == 3 && s[0] == 0xC2 && s[1] == 0xB5 && s[2] == 115 {
            Ok(TimeUnit::MicroSecond)
        } else {
            Err(DurationError::InvalidUnit)
        }
    }
}

/// `n` of a unit as a span, checked.
fn unit_duration_checked(u: TimeUnit, n: u64) -> (r: Option<Duration>)
    ensures
        r == spec_unit_duration(u, n),
{
    match u {
        TimeUnit::NanoSecond => Some(
            Duration { secs: n / 1000000000, nanos: (n % 1000000000) as u32 },
        ),
        TimeUnit::MicroSecond => Some(
            Duration { secs: n / 1000000, nanos: ((n % 1000000) as u32) * 1000 },
        ),
        TimeUnit::MilliSecond => Some(
            Duration { secs: n / 1000, nanos: ((n % 1000) as u32) * 1000000 },
        ),
        TimeUnit::Second => Some(Duration { secs: n, nanos: 0 }),
        TimeUnit::Minute => match n.checked_mul(60) {
            Some(secs) => Some(Duration { secs, nanos: 0 }),
            None => None,
        },
        TimeUnit::Hour => match n.checked_mul(3600) {
            Some(secs) => Some(Duration { secs, nanos: 0 }),
            None => None,
        },
        TimeUnit::Day => match n.checked_mul(86400) {
            Some(secs) => Some(Duration { secs, nanos: 0 }),
            None => None,
        },
    }
}

// ---------------------------------------------------------------------------
// Splitting "1h15m10s" into its numeric and alphabetic runs.
// ---------------------------------------------------------------------------

pub open spec fn spec_is_digit(b: u8) -> bool {
    48 <= b <= 57
}

/// A byte of an alphabetic unit run: an ASCII letter, or one of the
/// two bytes spelling the micro sign, so that a microsecond unit
/// survives the split.
pub open spec fn spec_is_alpha(b: u8) -> bool {
    (65 <= b <= 90) || (97 <= b <= 122) || b == 0xC2 || b == 0xB5
}

/// The longest digit prefix of `s`.
pub open spec fn spec_take_digits(s: Seq<u8>) -> Seq<u8>
    decreases s.len(),
{
    if s.len() > 0 && spec_is_digit(s[0]) {
        seq![s[0]] + spec_take_digits(s.drop_first())
    } else {
        seq![]
    }
}

/// The longest alphabetic prefix of `s`.
pub open spec fn spec_take_alphas(s: Seq<u8>) -> Seq<u8>
    decreases s.len(),
{
    if s.len() > 0 && spec_is_alpha(s[0]) {
        seq![s[0]] + spec_take_alphas(s.drop_first())
    } else {
        seq![]
    }
}

/// The maximal digit runs of `s`, in order.
pub open spec fn spec_num_runs(s: Seq<u8>) -> Seq<Seq<u8>>
    decreases s.len(),
    via spec_num_runs_decreases
{
    if s.len() == 0 {
        seq![]
    } else if spec_is_digit(s[0]) {
        let run = spec_take_digits(s);
        seq![run] + spec_num_runs(s.skip(run.len() as int))
    } else {
        spec_num_runs(s.drop_first())
    }
}

#[via_fn]
proof fn spec_num_runs_decreases(s: Seq<u8>) {
    if s.len() > 0 && spec_is_digit(s[0]) {
        assert(spec_take_digits(s) == seq![s[0]] + spec_take_digits(s.drop_first()));
        lemma_take_digits_len(s);
    }
}

/// A digit run never outruns its string.
proof fn lemma_take_digits_len(s: Seq<u8>)
    ensures
        spec_take_digits(s).len() <= s.len(),
    decreases s.len(),
{
    if s.len() > 0 && spec_is_digit(s[0]) {
        lemma_take_digits_len(s.drop_first());
    }
}

/// An alphabetic run never outruns its string.
proof fn lemma_take_alphas_len(s: Seq<u8>)
    ensures
        spec_take_alphas(s).len() <= s.len(),
    decreases s.len(),
{
    if s.len() > 0 && spec_is_alpha(s[0]) {
        lemma_take_alphas_len(s.drop_first());
    }
}

/// The maximal alphabetic runs of `s`, in order.
pub open spec fn spec_alpha_runs(s: Seq<u8>) -> Seq<Seq<u8>>
    decreases s.len(),
    via spec_alpha_runs_decreases
{
    if s.len() == 0 {
        seq![]
    } else if spec_is_alpha(s[0]) {
        let run = spec_take_alphas(s);
        seq![run] + spec_alpha_runs(s.skip(run.len() as int))
    } else {
        spec_alpha_runs(s.drop_first())
    }
}

#[via_fn]
proof fn spec_alpha_runs_decreases(s: Seq<u8>) {
    if s.len() > 0 && spec_is_alpha(s[0]) {
        assert(spec_take_alphas(s) == seq![s[0]] + spec_take_alphas(s.drop_first()));
        lemma_take_alphas_len(s);
    }
}

/// The decimal value of a digit run.
pub open spec fn spec_digits_val(run: Seq<u8>) -> int
    decreases run.len(),
{
    if run.len() == 0 {
        0
    } else {
        spec_digits_val(run.drop_last()) * 10 + (run.last() - 48)
    }
}

/// The values of the digit runs, or `Overflow` once one passes 64 bits.
pub open spec fn spec_nums_vals(runs: Seq<Seq<u8>>) -> Result<Seq<u64>, DurationError>
    decreases runs.len(),
{
    if runs.len() == 0 {
        Ok(seq![])
    } else if spec_digits_val(runs[0]) > u64::MAX {
        Err(DurationError::Overflow)
    } else {
        match spec_nums_vals(runs.drop_first()) {
            Ok(vs) => Ok(seq![spec_digits_val(runs[0]) as u64] + vs),
            Err(e) => Err(e),
        }
    }
}

/// Summing the (value, unit) pairs onto `acc`, in order.
pub open spec fn spec_sum_pairs(vals: Seq<u64>, units: Seq<Seq<u8>>, acc: Duration) -> Result<
    Duration,
    DurationError,
>
    decreases vals.len(),
{
    if vals.len() == 0 || units.len() == 0 {
        Ok(acc)
    } else {
        match spec_unit_of(units[0]) {
            None => Err(DurationError::InvalidUnit),
            Some(u) => match spec_unit_duration(u, vals[0]) {
                None => Err(DurationError::Overflow),
                Some(d) => match spec_add_duration(acc, d) {
                    None => Err(DurationError::Overflow),
                    Some(acc2) => spec_sum_pairs(vals.drop_first(), units.drop_first(), acc2),
                },
            },
        }
    }
}

/// What parsing a duration string yields: the runs split apart, their
/// values read, and the pairs summed.
pub open spec fn spec_parse_duration(s: Seq<u8>) -> Result<Duration, DurationError> {
    match spec_nums_vals(spec_num_runs(s)) {
        Err(e) => Err(e),
        Ok(vals) => if vals.len() != spec_alpha_runs(s).len() {
            Err(DurationError::InvalidDuration)
        } else {
            spec_sum_pairs(vals, spec_alpha_runs(s), Duration { secs: 0, nanos: 0 })
        },
    }
}

/// A value of a prefix of a digit run never passes the run's own value.
proof fn lemma_digits_val_prefix_le(run: Seq<u8>, j: int)
    requires
        0 <= j <= run.len(),
        forall|k: int| 0 <= k < run.len() ==> spec_is_digit(#[trigger] run[k]),
    ensures
        0 <= spec_digits_val(run.subrange(0, j)) <= spec_digits_val(run),
    decreases run.len() - j,
{
    lemma_digits_val_nonneg(run.subrange(0, j));
    if j == run.len() {
        assert(run.subrange(0, j) =~= run);
    } else {
        lemma_digits_val_prefix_le(run, j + 1);
        assert(run.subrange(0, j + 1).drop_last() =~= run.subrange(0, j));
        lemma_digits_val_nonneg(run.subrange(0, j));
    }
}

proof fn lemma_digits_val_nonneg(run: Seq<u8>)
    ensures
        spec_digits_val(run) >= 0 || exists|k: int|
            0 <= k < run.len() && !spec_is_digit(#[trigger] run[k]),
    decreases run.len(),
{
    if run.len() == 0 {
    } else {
        lemma_digits_val_nonneg(run.drop_last());
        if spec_digits_val(run.drop_last()) >= 0 {
            if spec_is_digit(run.last()) {
            } else {
                assert(!spec_is_digit(run[run.len() - 1]));
            }
        } else {
            let k = choose|k: int|
                0 <= k < run.drop_last().len() && !spec_is_digit(#[trigger] run.drop_last()[k]);
            assert(run[k] == run.drop_last()[k]);
        }
    }
}


/// A digit run holds digits only.
proof fn lemma_take_digits_digits(s: Seq<u8>)
    ensures
        forall|k: int|
            0 <= k < spec_take_digits(s).len() ==> spec_is_digit(#[trigger] spec_take_digits(s)[k]),
    decreases s.len(),
{
    if s.len() > 0 && spec_is_digit(s[0]) {
        lemma_take_digits_digits(s.drop_first());
        assert(spec_take_digits(s) == seq![s[0]] + spec_take_digits(s.drop_first()));
        assert forall|k: int|
            0 <= k < spec_take_digits(s).len() implies spec_is_digit(
            #[trigger] spec_take_digits(s)[k],
        ) by {
            if k > 0 {
                assert(spec_take_digits(s)[k] == spec_take_digits(s.drop_first())[k - 1]);
            }
        }
    }
}

/// The numeric runs of `s`, each read as a 64-bit value.
#[verifier::loop_isolation(false)]
fn split_nums(s: &[u8]) -> (r: Result<Vec<u64>, DurationError>)
    ensures
        ({
            match spec_nums_vals(spec_num_runs(s@)) {
                Ok(vs) => r matches Ok(v) && v@ == vs,
                Err(e) => r matches Err(e2) && e2 == e,
            }
        }),
{
    let ghost overall = spec_nums_vals(spec_num_runs(s@));
    let mut res: Vec<u64> = Vec::new();
    let mut i: usize = 0;

    proof {
        assert(s@.skip(0) =~= s@);
    }

    while i < s.len()
        invariant
            0 <= i <= s@.len(),
            overall == spec_nums_vals(spec_num_runs(s@)),
            match spec_nums_vals(spec_num_runs(s@.skip(i as int))) {
                Ok(vs) => overall == Ok::<_, DurationError>(res@ + vs),
                Err(e) => overall == Err::<Seq<u64>, _>(e),
            },
        decreases s@.len() - i,
    {
        let b: u8 = s[i];
        if !(48 <= b && b <= 57) {
            proof {
                assert(s@.skip(i as int).drop_first() =~= s@.skip(i as int + 1));
            }
            i = i + 1;
        } else {
            let ghost i0 = i as int;
            let ghost run = spec_take_digits(s@.skip(i0));
            proof {
                lemma_take_digits_digits(s@.skip(i0));
                assert(s@.subrange(i0, i0) =~= Seq::<u8>::empty());
                assert(Seq::<u8>::empty() + spec_take_digits(s@.skip(i0)) =~= run);
            }
            let mut temp: u64 = 0;
            let mut j: usize = i;

            while j < s.len() && 48 <= s[j] && s[j] <= 57
                invariant
                    0 <= i0 <= j <= s@.len(),
                    run == spec_take_digits(s@.skip(i0)),
                    forall|k: int|
                        0 <= k < run.len() ==> spec_is_digit(#[trigger] run[k]),
                    run == s@.subrange(i0, j as int) + spec_take_digits(s@.skip(j as int)),
                    temp == spec_digits_val(s@.subrange(i0, j as int)),
                decreases s@.len() - j,
            {
                let d: u8 = s[j];
                proof {
                    assert(s@.skip(j as int).drop_first() =~= s@.skip(j as int + 1));
                    assert(s@.skip(j as int)[0] == s@[j as int]);
                    assert(spec_take_digits(s@.skip(j as int)) == seq![s@[j as int]]
                        + spec_take_digits(s@.skip(j as int + 1)));
                    assert(s@.subrange(i0, j as int + 1).drop_last() =~= s@.subrange(i0, j as int));
                    assert(run =~= s@.subrange(i0, j as int + 1) + spec_take_digits(
                        s@.skip(j as int + 1),
                    ));
                }
                let stepped: Option<u64> = match temp.checked_mul(10) {
                    Some(t) => t.checked_add((d - 48) as u64),
                    None => None,
                };
                match stepped {
                    Some(t) => {
                        temp = t;
                    },
                    None => {
                        proof {
                            assert(spec_digits_val(s@.subrange(i0, j as int + 1)) > u64::MAX);
                            assert(run.subrange(0, j as int + 1 - i0) =~= s@.subrange(
                                i0,
                                j as int + 1,
                            ));
                            lemma_digits_val_prefix_le(run, j as int + 1 - i0);
                            assert(spec_digits_val(run) > u64::MAX);
                            lemma_take_digits_len(s@.skip(i0));
                            assert(s@.skip(i0)[0] == s@[i0] && spec_is_digit(s@.skip(i0)[0]));
                            assert(s@.skip(i0).skip(run.len() as int) =~= s@.skip(
                                i0 + run.len(),
                            ));
                            assert(spec_num_runs(s@.skip(i0)) == seq![run] + spec_num_runs(
                                s@.skip(i0 + run.len()),
                            ));
                            assert(spec_num_runs(s@.skip(i0))[0] == run);
                            assert(spec_nums_vals(spec_num_runs(s@.skip(i0)))
                                == Err::<Seq<u64>, _>(DurationError::Overflow));
                        }
                        return Err(DurationError::Overflow);
                    },
                }
                j = j + 1;
            }

            proof {
                if j < s@.len() {
                    assert(s@.skip(j as int)[0] == s@[j as int]);
                    assert(!spec_is_digit(s@.skip(j as int)[0]));
                }
                assert(spec_take_digits(s@.skip(j as int)) =~= Seq::<u8>::empty());
                assert(run =~= s@.subrange(i0, j as int));
                assert(s@.skip(i0)[0] == s@[i0] && spec_is_digit(s@.skip(i0)[0]));
                assert(s@.skip(i0).skip(run.len() as int) =~= s@.skip(i0 + run.len()));
                assert(spec_num_runs(s@.skip(i0)) == seq![run] + spec_num_runs(
                    s@.skip(i0 + run.len()),
                ));
                assert(i0 + run.len() == j as int);
            }
            let ghost res0 = res@;
            res.push(temp);
            proof {
                let runs = spec_num_runs(s@.skip(i0));
                assert(runs[0] == run && runs.drop_first() =~= spec_num_runs(s@.skip(j as int)));
                assert(spec_digits_val(run) == temp);
                assert(res@ =~= res0.push(temp));
                match spec_nums_vals(spec_num_runs(s@.skip(j as int))) {
                    Ok(vs) => {
                        assert(spec_nums_vals(runs) == Ok::<_, DurationError>(
                            seq![spec_digits_val(runs[0]) as u64] + vs,
                        ));
                        assert(seq![spec_digits_val(runs[0]) as u64] =~= seq![temp]);
                        assert((res0 + (seq![temp] + vs)) =~= (res@ + vs));
                    },
                    Err(e) => {
                        assert(spec_nums_vals(runs) == Err::<Seq<u64>, _>(e));
                    },
                }
            }
            i = j;
        }
    }

    proof {
        assert(s@.skip(s@.len() as int) =~= Seq::<u8>::empty());
        assert(spec_num_runs(Seq::<u8>::empty()) =~= Seq::<Seq<u8>>::empty());
        assert(res@ + Seq::<u64>::empty() =~= res@);
    }

    Ok(res)
}

/// The views of a list of byte strings.
pub open spec fn spec_seqs_of(v: Seq<Vec<u8>>) -> Seq<Seq<u8>> {
    v.map_values(|x: Vec<u8>| x@)
}

/// The alphabetic runs of `s`.
#[verifier::loop_isolation(false)]
#[verifier::rlimit(100)]
fn split_str(s: &[u8]) -> (r: Vec<Vec<u8>>)
    ensures
        spec_seqs_of(r@) == spec_alpha_runs(s@),
{
    let mut res: Vec<Vec<u8>> = Vec::new();
    let mut i: usize = 0;

    proof {
        assert(s@.skip(0) =~= s@);
        assert(spec_seqs_of(res@) + spec_alpha_runs(s@) =~= spec_alpha_runs(s@));
    }

    while i < s.len()
        invariant
            0 <= i <= s@.len(),
            spec_alpha_runs(s@) == spec_seqs_of(res@) + spec_alpha_runs(s@.skip(i as int)),
        decreases s@.len() - i,
    {
        let b: u8 = s[i];
        let alpha: bool = (65 <= b && b <= 90) || (97 <= b && b <= 122) || b == 0xC2 || b == 0xB5;
        if !alpha {
            proof {
                assert(s@.skip(i as int).drop_first() =~= s@.skip(i as int + 1));
            }
            i = i + 1;
        } else {
            let ghost i0 = i as int;
            let ghost run = spec_take_alphas(s@.skip(i0));
            let mut cur: Vec<u8> = Vec::new();
            let mut j: usize = i;

            while j < s.len() && ((65 <= s[j] && s[j] <= 90) || (97 <= s[j] && s[j] <= 122)
                || s[j] == 0xC2 || s[j] == 0xB5)
                invariant
                    0 <= i0 <= j <= s@.len(),
                    cur@ == s@.subrange(i0, j as int),
                    run == spec_take_alphas(s@.skip(i0)),
                    run == cur@ + spec_take_alphas(s@.skip(j as int)),
                decreases s@.len() - j,
            {
                proof {
                    assert(s@.skip(j as int).drop_first() =~= s@.skip(j as int + 1));
                    assert(s@.skip(j as int)[0] == s@[j as int]);
                    assert(spec_take_alphas(s@.skip(j as int)) == seq![s@[j as int]]
                        + spec_take_alphas(s@.skip(j as int + 1)));
                    assert(cur@.push(s@[j as int]) + spec_take_alphas(s@.skip(j as int + 1))
                        =~= cur@ + spec_take_alphas(s@.skip(j as int)));
                }
                cur.push(s[j]);
                j = j + 1;
            }

            proof {
                if j < s@.len() {
                    assert(s@.skip(j as int)[0] == s@[j as int]);
                    assert(!spec_is_alpha(s@.skip(j as int)[0]));
                }
                assert(spec_take_alphas(s@.skip(j as int)) =~= Seq::<u8>::empty());
                assert(run =~= cur@);
                assert(s@.skip(i0)[0] == s@[i0] && spec_is_alpha(s@.skip(i0)[0]));
                assert(s@.skip(i0).skip(run.len() as int) =~= s@.skip(i0 + run.len()));
                assert(spec_alpha_runs(s@.skip(i0)) == seq![run] + spec_alpha_runs(
                    s@.skip(i0 + run.len()),
                ));
                assert(i0 + run.len() == j as int);
            }
            res.push(cur);
            proof {
                assert(spec_seqs_of(res@) =~= spec_seqs_of(res@.drop_last()) + seq![run]);
                assert((spec_seqs_of(res@.drop_last()) + seq![run]) + spec_alpha_runs(
                    s@.skip(j as int),
                ) =~= spec_seqs_of(res@.drop_last()) + (seq![run] + spec_alpha_runs(
                    s@.skip(j as int),
                )));
            }
            i = j;
        }
    }

    proof {
        assert(s@.skip(s@.len() as int) =~= Seq::<u8>::empty());
        assert(spec_alpha_runs(Seq::<u8>::empty()) =~= Seq::<Seq<u8>>::empty());
        assert(spec_seqs_of(res@) + Seq::<Seq<u8>>::empty() =~= spec_seqs_of(res@));
    }

    res
}

/// The numeric values and the unit names of a duration string, which
/// must pair up one to one.
pub struct SplitUnits(pub Vec<u64>, pub Vec<Vec<u8>>);

fn split_by_nums(s: &[u8]) -> (r: Result<SplitUnits, DurationError>)
    ensures
        ({
            match spec_nums_vals(spec_num_runs(s@)) {
                Err(e) => r matches Err(e2) && e2 == e,
                Ok(vals) => if vals.len() != spec_alpha_runs(s@).len() {
                    r matches Err(e2) && e2 == DurationError::InvalidDuration
                } else {
                    r matches Ok(su) && su.0@ == vals && spec_seqs_of(su.1@) == spec_alpha_runs(s@)
                },
            }
        }),
{
    let nums = split_nums(s)?;
    let units = split_str(s);

    if nums.len() != units.len() {
        return Err(DurationError::InvalidDuration);
    }

    Ok(SplitUnits(nums, units))
}

/// Reads a duration such as "1h15m10s": each number paired with its
/// unit, all pairs summed.
#[verifier::loop_isolation(false)]
pub fn parse(s: &[u8]) -> (r: Result<Duration, DurationError>)
    ensures
        r == spec_parse_duration(s@),
{
    let su = split_by_nums(s)?;
    let ghost vals = su.0@;
    let ghost units = spec_seqs_of(su.1@);
    let ghost overall = spec_sum_pairs(vals, units, Duration { secs: 0, nanos: 0 });

    let mut res = Duration::zero();
    let mut i: usize = 0;

    proof {
        assert(vals.skip(0) =~= vals);
        assert(units.skip(0) =~= units);
        assert(spec_parse_duration(s@) == overall);
    }

    while i < su.0.len()
        invariant
            0 <= i <= su.0@.len(),
            su.0@ == vals,
            units == spec_seqs_of(su.1@),
            vals.len() == units.len(),
            res.wf(),
            overall == spec_sum_pairs(vals.skip(i as int), units.skip(i as int), res),
            overall == spec_parse_duration(s@),
        decreases su.0@.len() - i,
    {
        proof {
            assert(vals.skip(i as int)[0] == vals[i as int]);
            assert(units.skip(i as int)[0] == units[i as int]);
            assert(vals.skip(i as int).drop_first() =~= vals.skip(i as int + 1));
            assert(units.skip(i as int).drop_first() =~= units.skip(i as int + 1));
        }

        let unit = match TimeUnit::from(su.1[i].as_slice()) {
            Ok(u) => u,
            Err(e) => {
                return Err(e);
            },
        };
        let d = match unit_duration_checked(unit, su.0[i]) {
            Some(d) => d,
            None => {
                return Err(DurationError::Overflow);
            },
        };
        res = match res.checked_add(d) {
            Some(x) => x,
            None => {
                return Err(DurationError::Overflow);
            },
        };
        i = i + 1;
    }

    proof {
        assert(vals.skip(vals.len() as int).len() == 0);
    }

    Ok(res)
}

} // verus!
