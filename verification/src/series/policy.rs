//! The policy of a compaction, and how it is written: an aggregation, the length of a bucket, a
//! retention and, if wanted, an alignment, with `:` between them.
use crate::sample::Timestamp;
use crate::text::{
    chars_equal, chars_of, chars_small, decimal, parts_view, push_chars, push_decimal, push_text,
    small_text, split_chars, split_text, text_of,
};
use vstd::prelude::*;

verus! {

/// How the samples of a bucket become one value.
#[derive(Debug, Clone, Copy, PartialEq, Eq, Hash, Structural)]
pub enum AggregationType {
    Avg,
    Count,
    First,
    Last,
    Max,
    Min,
    Range,
    Rate,
    StdP,
    StdS,
    Sum,
    VarP,
    VarS,
}

/// The name of an aggregation, in capital letters.
pub open spec fn aggregation_title(a: AggregationType) -> Seq<char> {
    match a {
        AggregationType::Avg => "AVG"@,
        AggregationType::Count => "COUNT"@,
        AggregationType::First => "FIRST"@,
        AggregationType::Last => "LAST"@,
        AggregationType::Max => "MAX"@,
        AggregationType::Min => "MIN"@,
        AggregationType::Range => "RANGE"@,
        AggregationType::Rate => "RATE"@,
        AggregationType::StdP => "STD.P"@,
        AggregationType::StdS => "STD.S"@,
        AggregationType::Sum => "SUM"@,
        AggregationType::VarP => "VAR.P"@,
        AggregationType::VarS => "VAR.S"@,
    }
}

/// The name of an aggregation.
pub open spec fn aggregation_name(a: AggregationType) -> Seq<char> {
    match a {
        AggregationType::Avg => "avg"@,
        AggregationType::Count => "count"@,
        AggregationType::First => "first"@,
        AggregationType::Last => "last"@,
        AggregationType::Max => "max"@,
        AggregationType::Min => "min"@,
        AggregationType::Range => "range"@,
        AggregationType::Rate => "rate"@,
        AggregationType::StdP => "std.p"@,
        AggregationType::StdS => "std.s"@,
        AggregationType::Sum => "sum"@,
        AggregationType::VarP => "var.p"@,
        AggregationType::VarS => "var.s"@,
    }
}

impl AggregationType {
    /// The name of an aggregation.
    pub fn name(&self) -> (r: &'static str)
        ensures
            r@ == aggregation_name(*self),
    {
        match self {
            AggregationType::Avg => "avg",
            AggregationType::Count => "count",
            AggregationType::First => "first",
            AggregationType::Last => "last",
            AggregationType::Max => "max",
            AggregationType::Min => "min",
            AggregationType::Range => "range",
            AggregationType::Rate => "rate",
            AggregationType::StdP => "std.p",
            AggregationType::StdS => "std.s",
            AggregationType::Sum => "sum",
            AggregationType::VarP => "var.p",
            AggregationType::VarS => "var.s",
        }
    }

    /// The name of an aggregation, in capital letters.
    pub fn title(&self) -> (r: &'static str)
        ensures
            r@ == aggregation_title(*self),
    {
        match self {
            AggregationType::Avg => "AVG",
            AggregationType::Count => "COUNT",
            AggregationType::First => "FIRST",
            AggregationType::Last => "LAST",
            AggregationType::Max => "MAX",
            AggregationType::Min => "MIN",
            AggregationType::Range => "RANGE",
            AggregationType::Rate => "RATE",
            AggregationType::StdP => "STD.P",
            AggregationType::StdS => "STD.S",
            AggregationType::Sum => "SUM",
            AggregationType::VarP => "VAR.P",
            AggregationType::VarS => "VAR.S",
        }
    }

    /// The aggregations, in the order in which names are tried.
    fn all() -> (r: Vec<AggregationType>)
        ensures
            forall|a: AggregationType| #[trigger] r@.contains(a),
    {
        let mut v: Vec<AggregationType> = Vec::new();
        v.push(AggregationType::Avg);
        v.push(AggregationType::Count);
        v.push(AggregationType::First);
        v.push(AggregationType::Last);
        v.push(AggregationType::Max);
        v.push(AggregationType::Min);
        v.push(AggregationType::Range);
        v.push(AggregationType::Rate);
        v.push(AggregationType::StdP);
        v.push(AggregationType::StdS);
        v.push(AggregationType::Sum);
        v.push(AggregationType::VarP);
        v.push(AggregationType::VarS);
        proof {
            assert forall|a: AggregationType| #[trigger] v@.contains(a) by {
                match a {
                    AggregationType::Avg => {
                        assert(v@[0] == a);
                    },
                    AggregationType::Count => {
                        assert(v@[1] == a);
                    },
                    AggregationType::First => {
                        assert(v@[2] == a);
                    },
                    AggregationType::Last => {
                        assert(v@[3] == a);
                    },
                    AggregationType::Max => {
                        assert(v@[4] == a);
                    },
                    AggregationType::Min => {
                        assert(v@[5] == a);
                    },
                    AggregationType::Range => {
                        assert(v@[6] == a);
                    },
                    AggregationType::Rate => {
                        assert(v@[7] == a);
                    },
                    AggregationType::StdP => {
                        assert(v@[8] == a);
                    },
                    AggregationType::StdS => {
                        assert(v@[9] == a);
                    },
                    AggregationType::Sum => {
                        assert(v@[10] == a);
                    },
                    AggregationType::VarP => {
                        assert(v@[11] == a);
                    },
                    AggregationType::VarS => {
                        assert(v@[12] == a);
                    },
                }
            }
        }
        v
    }

    /// The aggregation with a name, whether its letters are capital or small.
    pub fn from_name(name: &[char]) -> (r: Option<AggregationType>)
        ensures
            match r {
                Some(a) => aggregation_name(a) == small_text(name@),
                None => forall|a: AggregationType|
                    #[trigger] aggregation_name(a) != small_text(name@),
            },
    {
        let wanted = chars_small(name);
        let all = AggregationType::all();
        let mut i: usize = 0;
        while i < all.len()
            invariant
                i <= all@.len(),
                wanted@ == small_text(name@),
                forall|j: int| 0 <= j < i ==> aggregation_name(#[trigger] all@[j]) != wanted@,
            decreases all.len() - i,
        {
            let own = chars_of(all[i].name());
            if chars_equal(own.as_slice(), wanted.as_slice()) {
                return Some(all[i]);
            }
            i += 1;
        }
        proof {
            assert forall|a: AggregationType|
                #[trigger] aggregation_name(a) != small_text(name@) by {
                assert(all@.contains(a));
                let j = choose|j: int| 0 <= j < all@.len() && all@[j] == a;
                assert(aggregation_name(all@[j]) != wanted@);
            }
        }
        None
    }
}

/// What is wrong with a configuration.
#[derive(Debug, Clone, PartialEq, Eq)]
pub enum PolicyError {
    /// A policy does not have three or four parts.
    InvalidFormat,
    /// There is no aggregation with the name.
    UnknownAggregation,
    /// The length of a bucket cannot be read.
    InvalidBucketDuration,
    /// A bucket takes no time.
    ZeroBucketDuration,
    /// The retention cannot be read.
    InvalidRetention,
    /// The alignment cannot be read.
    InvalidAlignment,
    /// The regular expression is empty.
    EmptyFilter,
    /// The regular expression cannot be compiled.
    InvalidFilter,
    /// There is nothing between two `;`.
    EmptyPolicy,
    /// A policy with the same filter is there already.
    DuplicatePolicy,
}

/// The message of each error.
pub open spec fn policy_error_text(e: PolicyError) -> Seq<char> {
    match e {
        PolicyError::InvalidFormat => "TSDB: invalid compaction policy format. Expected: aggregation_type:bucket_duration:retention[:align_timestamp]"@,
        PolicyError::UnknownAggregation => "TSDB: unknown aggregation type"@,
        PolicyError::InvalidBucketDuration => "TSDB: invalid bucket duration in compaction policy"@,
        PolicyError::ZeroBucketDuration => "TSDB: compaction policy bucket duration cannot be zero"@,
        PolicyError::InvalidRetention => "TSDB: invalid retention in compaction policy"@,
        PolicyError::InvalidAlignment => "TSDB: invalid align timestamp in compaction policy"@,
        PolicyError::EmptyFilter => "TSDB: empty regex filter in compaction policy"@,
        PolicyError::InvalidFilter => "TSDB: invalid regex filter in compaction policy"@,
        PolicyError::EmptyPolicy => "Empty compaction policy found"@,
        PolicyError::DuplicatePolicy => "TSDB: duplicate compaction policy"@,
    }
}

impl PolicyError {
    /// The message that describes the error.
    pub fn to_text(&self) -> (r: String)
        ensures
            r@ == policy_error_text(*self),
    {
        let text: &'static str = match self {
            PolicyError::InvalidFormat => "TSDB: invalid compaction policy format. Expected: aggregation_type:bucket_duration:retention[:align_timestamp]",
            PolicyError::UnknownAggregation => "TSDB: unknown aggregation type",
            PolicyError::InvalidBucketDuration => "TSDB: invalid bucket duration in compaction policy",
            PolicyError::ZeroBucketDuration => "TSDB: compaction policy bucket duration cannot be zero",
            PolicyError::InvalidRetention => "TSDB: invalid retention in compaction policy",
            PolicyError::InvalidAlignment => "TSDB: invalid align timestamp in compaction policy",
            PolicyError::EmptyFilter => "TSDB: empty regex filter in compaction policy",
            PolicyError::InvalidFilter => "TSDB: invalid regex filter in compaction policy",
            PolicyError::EmptyPolicy => "Empty compaction policy found",
            PolicyError::DuplicatePolicy => "TSDB: duplicate compaction policy",
        };
        text.to_owned()
    }
}

/// A compaction that new series get.
#[derive(Debug, Clone, Copy, PartialEq, Eq, Hash, Structural)]
pub struct CompactionPolicy {
    pub aggregator: AggregationType,
    pub bucket_duration_ms: u64,
    pub retention_ms: u64,
    pub bucket_alignment: Timestamp,
}

/// A number behind an underscore, where it is more than 0.
pub open spec fn suffix(n: int) -> Seq<char> {
    if n > 0 {
        seq!['_'] + decimal(n as nat)
    } else {
        Seq::empty()
    }
}

/// A number behind a colon, where it is more than 0.
pub open spec fn tail(n: int) -> Seq<char> {
    if n > 0 {
        seq![':'] + decimal(n as nat)
    } else {
        Seq::empty()
    }
}

/// The key of the series that a policy makes for a key.
pub open spec fn policy_key(p: CompactionPolicy, key: Seq<char>) -> Seq<char> {
    key + seq!['_'] + aggregation_title(p.aggregator) + suffix(p.bucket_duration_ms as int)
        + suffix(p.bucket_alignment as int)
}

/// A policy as it is written in a configuration, with numbers in milliseconds.
pub open spec fn policy_text(p: CompactionPolicy) -> Seq<char> {
    aggregation_name(p.aggregator) + seq![':'] + decimal(p.bucket_duration_ms as nat) + seq![':']
        + decimal(p.retention_ms as nat) + tail(p.bucket_alignment as int)
}

impl CompactionPolicy {
    /// The key of the series that the policy makes for a key.
    pub fn format_key(&self, key: &str) -> (r: String)
        ensures
            r@ == policy_key(*self, key@),
    {
        let mut out: Vec<char> = chars_of(key);
        out.push('_');
        push_text(&mut out, self.aggregator.title());
        if self.bucket_duration_ms > 0 {
            out.push('_');
            push_decimal(&mut out, self.bucket_duration_ms);
        }
        if self.bucket_alignment > 0 {
            out.push('_');
            push_decimal(&mut out, self.bucket_alignment as u64);
        }
        assert(out@ =~= policy_key(*self, key@));
        text_of(out.as_slice())
    }

    /// The policy as it is written in a configuration.
    pub fn to_text(&self) -> (r: String)
        ensures
            r@ == policy_text(*self),
    {
        let mut out: Vec<char> = chars_of(self.aggregator.name());
        out.push(':');
        push_decimal(&mut out, self.bucket_duration_ms);
        out.push(':');
        push_decimal(&mut out, self.retention_ms);
        if self.bucket_alignment > 0 {
            out.push(':');
            push_decimal(&mut out, self.bucket_alignment as u64);
        }
        assert(out@ =~= policy_text(*self));
        text_of(out.as_slice())
    }
}

/// Whether a character is a decimal digit.
pub open spec fn is_digit(c: char) -> bool {
    '0' <= c <= '9'
}

/// How many digits a text starts with.
pub open spec fn digit_count(s: Seq<char>) -> int
    decreases s.len(),
{
    if s.len() == 0 || !is_digit(s[0]) {
        0
    } else {
        1 + digit_count(s.skip(1))
    }
}

/// The number of decimal digits.
pub open spec fn digits_value(s: Seq<char>) -> nat
    decreases s.len(),
{
    if s.len() == 0 {
        0
    } else {
        (digits_value(s.drop_last()) * 10 + (s.last() as u32 - '0' as u32)) as nat
    }
}

/// How many milliseconds a unit has. No unit is that of milliseconds.
pub open spec fn unit_ms(s: Seq<char>) -> Option<nat> {
    if s == Seq::<char>::empty() || s == seq!['m', 's'] {
        Some(1)
    } else if s == seq!['s'] {
        Some(1000)
    } else if s == seq!['m'] {
        Some(60000)
    } else if s == seq!['h'] {
        Some(3600000)
    } else if s == seq!['d'] {
        Some(86400000)
    } else if s == seq!['w'] {
        Some(604800000)
    } else if s == seq!['y'] {
        Some(31536000000)
    } else {
        None
    }
}

/// The milliseconds of a duration: a number and a unit. It has to be a timestamp, too.
pub open spec fn duration_of(s: Seq<char>) -> Option<u64> {
    let n = digit_count(s);
    match unit_ms(s.skip(n)) {
        Some(unit) => if n > 0 && digits_value(s.take(n)) * unit <= i64::MAX {
            Some((digits_value(s.take(n)) * unit) as u64)
        } else {
            None
        },
        None => None,
    }
}

/// The milliseconds of a duration in a policy: here `m` is for milliseconds and `M` for minutes.
pub open spec fn policy_duration(s: Seq<char>) -> Option<u64> {
    if s.len() == 0 {
        None
    } else if s.last() == 'm' {
        duration_of(s.drop_last() + seq!['m', 's'])
    } else if s.last() == 'M' {
        duration_of(s.drop_last() + seq!['m'])
    } else {
        duration_of(s)
    }
}

/// The number of digits and the units of a text, read from its first character.
fn read_unit(s: &[char]) -> (r: Option<u64>)
    ensures
        match unit_ms(s@) {
            Some(u) => r == Some(u as u64) && u <= 31536000000,
            None => r is None,
        },
{
    if s.len() == 0 {
        assert(s@ =~= Seq::<char>::empty());
        return Some(1);
    }
    if s.len() == 2 {
        if s[0] == 'm' && s[1] == 's' {
            assert(s@ =~= seq!['m', 's']);
            return Some(1);
        }
    }
    if s.len() == 1 {
        assert(s@ =~= seq![s@[0]]);
        if s[0] == 's' {
            return Some(1000);
        }
        if s[0] == 'm' {
            return Some(60000);
        }
        if s[0] == 'h' {
            return Some(3600000);
        }
        if s[0] == 'd' {
            return Some(86400000);
        }
        if s[0] == 'w' {
            return Some(604800000);
        }
        if s[0] == 'y' {
            return Some(31536000000);
        }
    }
    proof {
        if unit_ms(s@) is Some {
            if s@.len() == 1 {
                assert(seq!['s'][0] == 's' && seq!['m'][0] == 'm' && seq!['h'][0] == 'h');
                assert(seq!['d'][0] == 'd' && seq!['w'][0] == 'w' && seq!['y'][0] == 'y');
            }
            if s@.len() == 2 {
                assert(seq!['m', 's'][0] == 'm' && seq!['m', 's'][1] == 's');
            }
        }
    }
    None
}

pub proof fn lemma_digit_count(s: Seq<char>, n: int)
    requires
        0 <= n <= s.len(),
        forall|i: int| 0 <= i < n ==> is_digit(#[trigger] s[i]),
        n < s.len() ==> !is_digit(s[n]),
    ensures
        digit_count(s) == n,
    decreases s.len(),
{
    if s.len() > 0 && n > 0 {
        assert(is_digit(s[0]));
        let more = s.skip(1);
        assert forall|i: int| 0 <= i < n - 1 implies is_digit(#[trigger] more[i]) by {
            assert(more[i] == s[i + 1]);
        }
        lemma_digit_count(more, n - 1);
    }
}

/// The milliseconds of a duration.
pub fn parse_positive_duration_value(s: &[char]) -> (r: Option<u64>)
    ensures
        r == duration_of(s@),
{
    let mut n: usize = 0;
    let mut value: u128 = 0;
    let mut over: bool = false;
    assert(s@.take(0) =~= Seq::<char>::empty());
    while n < s.len() && '0' <= s[n] && s[n] <= '9'
        invariant
            n <= s@.len(),
            forall|i: int| 0 <= i < n ==> is_digit(#[trigger] s@[i]),
            !over ==> value == digits_value(s@.take(n as int)) && value <= i64::MAX,
            over ==> digits_value(s@.take(n as int)) > i64::MAX,
        decreases s.len() - n,
    {
        assert(s@.take(n + 1).drop_last() =~= s@.take(n as int));
        assert(s@.take(n + 1).last() == s@[n as int]);
        let d: u128 = (s[n] as u32 - 48) as u128;
        if !over {
            value = value * 10 + d;
            if value > i64::MAX as u128 {
                over = true;
            }
        }
        n += 1;
    }
    proof {
        lemma_digit_count(s@, n as int);
    }
    let unit: u64 = match read_unit(vstd::slice::slice_subrange(s, n, s.len())) {
        Some(u) => u,
        None => {
            assert(s@.subrange(n as int, s@.len() as int) =~= s@.skip(n as int));
            return None;
        },
    };
    assert(s@.subrange(n as int, s@.len() as int) =~= s@.skip(n as int));
    if n == 0 {
        return None;
    }
    let ghost v = digits_value(s@.take(n as int));
    if over {
        assert(v * unit >= v) by (nonlinear_arith)
            requires
                unit >= 1,
                v >= 0,
        ;
        return None;
    }
    assert(value * unit <= i64::MAX * 31536000000) by (nonlinear_arith)
        requires
            value <= i64::MAX,
            unit <= 31536000000,
    ;
    let total: u128 = value * unit as u128;
    if total <= i64::MAX as u128 {
        Some(total as u64)
    } else {
        None
    }
}

/// The milliseconds of a duration in a policy.
pub fn parse_duration(val: &[char]) -> (r: Option<u64>)
    ensures
        r == policy_duration(val@),
{
    let n: usize = val.len();
    if n == 0 {
        return None;
    }
    let last: char = val[n - 1];
    if last != 'm' && last != 'M' {
        return parse_positive_duration_value(val);
    }
    let mut out: Vec<char> = Vec::new();
    push_chars(&mut out, vstd::slice::slice_subrange(val, 0, n - 1));
    out.push('m');
    if last == 'm' {
        out.push('s');
        assert(out@ =~= val@.drop_last() + seq!['m', 's']);
    } else {
        assert(out@ =~= val@.drop_last() + seq!['m']);
    }
    parse_positive_duration_value(out.as_slice())
}

/// The aggregation with a name.
pub open spec fn aggregation_named(s: Seq<char>, a: AggregationType) -> bool {
    aggregation_name(a) == small_text(s)
}

/// What a policy of a configuration is, given the aggregation of its first part, if there is one.
pub open spec fn policy_of(parts: Seq<Seq<char>>, kind: Option<AggregationType>) -> Result<
    CompactionPolicy,
    PolicyError,
> {
    if parts.len() < 3 || parts.len() > 4 {
        Err(PolicyError::InvalidFormat)
    } else if kind is None {
        Err(PolicyError::UnknownAggregation)
    } else if policy_duration(parts[1]) is None {
        Err(PolicyError::InvalidBucketDuration)
    } else if policy_duration(parts[1]) == Some(0u64) {
        Err(PolicyError::ZeroBucketDuration)
    } else if policy_duration(parts[2]) is None {
        Err(PolicyError::InvalidRetention)
    } else if parts.len() == 4 && policy_duration(parts[3]) is None {
        Err(PolicyError::InvalidAlignment)
    } else {
        Ok(
            CompactionPolicy {
                aggregator: kind->0,
                bucket_duration_ms: policy_duration(parts[1])->0,
                retention_ms: policy_duration(parts[2])->0,
                bucket_alignment: if parts.len() == 4 {
                    policy_duration(parts[3])->0 as i64
                } else {
                    0
                },
            },
        )
    }
}

/// That a policy was read as its text says.
pub open spec fn is_policy_read(s: Seq<char>, r: Result<CompactionPolicy, PolicyError>) -> bool {
    let parts = split_text(s, ':');
    if exists|a: AggregationType| aggregation_named(parts[0], a) {
        exists|a: AggregationType|
            #[trigger] aggregation_named(parts[0], a) && r == policy_of(parts, Some(a))
    } else {
        r == policy_of(parts, None)
    }
}

/// Reads a policy without a filter.
pub fn parse_compaction_policy(val: &[char]) -> (r: Result<CompactionPolicy, PolicyError>)
    ensures
        is_policy_read(val@, r),
        r is Ok ==> r->Ok_0.bucket_duration_ms > 0 && r->Ok_0.bucket_alignment >= 0,
{
    let args = split_chars(val, ':');
    let ghost parts = split_text(val@, ':');
    proof {
        assert forall|i: int| 0 <= i < args@.len() implies (#[trigger] args@[i])@ == parts[i] by {
            assert(parts_view(args@)[i] == args@[i]@);
        }
        assert(parts.len() == args@.len());
    }
    let kind: Option<AggregationType> = AggregationType::from_name(args[0].as_slice());
    proof {
        match kind {
            Some(a) => {
                assert(aggregation_named(parts[0], a));
            },
            None => {
                assert forall|a: AggregationType| !aggregation_named(parts[0], a) by {
                    assert(aggregation_name(a) != small_text(args@[0]@));
                }
            },
        }
    }
    if args.len() < 3 || args.len() > 4 {
        return Err(PolicyError::InvalidFormat);
    }
    let aggregator: AggregationType = match kind {
        Some(a) => a,
        None => {
            return Err(PolicyError::UnknownAggregation);
        },
    };
    let bucket_duration_ms: u64 = match parse_duration(args[1].as_slice()) {
        Some(d) => d,
        None => {
            return Err(PolicyError::InvalidBucketDuration);
        },
    };
    if bucket_duration_ms == 0 {
        return Err(PolicyError::ZeroBucketDuration);
    }
    let retention_ms: u64 = match parse_duration(args[2].as_slice()) {
        Some(d) => d,
        None => {
            return Err(PolicyError::InvalidRetention);
        },
    };
    let bucket_alignment: Timestamp = if args.len() == 4 {
        match parse_duration(args[3].as_slice()) {
            Some(d) => d as i64,
            None => {
                return Err(PolicyError::InvalidAlignment);
            },
        }
    } else {
        0
    };
    proof {
        lemma_duration_bound(parts[1]);
        lemma_duration_bound(parts[2]);
        if args@.len() == 4 {
            lemma_duration_bound(parts[3]);
        }
    }
    Ok(CompactionPolicy { aggregator, bucket_duration_ms, retention_ms, bucket_alignment })
}

proof fn lemma_duration_bound(s: Seq<char>)
    ensures
        policy_duration(s) matches Some(d) ==> d <= i64::MAX,
{
}

pub proof fn lemma_split_plain(s: Seq<char>, sep: char)
    requires
        forall|i: int| 0 <= i < s.len() ==> #[trigger] s[i] != sep,
    ensures
        split_text(s, sep) == seq![s],
    decreases s.len(),
{
    if s.len() > 0 {
        let less = s.drop_last();
        assert forall|i: int| 0 <= i < less.len() implies #[trigger] less[i] != sep by {
            assert(less[i] == s[i]);
        }
        lemma_split_plain(less, sep);
        assert(s[s.len() - 1] != sep);
        assert(less.push(s.last()) =~= s);
        assert(split_text(s, sep) =~= seq![s]);
    } else {
        assert(s =~= Seq::<char>::empty());
    }
}

/// A part behind a separator is the last part.
pub proof fn lemma_split_behind(a: Seq<char>, sep: char, part: Seq<char>)
    requires
        forall|i: int| 0 <= i < part.len() ==> #[trigger] part[i] != sep,
    ensures
        split_text(a + seq![sep] + part, sep) == split_text(a, sep).push(part),
    decreases part.len(),
{
    let s = a + seq![sep] + part;
    if part.len() == 0 {
        assert(s.drop_last() =~= a);
        assert(s.last() == sep);
        assert(part =~= Seq::<char>::empty());
    } else {
        let less = part.drop_last();
        assert forall|i: int| 0 <= i < less.len() implies #[trigger] less[i] != sep by {
            assert(less[i] == part[i]);
        }
        lemma_split_behind(a, sep, less);
        assert(s.drop_last() =~= a + seq![sep] + less);
        assert(s.last() == part[part.len() - 1]);
        let before = split_text(a, sep).push(less);
        assert(before.last() == less);
        assert(less.push(part.last()) =~= part);
        assert(before.update(before.len() - 1, part) =~= split_text(a, sep).push(part));
    }
}

/// The digits of a number stand for it.
pub proof fn lemma_decimal(n: nat)
    ensures
        decimal(n).len() > 0,
        forall|i: int| 0 <= i < decimal(n).len() ==> is_digit(#[trigger] decimal(n)[i]),
        digits_value(decimal(n)) == n,
    decreases n,
{
    if n < 10 {
        let s = decimal(n);
        assert(s.drop_last() =~= Seq::<char>::empty());
        assert(digits_value(Seq::<char>::empty()) == 0);
    } else {
        lemma_decimal(n / 10);
        let s = decimal(n);
        assert(s.drop_last() =~= decimal(n / 10));
        assert forall|i: int| 0 <= i < s.len() implies is_digit(#[trigger] s[i]) by {
            if i < s.len() - 1 {
                assert(s[i] == decimal(n / 10)[i]);
            }
        }
    }
}

/// A number without a unit is read as that many milliseconds.
proof fn lemma_duration_plain(n: nat)
    requires
        n <= i64::MAX,
    ensures
        policy_duration(decimal(n)) == Some(n as u64),
{
    lemma_decimal(n);
    let s = decimal(n);
    lemma_digit_count(s, s.len() as int);
    assert(s.skip(s.len() as int) =~= Seq::<char>::empty());
    assert(s.take(s.len() as int) =~= s);
    assert(is_digit(s[s.len() - 1]));
}

/// The name of an aggregation is small letters and points.
proof fn lemma_name_plain(a: AggregationType)
    ensures
        forall|i: int|
            0 <= i < aggregation_name(a).len() ==> 'a' <= (#[trigger] aggregation_name(a)[i])
                <= 'z' || aggregation_name(a)[i] == '.',
{
    reveal_strlit("avg");
    reveal_strlit("count");
    reveal_strlit("first");
    reveal_strlit("last");
    reveal_strlit("max");
    reveal_strlit("min");
    reveal_strlit("range");
    reveal_strlit("rate");
    reveal_strlit("std.p");
    reveal_strlit("std.s");
    reveal_strlit("sum");
    reveal_strlit("var.p");
    reveal_strlit("var.s");
}

/// No two aggregations have the same name.
proof fn lemma_names_differ(a: AggregationType, b: AggregationType)
    requires
        aggregation_name(a) == aggregation_name(b),
    ensures
        a == b,
{
    reveal_strlit("avg");
    reveal_strlit("count");
    reveal_strlit("first");
    reveal_strlit("last");
    reveal_strlit("max");
    reveal_strlit("min");
    reveal_strlit("range");
    reveal_strlit("rate");
    reveal_strlit("std.p");
    reveal_strlit("std.s");
    reveal_strlit("sum");
    reveal_strlit("var.p");
    reveal_strlit("var.s");
    let (x, y) = (aggregation_name(a), aggregation_name(b));
    assert(x.len() == y.len());
    assert(x[0] == y[0] && x[1] == y[1] && x[2] == y[2]);
    if x.len() > 4 {
        assert(x[3] == y[3] && x[4] == y[4]);
    }
}

/// A policy is read back from what it is written as.
pub proof fn law_policy_text_round_trip(p: CompactionPolicy)
    requires
        0 < p.bucket_duration_ms <= i64::MAX,
        p.retention_ms <= i64::MAX,
        p.bucket_alignment >= 0,
    ensures
        forall|r: Result<CompactionPolicy, PolicyError>| #[trigger]
            is_policy_read(policy_text(p), r) <==> r == Ok::<CompactionPolicy, PolicyError>(p),
{
    let name = aggregation_name(p.aggregator);
    let bucket = decimal(p.bucket_duration_ms as nat);
    let retention = decimal(p.retention_ms as nat);
    let alignment = decimal(p.bucket_alignment as nat);
    lemma_name_plain(p.aggregator);
    lemma_decimal(p.bucket_duration_ms as nat);
    lemma_decimal(p.retention_ms as nat);
    lemma_decimal(p.bucket_alignment as nat);
    lemma_duration_plain(p.bucket_duration_ms as nat);
    lemma_duration_plain(p.retention_ms as nat);
    lemma_duration_plain(p.bucket_alignment as nat);
    lemma_split_plain(name, ':');
    lemma_split_behind(name, ':', bucket);
    let two = name + seq![':'] + bucket;
    lemma_split_behind(two, ':', retention);
    let three = two + seq![':'] + retention;
    lemma_split_behind(three, ':', alignment);
    let parts = split_text(policy_text(p), ':');
    if p.bucket_alignment > 0 {
        assert(policy_text(p) =~= three + seq![':'] + alignment);
    } else {
        assert(policy_text(p) =~= three);
    }
    assert(parts[0] == name);
    assert(small_text(name) =~= name);
    assert(aggregation_named(parts[0], p.aggregator));
    assert(policy_of(parts, Some(p.aggregator)) == Ok::<CompactionPolicy, PolicyError>(p));
    assert forall|r: Result<CompactionPolicy, PolicyError>| #[trigger]
        is_policy_read(policy_text(p), r) <==> r == Ok::<CompactionPolicy, PolicyError>(p) by {
        if is_policy_read(policy_text(p), r) {
            let a = choose|a: AggregationType|
                #[trigger] aggregation_named(parts[0], a) && r == policy_of(parts, Some(a));
            lemma_names_differ(a, p.aggregator);
        }
    }
}

} // verus!
