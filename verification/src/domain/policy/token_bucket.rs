//! Allows bursts up to a capacity and a sustained rate beyond them.

use vstd::prelude::*;

use crate::domain::policy::{FieldError, PolicyDecision, PolicyError, RateLimitPolicy};
use crate::domain::time;
use crate::domain::time::{Duration, Instant};

verus! {

/// Numbers of tokens, which need not be whole.
///
/// The arithmetic is left to the implementation: a bucket only decides when to
/// apply it.
pub trait TokenAmount: Copy {
    /// Whether a capacity or a rate of this amount is zero or negative.
    fn is_unusable(self) -> bool;

    /// The amount after adding what has accumulated over a span of time at a
    /// rate per second, at most the capacity.
    fn credited(self, elapsed: Duration, refill_rate: Self, capacity: Self) -> Self;

    /// The amount left after taking one token, if there is one to take.
    fn spent(self) -> Option<Self>;
}

/// The state of a [`TokenBucketPolicy`].
pub struct BucketModel<A> {
    /// Most tokens that the bucket holds.
    pub capacity: A,
    /// Tokens added per second.
    pub refill_rate: A,
    /// Tokens in the bucket.
    pub tokens: A,
    /// When the bucket was last refilled.
    pub last_refill: Option<nat>,
}

/// A bucket of tokens that refills at a constant rate.
///
/// Each allowed event takes one token. Events are suppressed while there is
/// none to take.
#[derive(Debug, Clone, PartialEq)]
pub struct TokenBucketPolicy<A> {
    capacity: A,
    refill_rate: A,
    tokens: A,
    last_refill: Option<Instant>,
}

/// A point in time as a number.
pub open spec fn optional_instant(t: Option<Instant>) -> Option<nat> {
    match t {
        Some(t) => Some(t@),
        None => None,
    }
}

impl<A: TokenAmount> TokenBucketPolicy<A> {
    /// A full bucket.
    ///
    /// Fails with `ZeroCapacity` if the capacity is unusable, else with
    /// `ZeroRefillRate` if the rate is.
    pub fn new(capacity: A, refill_rate: A) -> (r: Result<TokenBucketPolicy<A>, PolicyError>)
        ensures
            r matches Err(PolicyError::ZeroCapacity) ==> call_ensures(
                A::is_unusable,
                (capacity,),
                true,
            ),
            r matches Err(PolicyError::ZeroRefillRate) ==> call_ensures(
                A::is_unusable,
                (capacity,),
                false,
            ) && call_ensures(A::is_unusable, (refill_rate,), true),
            r matches Err(e) ==> e == PolicyError::ZeroCapacity || e == PolicyError::ZeroRefillRate,
            r matches Ok(p) ==> call_ensures(A::is_unusable, (capacity,), false) && call_ensures(
                A::is_unusable,
                (refill_rate,),
                false,
            ) && p.model() == (BucketModel {
                capacity,
                refill_rate,
                tokens: capacity,
                last_refill: None,
            }),
    {
        if capacity.is_unusable() {
            return Err(PolicyError::ZeroCapacity);
        }
        if refill_rate.is_unusable() {
            return Err(PolicyError::ZeroRefillRate);
        }
        Ok(TokenBucketPolicy { capacity, refill_rate, tokens: capacity, last_refill: None })
    }

    /// What may be in the bucket once it has been refilled.
    ///
    /// Nothing is added by the first refill, nor where time has gone backwards.
    pub open spec fn refilled_in(m: BucketModel<A>, now: nat, tokens: A) -> bool {
        match m.last_refill {
            Some(last) if last <= now => exists|span: Duration|
                #![trigger span@]
                span@ == now - last && call_ensures(
                    A::credited,
                    (m.tokens, span, m.refill_rate, m.capacity),
                    tokens,
                ),
            _ => tokens == m.tokens,
        }
    }

    /// Adds the tokens for the time since the last refill.
    ///
    /// Where time has gone backwards, only the time of the refill is set.
    fn refill(&mut self, now: Instant)
        ensures
            Self::refilled_in(old(self).model(), now@, final(self).model().tokens),
            final(self).model() == (BucketModel {
                tokens: final(self).model().tokens,
                last_refill: Some(now@),
                ..old(self).model()
            }),
    {
        if let Some(last) = self.last_refill {
            if now.is_before(last) {
                self.last_refill = Some(now);
                return;
            }
            let elapsed = now.duration_since(last);
            self.tokens = self.tokens.credited(elapsed, self.refill_rate, self.capacity);
        }
        self.last_refill = Some(now);
    }

    /// The values by which a bucket is stored.
    ///
    /// The time of the last refill is not among them, only whether there is one.
    pub fn to_parts(&self) -> (r: BucketParts<A>)
        ensures
            r == bucket_parts(self.model()),
    {
        BucketParts {
            capacity: self.capacity,
            refill_rate: self.refill_rate,
            tokens: self.tokens,
            has_last_refill: self.last_refill.is_some(),
        }
    }
}

impl<A: TokenAmount> RateLimitPolicy for TokenBucketPolicy<A> {
    type Model = BucketModel<A>;

    closed spec fn model(&self) -> BucketModel<A> {
        BucketModel {
            capacity: self.capacity,
            refill_rate: self.refill_rate,
            tokens: self.tokens,
            last_refill: optional_instant(self.last_refill),
        }
    }

    open spec fn has_room_in(m: BucketModel<A>) -> bool {
        true
    }

    open spec fn steps(
        before: BucketModel<A>,
        at: nat,
        decision: PolicyDecision,
        after: BucketModel<A>,
    ) -> bool {
        &&& after == (BucketModel { tokens: after.tokens, last_refill: Some(at), ..before })
        &&& exists|refilled: A|
            #![trigger Self::refilled_in(before, at, refilled)]
            Self::refilled_in(before, at, refilled) && match decision {
                PolicyDecision::Allow => call_ensures(A::spent, (refilled,), Some(after.tokens)),
                PolicyDecision::Suppress => call_ensures(A::spent, (refilled,), None)
                    && after.tokens == refilled,
            }
    }

    open spec fn state_cleared(m: BucketModel<A>) -> BucketModel<A> {
        BucketModel { tokens: m.capacity, last_refill: None, ..m }
    }

    open spec fn allow_ends_episode_in(m: BucketModel<A>) -> bool {
        false
    }

    fn has_room(&self) -> (r: bool) {
        true
    }

    fn register_event(&mut self, timestamp: Instant) -> (r: PolicyDecision) {
        self.refill(timestamp);
        assert(Self::refilled_in(old(self).model(), timestamp@, self.tokens));
        match self.tokens.spent() {
            Some(rest) => {
                self.tokens = rest;
                PolicyDecision::Allow
            },
            None => PolicyDecision::Suppress,
        }
    }

    fn reset(&mut self) {
        self.tokens = self.capacity;
        self.last_refill = None;
    }

    fn allow_ends_episode(&self) -> (r: bool) {
        false
    }

    fn duplicate(&self) -> (r: TokenBucketPolicy<A>) {
        TokenBucketPolicy {
            capacity: self.capacity,
            refill_rate: self.refill_rate,
            tokens: self.tokens,
            last_refill: self.last_refill,
        }
    }
}

/// The values by which a bucket is stored.
#[derive(Debug, Clone, Copy, PartialEq)]
pub struct BucketParts<A> {
    /// Most tokens that the bucket holds.
    pub capacity: A,
    /// Tokens added per second.
    pub refill_rate: A,
    /// Tokens in the bucket.
    pub tokens: A,
    /// Whether the bucket has been refilled before.
    pub has_last_refill: bool,
}

/// The parts of a bucket in a state.
pub open spec fn bucket_parts<A>(m: BucketModel<A>) -> BucketParts<A> {
    BucketParts {
        capacity: m.capacity,
        refill_rate: m.refill_rate,
        tokens: m.tokens,
        has_last_refill: m.last_refill is Some,
    }
}

/// The fields of a stored bucket.
#[derive(Debug, Clone, Copy, PartialEq, Eq, Structural)]
pub enum BucketField {
    /// Most tokens that the bucket holds.
    Capacity,
    /// Tokens added per second.
    RefillRate,
    /// Tokens in the bucket.
    Tokens,
    /// Whether the bucket has been refilled before.
    HasLastRefill,
}

impl BucketField {
    /// The name under which the field is stored.
    pub fn name(&self) -> (r: &'static str)
        ensures
            r@ == match *self {
                BucketField::Capacity => "capacity"@,
                BucketField::RefillRate => "refill_rate"@,
                BucketField::Tokens => "tokens"@,
                BucketField::HasLastRefill => "has_last_refill"@,
            },
    {
        match self {
            BucketField::Capacity => "capacity",
            BucketField::RefillRate => "refill_rate",
            BucketField::Tokens => "tokens",
            BucketField::HasLastRefill => "has_last_refill",
        }
    }
}

/// A field of a stored bucket with its value.
#[derive(Debug, Clone, Copy, PartialEq)]
pub enum BucketValue<A> {
    /// Most tokens that the bucket holds.
    Capacity(A),
    /// Tokens added per second.
    RefillRate(A),
    /// Tokens in the bucket.
    Tokens(A),
    /// Whether the bucket has been refilled before.
    HasLastRefill(bool),
}

/// A stored bucket of which some fields have been read.
#[derive(Debug, Clone, Copy, PartialEq)]
pub struct BucketAssembly<A> {
    /// Most tokens that the bucket holds.
    pub capacity: Option<A>,
    /// Tokens added per second.
    pub refill_rate: Option<A>,
    /// Tokens in the bucket.
    pub tokens: Option<A>,
    /// Whether the bucket has been refilled before.
    pub has_last_refill: Option<bool>,
}

/// An assembly once one more value has been read.
pub open spec fn bucket_with<A>(a: BucketAssembly<A>, v: BucketValue<A>) -> BucketAssembly<A> {
    match v {
        BucketValue::Capacity(x) => BucketAssembly { capacity: Some(x), ..a },
        BucketValue::RefillRate(x) => BucketAssembly { refill_rate: Some(x), ..a },
        BucketValue::Tokens(x) => BucketAssembly { tokens: Some(x), ..a },
        BucketValue::HasLastRefill(x) => BucketAssembly { has_last_refill: Some(x), ..a },
    }
}

/// The bucket that an assembly amounts to, or the first field that it lacks.
pub open spec fn bucket_finished<A>(a: BucketAssembly<A>) -> Result<
    BucketModel<A>,
    FieldError<BucketField>,
> {
    match (a.capacity, a.refill_rate, a.tokens) {
        (None, _, _) => Err(FieldError::Missing(BucketField::Capacity)),
        (_, None, _) => Err(FieldError::Missing(BucketField::RefillRate)),
        (_, _, None) => Err(FieldError::Missing(BucketField::Tokens)),
        (Some(capacity), Some(refill_rate), Some(tokens)) => Ok(
            BucketModel { capacity, refill_rate, tokens, last_refill: None },
        ),
    }
}

impl<A: TokenAmount> BucketAssembly<A> {
    /// An assembly without any field.
    pub fn new() -> (r: BucketAssembly<A>)
        ensures
            r == (BucketAssembly::<A> {
                capacity: None,
                refill_rate: None,
                tokens: None,
                has_last_refill: None,
            }),
    {
        BucketAssembly { capacity: None, refill_rate: None, tokens: None, has_last_refill: None }
    }

    /// Whether a field may come next.
    ///
    /// Fails with `Duplicate` if it has been read before, except for
    /// `HasLastRefill`, of which the last value counts.
    pub fn expect(&self, field: BucketField) -> (r: Result<(), FieldError<BucketField>>)
        ensures
            r is Err <==> match field {
                BucketField::Capacity => self.capacity is Some,
                BucketField::RefillRate => self.refill_rate is Some,
                BucketField::Tokens => self.tokens is Some,
                BucketField::HasLastRefill => false,
            },
            r matches Err(e) ==> e == FieldError::Duplicate(field),
    {
        let seen = match field {
            BucketField::Capacity => self.capacity.is_some(),
            BucketField::RefillRate => self.refill_rate.is_some(),
            BucketField::Tokens => self.tokens.is_some(),
            BucketField::HasLastRefill => false,
        };
        if seen {
            Err(FieldError::Duplicate(field))
        } else {
            Ok(())
        }
    }

    /// Adds a value that has been read.
    pub fn put(&mut self, value: BucketValue<A>)
        ensures
            *final(self) == bucket_with(*old(self), value),
    {
        match value {
            BucketValue::Capacity(x) => {
                self.capacity = Some(x);
            },
            BucketValue::RefillRate(x) => {
                self.refill_rate = Some(x);
            },
            BucketValue::Tokens(x) => {
                self.tokens = Some(x);
            },
            BucketValue::HasLastRefill(x) => {
                self.has_last_refill = Some(x);
            },
        }
    }

    /// The bucket that was stored, with no time of a last refill.
    ///
    /// Fails with `Missing` and the first of capacity, rate and tokens that has
    /// not been read. Whether there was a last refill makes no difference.
    pub fn finish(self) -> (r: Result<TokenBucketPolicy<A>, FieldError<BucketField>>)
        ensures
            r matches Ok(p) ==> bucket_finished(self) == Ok::<_, FieldError<BucketField>>(
                p.model(),
            ),
            r matches Err(e) ==> bucket_finished(self) == Err::<BucketModel<A>, _>(e),
    {
        let capacity = match self.capacity {
            Some(x) => x,
            None => {
                return Err(FieldError::Missing(BucketField::Capacity));
            },
        };
        let refill_rate = match self.refill_rate {
            Some(x) => x,
            None => {
                return Err(FieldError::Missing(BucketField::RefillRate));
            },
        };
        let tokens = match self.tokens {
            Some(x) => x,
            None => {
                return Err(FieldError::Missing(BucketField::Tokens));
            },
        };
        Ok(TokenBucketPolicy { capacity, refill_rate, tokens, last_refill: None })
    }
}

/// An assembly once all values of a list have been read.
pub open spec fn bucket_read<A>(values: Seq<BucketValue<A>>) -> BucketAssembly<A>
    decreases values.len(),
{
    if values.len() == 0 {
        BucketAssembly { capacity: None, refill_rate: None, tokens: None, has_last_refill: None }
    } else {
        bucket_with(bucket_read(values.drop_last()), values.last())
    }
}

/// The values of a stored bucket, in the order in which they are written.
pub open spec fn bucket_values<A>(p: BucketParts<A>) -> Seq<BucketValue<A>> {
    seq![
        BucketValue::Capacity(p.capacity),
        BucketValue::RefillRate(p.refill_rate),
        BucketValue::Tokens(p.tokens),
        BucketValue::HasLastRefill(p.has_last_refill),
    ]
}

/// A bucket that is stored and read back has the same capacity, rate and tokens,
/// and no last refill.
pub proof fn lemma_stored_bucket_comes_back<A>(m: BucketModel<A>)
    ensures
        bucket_finished(bucket_read(bucket_values(bucket_parts(m)))) == Ok::<
            _,
            FieldError<BucketField>,
        >(BucketModel { last_refill: None, ..m }),
{
    reveal_with_fuel(bucket_read, 5);
    let all = bucket_values(bucket_parts(m));
    assert(all.drop_last() =~= all.take(3));
    assert(all.take(3).drop_last() =~= all.take(2));
    assert(all.take(2).drop_last() =~= all.take(1));
    assert(all.take(1).drop_last() =~= all.take(0));
}

/// The first event after a bucket was made, cleared or read back adds nothing to
/// it, and neither does an event before the last refill: such an event takes one of
/// the tokens that were there, or finds none to take.
pub proof fn lemma_refill_needs_elapsed_time<A: TokenAmount>(
    before: BucketModel<A>,
    at: nat,
    decision: PolicyDecision,
    after: BucketModel<A>,
)
    requires
        TokenBucketPolicy::<A>::steps(before, at, decision, after),
        before.last_refill matches Some(last) ==> at < last,
    ensures
        after == (BucketModel { tokens: after.tokens, last_refill: Some(at), ..before }),
        decision is Allow ==> call_ensures(A::spent, (before.tokens,), Some(after.tokens)),
        decision is Suppress ==> after.tokens == before.tokens && call_ensures(
            A::spent,
            (before.tokens,),
            None,
        ),
{
}

/// Whether arithmetic on tokens gives the same results every time.
pub open spec fn token_arithmetic_is_determined<A: TokenAmount>() -> bool {
    &&& forall|t: A, d: Duration, rate: A, capacity: A, x: A, y: A|
        #[trigger] call_ensures(A::credited, (t, d, rate, capacity), x)
            && #[trigger] call_ensures(A::credited, (t, d, rate, capacity), y) ==> x == y
    &&& forall|t: A, x: Option<A>, y: Option<A>|
        #[trigger] call_ensures(A::spent, (t,), x) && #[trigger] call_ensures(A::spent, (t,), y)
            ==> x == y
}

/// Where arithmetic on tokens gives the same results every time, so does a bucket.
pub proof fn lemma_bucket_steps_are_determined<A: TokenAmount>(
    before: BucketModel<A>,
    at: nat,
    d1: PolicyDecision,
    after1: BucketModel<A>,
    d2: PolicyDecision,
    after2: BucketModel<A>,
)
    requires
        token_arithmetic_is_determined::<A>(),
        TokenBucketPolicy::<A>::steps(before, at, d1, after1),
        TokenBucketPolicy::<A>::steps(before, at, d2, after2),
    ensures
        d1 == d2,
        after1 == after2,
{
    let x = choose|x: A|
        #![trigger TokenBucketPolicy::<A>::refilled_in(before, at, x)]
        TokenBucketPolicy::<A>::refilled_in(before, at, x) && match d1 {
            PolicyDecision::Allow => call_ensures(A::spent, (x,), Some(after1.tokens)),
            PolicyDecision::Suppress => call_ensures(A::spent, (x,), None) && after1.tokens == x,
        };
    let y = choose|y: A|
        #![trigger TokenBucketPolicy::<A>::refilled_in(before, at, y)]
        TokenBucketPolicy::<A>::refilled_in(before, at, y) && match d2 {
            PolicyDecision::Allow => call_ensures(A::spent, (y,), Some(after2.tokens)),
            PolicyDecision::Suppress => call_ensures(A::spent, (y,), None) && after2.tokens == y,
        };
    lemma_refill_is_determined(before, at, x, y);
}

proof fn lemma_refill_is_determined<A: TokenAmount>(m: BucketModel<A>, now: nat, x: A, y: A)
    requires
        token_arithmetic_is_determined::<A>(),
        TokenBucketPolicy::<A>::refilled_in(m, now, x),
        TokenBucketPolicy::<A>::refilled_in(m, now, y),
    ensures
        x == y,
{
    if let Some(last) = m.last_refill {
        if last <= now {
            let a = choose|a: Duration|
                #![trigger a@]
                a@ == now - last && call_ensures(
                    A::credited,
                    (m.tokens, a, m.refill_rate, m.capacity),
                    x,
                );
            let b = choose|b: Duration|
                #![trigger b@]
                b@ == now - last && call_ensures(
                    A::credited,
                    (m.tokens, b, m.refill_rate, m.capacity),
                    y,
                );
            time::lemma_duration_determined_by_view(a, b);
        }
    }
}

/// An event credits the bucket with all the time since the last refill, and then takes
/// one token if there is one to take. If there is none, nothing is taken: what has been
/// credited stays in the bucket. Capacity and rate never change.
pub proof fn lemma_event_credits_elapsed_time<A: TokenAmount>(
    before: BucketModel<A>,
    last: nat,
    at: nat,
    decision: PolicyDecision,
    after: BucketModel<A>,
)
    requires
        TokenBucketPolicy::<A>::steps(before, at, decision, after),
        before.last_refill == Some(last),
        last <= at,
    ensures
        after.capacity == before.capacity,
        after.refill_rate == before.refill_rate,
        after.last_refill == Some(at),
        decision is Suppress ==> call_ensures(A::spent, (after.tokens,), None) && exists|
            span: Duration,
        |
            #![trigger span@]
            span@ == at - last && call_ensures(
                A::credited,
                (before.tokens, span, before.refill_rate, before.capacity),
                after.tokens,
            ),
        decision is Allow ==> exists|span: Duration, held: A|
            #![trigger call_ensures(A::credited, (before.tokens, span, before.refill_rate, before.capacity), held)]
            span@ == at - last && call_ensures(
                A::credited,
                (before.tokens, span, before.refill_rate, before.capacity),
                held,
            ) && call_ensures(A::spent, (held,), Some(after.tokens)),
{
}

/// Whether crediting and taking tokens are these functions.
pub open spec fn token_arithmetic_is<A: TokenAmount>(
    credit: spec_fn(A, nat, A, A) -> A,
    spend: spec_fn(A) -> Option<A>,
) -> bool {
    &&& forall|t: A, span: Duration, rate: A, capacity: A, x: A|
        #[trigger] call_ensures(A::credited, (t, span, rate, capacity), x) ==> x == credit(
            t,
            span@,
            rate,
            capacity,
        )
    &&& forall|t: A, x: Option<A>| #[trigger]
        call_ensures(A::spent, (t,), x) ==> x == spend(t)
}

/// Whether crediting two adjoining spans in turn is the same as crediting their sum.
#[verifier::opaque]
pub open spec fn adjoining_spans_add_up<A>(credit: spec_fn(A, nat, A, A) -> A) -> bool {
    forall|t: A, a: nat, b: nat, rate: A, capacity: A|
        #[trigger] credit(credit(t, a, rate, capacity), b, rate, capacity) == credit(
            t,
            a + b,
            rate,
            capacity,
        )
}

/// Two adjoining spans credit what the whole span does.
pub proof fn lemma_adjoining_spans_add_up<A>(
    credit: spec_fn(A, nat, A, A) -> A,
    m: BucketModel<A>,
    from: nat,
    between: nat,
    to: nat,
)
    requires
        adjoining_spans_add_up(credit),
        from <= between <= to,
    ensures
        credit(
            credit(m.tokens, (between - from) as nat, m.refill_rate, m.capacity),
            (to - between) as nat,
            m.refill_rate,
            m.capacity,
        ) == credit(m.tokens, (to - from) as nat, m.refill_rate, m.capacity),
{
    reveal(adjoining_spans_add_up);
    assert((between - from) as nat + (to - between) as nat == (to - from) as nat);
}

/// An event passes if and only if there is a token to take once the bucket has been
/// credited with the time since the last refill.
pub proof fn lemma_event_passes_if_there_is_a_token<A: TokenAmount>(
    credit: spec_fn(A, nat, A, A) -> A,
    spend: spec_fn(A) -> Option<A>,
    before: BucketModel<A>,
    last: nat,
    at: nat,
    decision: PolicyDecision,
    after: BucketModel<A>,
)
    requires
        token_arithmetic_is(credit, spend),
        TokenBucketPolicy::<A>::steps(before, at, decision, after),
        before.last_refill == Some(last),
        last <= at,
    ensures
        ({
            let held = credit(
                before.tokens,
                (at - last) as nat,
                before.refill_rate,
                before.capacity,
            );
            &&& decision is Allow <==> spend(held) is Some
            &&& after == (BucketModel {
                tokens: match spend(held) {
                    Some(rest) => rest,
                    None => held,
                },
                last_refill: Some(at),
                ..before
            })
        }),
{
}

/// Suppressed events leave no trace: where crediting two adjoining spans in turn is the
/// same as crediting their sum, and while time does not go backwards, an event is decided
/// about, and leaves the bucket, as if the suppressed events before it had not come.
pub proof fn lemma_suppressed_events_leave_no_trace<A: TokenAmount>(
    credit: spec_fn(A, nat, A, A) -> A,
    spend: spec_fn(A) -> Option<A>,
    states: Seq<BucketModel<A>>,
    times: Seq<nat>,
    last: nat,
    at: nat,
    decision: PolicyDecision,
    after: BucketModel<A>,
    plain_decision: PolicyDecision,
    plain_after: BucketModel<A>,
)
    requires
        token_arithmetic_is(credit, spend),
        adjoining_spans_add_up(credit),
        states.len() == times.len() + 1,
        states[0].last_refill == Some(last),
        forall|i: int|
            0 <= i < times.len() ==> TokenBucketPolicy::<A>::steps(
                states[i],
                #[trigger] times[i],
                PolicyDecision::Suppress,
                states[i + 1],
            ),
        forall|i: int, j: int| 0 <= i <= j < times.len() ==> times[i] <= times[j],
        times.len() > 0 ==> last <= times[0] && times.last() <= at,
        last <= at,
        TokenBucketPolicy::<A>::steps(states.last(), at, decision, after),
        TokenBucketPolicy::<A>::steps(states[0], at, plain_decision, plain_after),
    ensures
        decision == plain_decision,
        after == plain_after,
{
    lemma_suppressed_events_only_credit(credit, spend, states, times, last, times.len() as int);
    if times.len() > 0 {
        let m = states[0];
        let n = times.len() - 1;
        assert(states[n + 1] == states.last());
        assert(times[0] <= times.last());
        lemma_adjoining_spans_add_up(credit, m, last, times.last(), at);
        lemma_event_passes_if_there_is_a_token(
            credit,
            spend,
            states.last(),
            times.last(),
            at,
            decision,
            after,
        );
    }
    lemma_event_passes_if_there_is_a_token(
        credit,
        spend,
        states[0],
        last,
        at,
        plain_decision,
        plain_after,
    );
}

/// After suppressed events, a bucket holds what all the time since the last refill
/// before them gives.
pub proof fn lemma_suppressed_events_only_credit<A: TokenAmount>(
    credit: spec_fn(A, nat, A, A) -> A,
    spend: spec_fn(A) -> Option<A>,
    states: Seq<BucketModel<A>>,
    times: Seq<nat>,
    last: nat,
    n: int,
)
    requires
        token_arithmetic_is(credit, spend),
        adjoining_spans_add_up(credit),
        states.len() == times.len() + 1,
        states[0].last_refill == Some(last),
        forall|i: int|
            0 <= i < times.len() ==> TokenBucketPolicy::<A>::steps(
                states[i],
                #[trigger] times[i],
                PolicyDecision::Suppress,
                states[i + 1],
            ),
        forall|i: int, j: int| 0 <= i <= j < times.len() ==> times[i] <= times[j],
        times.len() > 0 ==> last <= times[0],
        0 <= n <= times.len(),
    ensures
        n > 0 ==> states[n] == (BucketModel {
            tokens: credit(
                states[0].tokens,
                (times[n - 1] - last) as nat,
                states[0].refill_rate,
                states[0].capacity,
            ),
            last_refill: Some(times[n - 1]),
            ..states[0]
        }),
    decreases n,
{
    if n > 0 {
        lemma_suppressed_events_only_credit(credit, spend, states, times, last, n - 1);
        let m = states[0];
        let at = times[n - 1];
        assert(TokenBucketPolicy::<A>::steps(
            states[n - 1],
            at,
            PolicyDecision::Suppress,
            states[n - 1 + 1],
        ));
        let earlier = if n > 1 {
            times[n - 2]
        } else {
            last
        };
        assert(earlier <= at);
        assert(last <= earlier) by {
            if n > 1 {
                assert(times[0] <= times[n - 2]);
            }
        }
        lemma_event_passes_if_there_is_a_token(
            credit,
            spend,
            states[n - 1],
            earlier,
            at,
            PolicyDecision::Suppress,
            states[n],
        );
        if n > 1 {
            lemma_adjoining_spans_add_up(credit, m, last, earlier, at);
        }
    }
}

/// How many decisions are to allow.
pub open spec fn allowed_among(decisions: Seq<PolicyDecision>) -> nat
    decreases decisions.len(),
{
    if decisions.len() == 0 {
        0
    } else if decisions.last() is Allow {
        allowed_among(decisions.drop_last()) + 1
    } else {
        allowed_among(decisions.drop_last())
    }
}

/// No more events pass than the bucket holds tokens at first and time brings. Where every
/// token is worth `one`, taking one token takes that much and never more than there is,
/// and a nanosecond adds at most `rate`, this bounds how many events pass within any
/// time: a burst by what is in the bucket, a sustained load by the rate.
pub proof fn lemma_bucket_limits_what_passes<A: TokenAmount>(
    worth: spec_fn(A) -> nat,
    one: nat,
    rate: nat,
    states: Seq<BucketModel<A>>,
    times: Seq<nat>,
    decisions: Seq<PolicyDecision>,
    since: nat,
)
    requires
        forall|t: A, span: Duration, r: A, c: A, x: A| #[trigger]
            call_ensures(A::credited, (t, span, r, c), x) ==> worth(x) <= worth(t) + rate * span@,
        forall|t: A, x: A| #[trigger]
            call_ensures(A::spent, (t,), Some(x)) ==> worth(x) + one <= worth(t),
        states.len() == times.len() + 1,
        decisions.len() == times.len(),
        forall|i: int|
            0 <= i < times.len() ==> TokenBucketPolicy::<A>::steps(
                states[i],
                #[trigger] times[i],
                decisions[i],
                states[i + 1],
            ),
        forall|i: int, j: int| 0 <= i <= j < times.len() ==> times[i] <= times[j],
        times.len() > 0 ==> since <= times[0],
        states[0].last_refill matches Some(last) ==> last == since,
    ensures
        times.len() > 0 ==> allowed_among(decisions) * one + worth(states.last().tokens) <= worth(
            states[0].tokens,
        ) + rate * (times.last() - since),
    decreases times.len(),
{
    if times.len() > 0 {
        let n = times.len() - 1;
        let fewer = times.drop_last();
        let before = states.drop_last();
        let made = decisions.drop_last();
        assert forall|i: int| 0 <= i < fewer.len() implies TokenBucketPolicy::<A>::steps(
            before[i],
            #[trigger] fewer[i],
            made[i],
            before[i + 1],
        ) by {
            assert(TokenBucketPolicy::<A>::steps(
                states[i],
                times[i],
                decisions[i],
                states[i + 1],
            ));
        }
        lemma_bucket_limits_what_passes(worth, one, rate, before, fewer, made, since);
        let at = times[n];
        let m = states[n];
        assert(TokenBucketPolicy::<A>::steps(m, at, decisions[n], states[n + 1]));
        let earlier = if n > 0 {
            times[n - 1]
        } else {
            since
        };
        if n > 0 {
            assert(TokenBucketPolicy::<A>::steps(
                states[n - 1],
                times[n - 1],
                decisions[n - 1],
                states[n - 1 + 1],
            ));
            assert(m.last_refill == Some(earlier));
        }
        assert(earlier <= at);
        assert(since <= earlier) by {
            if n > 0 {
                assert(times[0] <= times[n - 1]);
            }
        }
        let gained: int = rate * (at - earlier);
        assert(gained >= 0 && rate * (earlier - since) + gained == rate * (at - since))
            by (nonlinear_arith)
            requires
                gained == rate * (at - earlier),
                earlier <= at,
                since <= earlier,
                rate >= 0,
        ;
        let passed = allowed_among(made);
        assert((passed + 1) * one == passed * one + one) by (nonlinear_arith);
        assert(rate * (since - since) == 0) by (nonlinear_arith);
        if n == 0 {
            assert(passed == 0);
            assert(passed * one == 0) by (nonlinear_arith)
                requires
                    passed == 0,
            ;
        }
        let held = choose|held: A|
            #![trigger TokenBucketPolicy::<A>::refilled_in(m, at, held)]
            TokenBucketPolicy::<A>::refilled_in(m, at, held) && match decisions[n] {
                PolicyDecision::Allow => call_ensures(
                    A::spent,
                    (held,),
                    Some(states[n + 1].tokens),
                ),
                PolicyDecision::Suppress => call_ensures(A::spent, (held,), None)
                    && states[n + 1].tokens == held,
            };
        assert(worth(held) <= worth(m.tokens) + gained) by {
            if let Some(last) = m.last_refill {
                let span = choose|span: Duration|
                    #![trigger span@]
                    span@ == at - last && call_ensures(
                        A::credited,
                        (m.tokens, span, m.refill_rate, m.capacity),
                        held,
                    );
                assert(rate * span@ == gained);
            }
        }
    }
}

/// A bucket cannot be read back without its capacity, its rate and its tokens; the first
/// of these that is missing is told. With all three, it is read back with these and no
/// last refill, whatever else was read.
pub proof fn lemma_bucket_is_read_back_from_its_values<A>(a: BucketAssembly<A>)
    ensures
        a.capacity is None ==> bucket_finished(a) == Err::<BucketModel<A>, _>(
            FieldError::Missing(BucketField::Capacity),
        ),
        a.capacity is Some && a.refill_rate is None ==> bucket_finished(a) == Err::<
            BucketModel<A>,
            _,
        >(FieldError::Missing(BucketField::RefillRate)),
        a.capacity is Some && a.refill_rate is Some && a.tokens is None ==> bucket_finished(a)
            == Err::<BucketModel<A>, _>(FieldError::Missing(BucketField::Tokens)),
        a.capacity is Some && a.refill_rate is Some && a.tokens is Some ==> (bucket_finished(
            a,
        ) matches Ok(m) && m.capacity == a.capacity->0 && m.refill_rate == a.refill_rate->0
            && m.tokens == a.tokens->0 && m.last_refill is None),
{
}

/// Reading a value sets its own field and no other.
pub proof fn lemma_bucket_value_sets_its_field<A>(a: BucketAssembly<A>, v: BucketValue<A>)
    ensures
        bucket_with(a, v).capacity == if let BucketValue::Capacity(x) = v {
            Some(x)
        } else {
            a.capacity
        },
        bucket_with(a, v).refill_rate == if let BucketValue::RefillRate(x) = v {
            Some(x)
        } else {
            a.refill_rate
        },
        bucket_with(a, v).tokens == if let BucketValue::Tokens(x) = v {
            Some(x)
        } else {
            a.tokens
        },
{
}

/// What is stored of a bucket is what it holds, and whether it was refilled.
pub proof fn lemma_bucket_is_stored_as_it_is<A>(m: BucketModel<A>)
    ensures
        bucket_parts(m).capacity == m.capacity,
        bucket_parts(m).refill_rate == m.refill_rate,
        bucket_parts(m).tokens == m.tokens,
        bucket_parts(m).has_last_refill == (m.last_refill is Some),
{
}

} // verus!
