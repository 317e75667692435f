//! The embedding service: what is asked of it, what is accepted from it, and
//! when it is left alone.

use crate::errors::MemoryError;
use crate::fusion::{is_top, raw_of, top_matches};
use crate::l2::{finite_vector, is_finite_vector, SEMANTIC_TOP_K};
use vstd::prelude::*;
use vstd::string::*;

verus! {

/// Failures in a row after which the service is left alone.
pub const FAILURE_LIMIT: u32 = 5;

/// Milliseconds for which the service is then left alone.
pub const OPEN_MILLIS: u64 = 60_000;

/// The model that the service is asked to use.
pub const EMBED_MODEL: &'static str = "models/gemini-embedding-001";

/// The address that a request with the given key goes to.
pub open spec fn embed_url_of(api_key: Seq<char>) -> Seq<char> {
    "https://generativelanguage.googleapis.com/v1beta/models/gemini-embedding-001:embedContent?key="@
        + api_key
}

/// The address that a request with the given key goes to.
pub fn embed_url(api_key: &str) -> (r: String)
    ensures
        r@ == embed_url_of(api_key@),
{
    let mut r =
        "https://generativelanguage.googleapis.com/v1beta/models/gemini-embedding-001:embedContent?key=".to_owned();
    r.append(api_key);
    r
}

/// The items of a list that are numbers, in order.
pub open spec fn numbers_of(items: Seq<Option<u32>>) -> Seq<u32>
    decreases items.len(),
{
    if items.len() == 0 {
        Seq::empty()
    } else {
        match items.last() {
            Some(bits) => numbers_of(items.drop_last()).push(bits),
            None => numbers_of(items.drop_last()),
        }
    }
}

/// The components in a response, given by their bits: the items of its list that
/// are numbers, in order; `None` for a response that holds no list.
pub fn components(items: Option<Vec<Option<u32>>>) -> (r: Option<Vec<u32>>)
    ensures
        match r {
            Some(values) => items is Some && values@ == numbers_of(items->0@),
            None => items is None,
        },
{
    match items {
        Some(list) => {
            let n: usize = list.len();
            let mut values: Vec<u32> = Vec::new();
            proof {
                assert(list@.take(0) =~= Seq::empty());
            }
            for i in 0..n
                invariant
                    n == list@.len(),
                    values@ == numbers_of(list@.take(i as int)),
            {
                proof {
                    assert(list@.take(i + 1).drop_last() =~= list@.take(i as int));
                    assert(list@.take(i + 1).last() == list@[i as int]);
                }
                match list[i] {
                    Some(bits) => {
                        values.push(bits);
                    },
                    None => {},
                }
            }
            proof {
                assert(list@.take(n as int) =~= list@);
            }
            Some(values)
        },
        None => None,
    }
}

/// The vector of a response, given by the bits of its components; `None` for a
/// response that holds no list of components. Only finite vectors are
/// accepted.
pub fn accept_embedding(values: Option<Vec<u32>>) -> (r: Result<Vec<u32>, MemoryError>)
    ensures
        match r {
            Ok(vector) => values == Some(vector) && finite_vector(vector@),
            Err(MemoryError::L2EmbedFailed(message)) => values is None && message@
                == "invalid embedding response"@,
            Err(MemoryError::L2InvalidVector(message)) => values is Some && !finite_vector(
                values->0@,
            ) && message@ == "non-finite value in embedding"@,
            Err(_) => false,
        },
{
    match values {
        Some(vector) => if is_finite_vector(&vector) {
            Ok(vector)
        } else {
            Err(MemoryError::L2InvalidVector("non-finite value in embedding".to_owned()))
        },
        None => Err(MemoryError::L2EmbedFailed("invalid embedding response".to_owned())),
    }
}

/// Counts failures of the service and says whether it may be asked. Points in
/// time are milliseconds of a clock that does not go back.
pub struct CircuitBreaker {
    fail_count: u32,
    opened_at: Option<u64>,
}

/// Whether `after` is the breaker after one more failure: it counts it, and from
/// the limit on is open since then. The count stops at the end of 32 bits.
pub open spec fn fails(before: CircuitBreaker, after: CircuitBreaker, at: u64) -> bool {
    &&& after.failures() == (if before.failures() == u32::MAX {
        u32::MAX as int
    } else {
        before.failures() + 1
    })
    &&& after.open_since() == (if after.failures() >= FAILURE_LIMIT {
        Some(at)
    } else {
        before.open_since()
    })
}

impl CircuitBreaker {
    /// Failures since the last success.
    pub closed spec fn failures(&self) -> u32 {
        self.fail_count
    }

    /// Since when the service is left alone.
    pub closed spec fn open_since(&self) -> Option<u64> {
        self.opened_at
    }

    /// The breaker is open only after enough failures in a row.
    pub open spec fn wf(&self) -> bool {
        self.open_since() is Some ==> self.failures() >= FAILURE_LIMIT
    }

    /// Whether the service may be asked: it is not left alone, or has been for
    /// long enough.
    pub open spec fn may_ask(&self, at: u64) -> bool {
        match self.open_since() {
            Some(since) => at - since >= OPEN_MILLIS,
            None => true,
        }
    }

    /// A breaker that has seen no failure.
    pub fn new() -> (r: Self)
        ensures
            r.wf(),
            r.failures() == 0,
            r.open_since() is None,
    {
        CircuitBreaker { fail_count: 0, opened_at: None }
    }

    /// Whether the service may be asked.
    pub fn allows(&self, at: u64) -> (r: bool)
        ensures
            r == self.may_ask(at),
    {
        match self.opened_at {
            Some(since) => at >= since && at - since >= OPEN_MILLIS,
            None => true,
        }
    }

    /// Notes a failure. From the limit on, the service is left alone from now.
    /// The count of failures stops at the end of 32 bits.
    pub fn failed(&mut self, at: u64)
        requires
            old(self).wf(),
        ensures
            final(self).wf(),
            fails(*old(self), *final(self), at),
    {
        self.fail_count = self.fail_count.saturating_add(1);
        if self.fail_count >= FAILURE_LIMIT {
            self.opened_at = Some(at);
        }
    }

    /// Notes a success.
    pub fn succeeded(&mut self)
        ensures
            final(self).wf(),
            final(self).failures() == 0,
            final(self).open_since() is None,
    {
        self.fail_count = 0;
        self.opened_at = None;
    }
}

/// After a failure that reaches the limit the service is left alone for a
/// minute, and then may be asked again.
pub proof fn breaker_opens_for_a_minute(breaker: CircuitBreaker, opened: u64, at: u64)
    requires
        breaker.open_since() == Some(opened),
        opened <= at,
    ensures
        breaker.may_ask(at) <==> at >= opened + OPEN_MILLIS,
{
}

/// With fewer failures in a row than the limit the service may always be
/// asked.
pub proof fn few_failures_keep_the_service(breaker: CircuitBreaker, at: u64)
    requires
        breaker.wf(),
        breaker.failures() < FAILURE_LIMIT,
    ensures
        breaker.may_ask(at),
{
}

/// What a request to the service came to.
#[derive(Debug)]
pub enum EmbedReply {
    /// It got no response, for the reason given.
    Unreachable(String),
    /// Its response holds these components, by their bits, or no list of them.
    Response(Option<Vec<u32>>),
}

/// The vector that a reply brings.
pub open spec fn vector_in(reply: EmbedReply) -> Option<Seq<u32>> {
    match reply {
        EmbedReply::Response(Some(vector)) => if finite_vector(vector@) {
            Some(vector@)
        } else {
            None
        },
        _ => None,
    }
}

/// How a search by meaning begins: the address to ask for the vector of the
/// query. There is none, and nothing is asked, without a key or while the
/// service is left alone.
pub fn begin_search(api_key: &Option<String>, breaker: &CircuitBreaker, at: u64) -> (r: Option<
    String,
>)
    ensures
        match r {
            Some(url) => api_key is Some && breaker.may_ask(at) && url@ == embed_url_of(
                api_key->0@,
            ),
            None => api_key is None || !breaker.may_ask(at),
        },
{
    match api_key {
        Some(key) => if breaker.allows(at) {
            Some(embed_url(key.as_str()))
        } else {
            None
        },
        None => None,
    }
}

/// Takes the reply for the vector of the query. A vector is a success; anything
/// else is a failure of the service, and there is no vector.
pub fn take_reply(breaker: &mut CircuitBreaker, reply: EmbedReply, at: u64) -> (r: Option<Vec<u32>>)
    requires
        old(breaker).wf(),
    ensures
        final(breaker).wf(),
        match r {
            Some(vector) => vector_in(reply) == Some(vector@) && final(breaker).failures() == 0
                && final(breaker).open_since() is None,
            None => vector_in(reply) is None && fails(*old(breaker), *final(breaker), at),
        },
{
    let values: Option<Vec<u32>> = match reply {
        EmbedReply::Response(values) => values,
        EmbedReply::Unreachable(_) => None,
    };
    match accept_embedding(values) {
        Ok(vector) => {
            breaker.succeeded();
            Some(vector)
        },
        Err(_) => {
            breaker.failed(at);
            None
        },
    }
}

/// How a search by meaning ends: the most similar entries where there is a
/// vector of the query, and nothing otherwise.
pub fn end_search(query: &Option<Vec<u32>>, similarities: &Vec<(String, i64)>) -> (r: Vec<
    (String, i64),
>)
    ensures
        match *query {
            Some(_) => is_top(raw_of(similarities@), SEMANTIC_TOP_K as int, raw_of(r@)),
            None => r@.len() == 0,
        },
{
    match query {
        Some(_) => top_matches(similarities, SEMANTIC_TOP_K),
        None => Vec::new(),
    }
}

proof fn lemma_failures_add_up(breakers: Seq<CircuitBreaker>, times: Seq<u64>)
    requires
        breakers.len() == times.len() + 1,
        forall|i: int|
            0 <= i < times.len() ==> fails(#[trigger] breakers[i], breakers[i + 1], times[i]),
    ensures
        breakers.last().failures() >= times.len() || breakers.last().failures() == u32::MAX,
    decreases times.len(),
{
    if times.len() > 0 {
        let rest = breakers.drop_last();
        let before = times.drop_last();
        assert forall|i: int| 0 <= i < before.len() implies fails(
            #[trigger] rest[i],
            rest[i + 1],
            before[i],
        ) by {
            assert(fails(breakers[i], breakers[i + 1], times[i]));
        }
        lemma_failures_add_up(rest, before);
        assert(fails(breakers[times.len() - 1], breakers[times.len() as int], times.last()));
    }
}

/// After as many failures in a row as the limit, whatever was before, the
/// service is not asked for a minute from the last of them; then it is asked
/// again. One more failure leaves it alone for another minute.
pub proof fn failing_service_is_left_alone(
    breakers: Seq<CircuitBreaker>,
    times: Seq<u64>,
    at: u64,
)
    requires
        breakers.len() == times.len() + 1,
        forall|i: int|
            0 <= i < times.len() ==> fails(#[trigger] breakers[i], breakers[i + 1], times[i]),
        times.len() >= FAILURE_LIMIT,
        times.last() <= at,
    ensures
        breakers.last().may_ask(at) <==> at >= times.last() + OPEN_MILLIS,
{
    lemma_failures_add_up(breakers, times);
    assert(fails(breakers[times.len() - 1], breakers[times.len() as int], times.last()));
}

} // verus!
