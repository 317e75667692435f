//! What the HTTP interface and the command line ask and answer.

use crate::clock::{moment_of, moment_read, Moment, MomentModel};
use crate::common::{
    results_of, Entry, EntryModel, Importance, Layer, MemoryStats, RecallRequest, RecallResult,
    ResultModel,
};
use crate::config::{copy_optional, number_or, optional_text, read_usize, text_or};
use crate::errors::MemoryError;
use crate::ident::is_uuid;
use crate::l1::{key_problem, small_enough, L1, MAX_VALUE_BYTES};
use crate::system::health_of;
use crate::text::{
    byte_prefix, chars_of, decimal_of, first_bytes, join, join_of, lemma_texts_push, lowercase, number,
    same_str, split, split_of, strings_of, texts,
};
use vstd::prelude::*;
use vstd::string::*;

verus! {

/// Why a request is not answered as asked.
#[derive(Debug)]
pub enum ApiFailure {
    /// The body has no text under this name.
    MissingField(&'static str),
    /// The query has no parameter of this name.
    MissingParam(&'static str),
    /// There is no entry under this key.
    NotFound(String),
    /// Writing failed, for the reason given.
    WriteFailed(String),
    /// Deleting failed, for the reason given.
    DeleteFailed(String),
    /// The request is refused, for the reason given.
    Refused(MemoryError),
}

impl ApiFailure {
    /// The HTTP status.
    pub open spec fn status_of(&self) -> u16 {
        match self {
            ApiFailure::MissingField(_) => 400,
            ApiFailure::MissingParam(_) => 400,
            ApiFailure::NotFound(_) => 404,
            ApiFailure::WriteFailed(_) => 500,
            ApiFailure::DeleteFailed(_) => 500,
            ApiFailure::Refused(error) => error.status_of(),
        }
    }

    /// The name of the failure.
    pub open spec fn code_of(&self) -> Seq<char> {
        match self {
            ApiFailure::MissingField(_) => "missing_field"@,
            ApiFailure::MissingParam(_) => "missing_param"@,
            ApiFailure::NotFound(_) => "not_found"@,
            ApiFailure::WriteFailed(_) => "write_failed"@,
            ApiFailure::DeleteFailed(_) => "delete_failed"@,
            ApiFailure::Refused(MemoryError::InvalidKey(_)) => "invalid_key"@,
            ApiFailure::Refused(MemoryError::EntryTooLarge { .. }) => "entry_too_large"@,
            ApiFailure::Refused(MemoryError::ApiKeyMissing) => "unauthorized"@,
            ApiFailure::Refused(MemoryError::ApiKeyInvalid) => "unauthorized"@,
            ApiFailure::Refused(MemoryError::Unauthorized(_)) => "unauthorized"@,
            ApiFailure::Refused(_) => "refused"@,
        }
    }

    /// What the failure is about: the name of the detail and the detail.
    pub open spec fn detail_of(&self) -> (Seq<char>, Seq<char>) {
        match self {
            ApiFailure::MissingField(name) => ("message"@, name@ + " is required"@),
            ApiFailure::MissingParam(name) => ("param"@, name@),
            ApiFailure::NotFound(key) => ("key"@, key@),
            ApiFailure::WriteFailed(message) => ("message"@, message@),
            ApiFailure::DeleteFailed(message) => ("message"@, message@),
            ApiFailure::Refused(error) => ("message"@, error.message_of()),
        }
    }

    /// The HTTP status.
    pub fn status(&self) -> (r: u16)
        ensures
            r == self.status_of(),
    {
        match self {
            ApiFailure::MissingField(_) => 400,
            ApiFailure::MissingParam(_) => 400,
            ApiFailure::NotFound(_) => 404,
            ApiFailure::WriteFailed(_) => 500,
            ApiFailure::DeleteFailed(_) => 500,
            ApiFailure::Refused(error) => error.status(),
        }
    }

    /// The name of the failure.
    pub fn code(&self) -> (r: &'static str)
        ensures
            r@ == self.code_of(),
    {
        match self {
            ApiFailure::MissingField(_) => "missing_field",
            ApiFailure::MissingParam(_) => "missing_param",
            ApiFailure::NotFound(_) => "not_found",
            ApiFailure::WriteFailed(_) => "write_failed",
            ApiFailure::DeleteFailed(_) => "delete_failed",
            ApiFailure::Refused(MemoryError::InvalidKey(_)) => "invalid_key",
            ApiFailure::Refused(MemoryError::EntryTooLarge { .. }) => "entry_too_large",
            ApiFailure::Refused(MemoryError::ApiKeyMissing) => "unauthorized",
            ApiFailure::Refused(MemoryError::ApiKeyInvalid) => "unauthorized",
            ApiFailure::Refused(MemoryError::Unauthorized(_)) => "unauthorized",
            ApiFailure::Refused(_) => "refused",
        }
    }

    /// What the failure is about: the name of the detail and the detail.
    pub fn detail(&self) -> (r: (&'static str, String))
        ensures
            r.0@ == self.detail_of().0,
            r.1@ == self.detail_of().1,
    {
        match self {
            ApiFailure::MissingField(name) => (
                "message",
                (*name).to_owned().concat(" is required"),
            ),
            ApiFailure::MissingParam(name) => ("param", (*name).to_owned()),
            ApiFailure::NotFound(key) => ("key", key.clone()),
            ApiFailure::WriteFailed(message) => ("message", message.clone()),
            ApiFailure::DeleteFailed(message) => ("message", message.clone()),
            ApiFailure::Refused(error) => ("message", error.message()),
        }
    }
}

/// Whether a request may be answered: no key is configured, or the request
/// brings the configured one.
pub open spec fn may_enter(configured: Option<Seq<char>>, given: Option<Seq<char>>) -> bool {
    configured is None || given == configured
}

/// Makes sure that a request may be answered: no key is configured, or the
/// request brings the configured one.
pub fn check_api_key(configured: &Option<String>, given: &Option<String>) -> (r: Result<
    (),
    MemoryError,
>)
    ensures
        r is Ok <==> may_enter(optional_text(*configured), optional_text(*given)),
        match r {
            Ok(_) => configured is None || (given is Some && given->0@ == configured->0@),
            Err(MemoryError::ApiKeyMissing) => configured is Some && given is None,
            Err(MemoryError::ApiKeyInvalid) => configured is Some && given is Some && given->0@
                != configured->0@,
            Err(_) => false,
        },
{
    match configured {
        Some(key) => match given {
            Some(text) => if same_str(text.as_str(), key.as_str()) {
                Ok(())
            } else {
                Err(MemoryError::ApiKeyInvalid)
            },
            None => Err(MemoryError::ApiKeyMissing),
        },
        None => Ok(()),
    }
}

/// The agent that a request comes from, where it does not say.
pub const HTTP_AGENT: &'static str = "http-api";

/// The agent that a request comes from.
pub open spec fn agent_of(sender: Option<String>) -> Seq<char> {
    text_or(sender, HTTP_AGENT@)
}

/// The agent that a request comes from.
pub fn requester(sender: &Option<String>) -> (r: String)
    ensures
        r@ == agent_of(*sender),
{
    match sender {
        Some(agent) => agent.clone(),
        None => HTTP_AGENT.to_owned(),
    }
}

/// Whether an agent may see an entry: it is public or the agent's own.
pub open spec fn may_see(agent: Seq<char>, entry: EntryModel) -> bool {
    entry.layer == Layer::Public || entry.source == agent
}

/// Makes sure that an agent may see an entry.
pub fn verify_ownership(entry: &Entry, requester: &str) -> (r: Result<(), MemoryError>)
    ensures
        match r {
            Ok(_) => may_see(requester@, entry@),
            Err(MemoryError::Unauthorized(message)) => !may_see(requester@, entry@) && message@
                == "Agent "@ + requester@ + " cannot access private memory of "@ + entry@.source,
            Err(_) => false,
        },
{
    let open: bool = match entry.layer {
        Layer::Public => true,
        Layer::Private => same_str(entry.source.as_str(), requester),
    };
    if open {
        Ok(())
    } else {
        let mut message = "Agent ".to_owned();
        message.append(requester);
        message.append(" cannot access private memory of ");
        message.append(entry.source.as_str());
        Err(MemoryError::Unauthorized(message))
    }
}

/// Whether an agent may see the entry of a result.
pub open spec fn seen_by(agent: Seq<char>) -> spec_fn(ResultModel) -> bool {
    |x: ResultModel| may_see(agent, x.entry)
}

/// The results whose entries an agent may see, in order.
pub fn visible_to(results: &Vec<RecallResult>, requester: &str) -> (r: Vec<RecallResult>)
    ensures
        results_of(r@) == results_of(results@).filter(seen_by(requester@)),
        forall|i: int| 0 <= i < r@.len() ==> may_see(requester@, (#[trigger] r@[i]).entry@),
{
    let n: usize = results.len();
    let mut r: Vec<RecallResult> = Vec::new();
    let ghost all = results_of(results@);
    let ghost pred = seen_by(requester@);
    proof {
        reveal(Seq::filter);
        assert(results_of(r@) =~= all.take(0).filter(pred));
    }
    for i in 0..n
        invariant
            n == results@.len(),
            all == results_of(results@),
            pred == seen_by(requester@),
            results_of(r@) == all.take(i as int).filter(pred),
            forall|k: int| 0 <= k < r@.len() ==> may_see(requester@, (#[trigger] r@[k]).entry@),
    {
        proof {
            assert(all.take(i + 1).drop_last() =~= all.take(i as int));
            assert(all.take(i + 1).last() == results@[i as int]@);
            reveal(Seq::filter);
        }
        match verify_ownership(&results[i].entry, requester) {
            Ok(_) => {
                let ghost before = r@;
                let own = results[i].clone();
                proof {
                    assert(own@.entry == results@[i as int]@.entry);
                }
                r.push(own);
                proof {
                    assert(results_of(r@) =~= results_of(before).push(results@[i as int]@));
                }
            },
            Err(_) => {},
        }
    }
    proof {
        assert(all.take(n as int) =~= all);
    }
    r
}

/// The parts of a text between commas.
pub fn split_tags(list: &str) -> (r: Vec<String>)
    ensures
        texts(r@) == split_of(list@, ','),
{
    let chars = chars_of(list);
    let parts = split(chars.as_slice(), ',');
    strings_of(&parts)
}

/// The parts of a text between commas; none where there is no text.
pub fn cli_tags(list: &Option<String>) -> (r: Vec<String>)
    ensures
        match *list {
            Some(s) => texts(r@) == split_of(s@, ','),
            None => r@.len() == 0,
        },
{
    match list {
        Some(s) => split_tags(s.as_str()),
        None => Vec::new(),
    }
}

/// The parameters of a recall.
#[derive(Debug)]
pub struct RecallParams {
    pub query: Option<String>,
    pub semantic: Option<String>,
    pub limit: Option<String>,
    pub agent_id: Option<String>,
    pub tags: Option<String>,
    pub layer: Option<String>,
}

/// The layer that a parameter names; none for `all`, in letters of any case.
pub open spec fn layer_asked(name: Seq<char>) -> Option<Layer> {
    if lowercase(name) == "all"@ {
        None
    } else {
        Some(Layer::named(name))
    }
}

/// Whether `req` is the request that the parameters describe: up to ten results
/// where no limit can be read, by meaning only where that is `true`.
pub open spec fn is_request(req: RecallRequest, params: RecallParams) -> bool {
    &&& req.query@ == text_or(params.query, Seq::empty())
    &&& req.keys is None
    &&& optional_text(req.agent_id) == optional_text(params.agent_id)
    &&& match params.tags {
        Some(list) => match req.tags {
            Some(tags) => texts(tags@) == split_of(list@, ','),
            None => false,
        },
        None => req.tags is None,
    }
    &&& req.limit == Some(number_or(params.limit, 10, usize::MAX as nat) as usize)
    &&& req.layer == (match params.layer {
        Some(name) => layer_asked(name@),
        None => None,
    })
    &&& req.semantic == (match params.semantic {
        Some(text) => text@ == "true"@,
        None => false,
    })
}

/// The request that the parameters describe.
pub fn recall_request(params: &RecallParams) -> (r: RecallRequest)
    ensures
        is_request(r, *params),
{
    let query: String = match &params.query {
        Some(q) => q.clone(),
        None => String::new(),
    };
    let tags: Option<Vec<String>> = match &params.tags {
        Some(list) => Some(split_tags(list.as_str())),
        None => None,
    };
    let layer: Option<Layer> = match &params.layer {
        Some(name) => {
            let lower = name.as_str().to_lowercase();
            if same_str(lower.as_str(), "all") {
                None
            } else {
                Some(Layer::from(name.as_str()))
            }
        },
        None => None,
    };
    let semantic: bool = match &params.semantic {
        Some(text) => same_str(text.as_str(), "true"),
        None => false,
    };
    RecallRequest {
        query,
        keys: None,
        agent_id: copy_optional(&params.agent_id),
        tags,
        limit: Some(read_usize(&params.limit, 10)),
        layer,
        semantic,
    }
}

/// The body of a request to remember, and the agent that it comes from: each
/// field where it is there and is a text; the tags where they are a list, with
/// the items that are texts.
#[derive(Debug)]
pub struct RememberBody {
    pub sender: Option<String>,
    pub key: Option<String>,
    pub value: Option<String>,
    pub importance: Option<String>,
    pub layer: Option<String>,
    pub tags: Option<Vec<Option<String>>>,
    pub expires_at: Option<String>,
}

/// The items of a list that are texts, in order.
pub open spec fn text_items(items: Seq<Option<String>>) -> Seq<Seq<char>>
    decreases items.len(),
{
    if items.len() == 0 {
        Seq::empty()
    } else {
        match items.last() {
            Some(s) => text_items(items.drop_last()).push(s@),
            None => text_items(items.drop_last()),
        }
    }
}

/// When an entry expires that a body describes: at the date and time in RFC 3339
/// that the body gives, or never.
pub open spec fn expiry_of(text: Option<String>) -> Option<MomentModel> {
    match text {
        Some(t) => moment_read(t@),
        None => None,
    }
}

/// Whether `entry` is a new entry that the body describes, with the given time
/// of expiry: importance normal and layer private where the body does not say.
pub open spec fn is_described(
    entry: EntryModel,
    body: RememberBody,
    expires_at: Option<MomentModel>,
) -> bool {
    &&& is_uuid(entry.id)
    &&& body.key is Some && entry.key == body.key->0@
    &&& body.value is Some && entry.value == body.value->0@
    &&& entry.importance == (match body.importance {
        Some(name) => Importance::named(name@),
        None => Importance::Normal,
    })
    &&& entry.layer == (match body.layer {
        Some(name) => Layer::named(name@),
        None => Layer::Private,
    })
    &&& entry.tags == (match body.tags {
        Some(items) => text_items(items@),
        None => Seq::empty(),
    })
    &&& entry.source == agent_of(body.sender)
    &&& entry.created_at == entry.last_accessed
    &&& entry.created_at.is_valid()
    &&& entry.expires_at == expires_at
}

/// What a body is answered, with the given time of expiry for its entry: a key
/// and a value are required, the key is asked for first; then the key has to be
/// valid, and then the value has to be small enough.
pub open spec fn is_answer(
    r: Result<Entry, ApiFailure>,
    body: RememberBody,
    expires_at: Option<MomentModel>,
) -> bool {
    &&& match r {
        Ok(entry) => is_described(entry@, body, expires_at) && key_problem(body.key->0@) is None
            && small_enough(body.value->0@),
        Err(ApiFailure::MissingField(name)) => (body.key is None && name@ == "key"@) || (
        body.key is Some && body.value is None && name@ == "value"@),
        Err(ApiFailure::Refused(MemoryError::InvalidKey(message))) => body.key is Some
            && body.value is Some && key_problem(body.key->0@) == Some(message@),
        Err(ApiFailure::Refused(MemoryError::EntryTooLarge { key, size, max })) => {
            &&& body.key is Some && body.value is Some
            &&& key_problem(body.key->0@) is None
            &&& !small_enough(body.value->0@)
            &&& key@ == body.key->0@
            &&& size == vstd::utf8::encode_utf8(body.value->0@).len()
            &&& max == MAX_VALUE_BYTES
        },
        Err(_) => false,
    }
    &&& r is Ok <==> body.key is Some && body.value is Some && key_problem(body.key->0@) is None
        && small_enough(body.value->0@)
}

/// The entry that a body describes. A date and time of expiry that cannot be
/// read counts as none.
pub fn remember_entry(body: &RememberBody) -> (r: Result<Entry, ApiFailure>)
    ensures
        is_answer(r, *body, expiry_of(body.expires_at)),
{
    let expires_at: Option<Moment> = match &body.expires_at {
        Some(text) => Moment::from_rfc3339(text.as_str()),
        None => None,
    };
    remember_entry_until(body, expires_at)
}

/// The entry that a body describes, with the given time of expiry.
pub fn remember_entry_until(
    body: &RememberBody,
    expires_at: Option<Moment>,
) -> (r: Result<Entry, ApiFailure>)
    ensures
        is_answer(r, *body, moment_of(expires_at)),
{
    let key: String = match &body.key {
        Some(k) => k.clone(),
        None => {
            return Err(ApiFailure::MissingField("key"));
        },
    };
    let value: String = match &body.value {
        Some(v) => v.clone(),
        None => {
            return Err(ApiFailure::MissingField("value"));
        },
    };
    match L1::validate_key(key.as_str()) {
        Ok(_) => {},
        Err(error) => {
            return Err(ApiFailure::Refused(error));
        },
    }
    match L1::validate_entry(key.as_str(), value.as_str()) {
        Ok(_) => {},
        Err(error) => {
            return Err(ApiFailure::Refused(error));
        },
    }
    let importance: Importance = match &body.importance {
        Some(name) => Importance::from(name.as_str()),
        None => Importance::Normal,
    };
    let layer: Layer = match &body.layer {
        Some(name) => Layer::from(name.as_str()),
        None => Layer::Private,
    };
    let tags: Vec<String> = match &body.tags {
        Some(items) => keep_texts(items),
        None => Vec::new(),
    };
    proof {
        if body.tags is None {
            assert(texts(tags@) =~= Seq::empty());
        }
    }
    let mut entry = Entry::new(key, value, importance, tags, requester(&body.sender), layer);
    entry.expires_at = expires_at;
    Ok(entry)
}

fn keep_texts(items: &Vec<Option<String>>) -> (r: Vec<String>)
    ensures
        texts(r@) == text_items(items@),
{
    let n: usize = items.len();
    let mut r: Vec<String> = Vec::new();
    proof {
        assert(texts(r@) =~= text_items(items@.take(0)));
    }
    for i in 0..n
        invariant
            n == items@.len(),
            texts(r@) == text_items(items@.take(i as int)),
    {
        proof {
            assert(items@.take(i + 1).drop_last() =~= items@.take(i as int));
            assert(items@.take(i + 1).last() == items@[i as int]);
        }
        match &items[i] {
            Some(s) => {
                let text = s.clone();
                proof {
                    lemma_texts_push(r@, text);
                }
                r.push(text);
            },
            None => {},
        }
    }
    proof {
        assert(items@.take(n as int) =~= items@);
    }
    r
}

/// The key of a body, which is required.
pub fn required_field(key: &Option<String>) -> (r: Result<String, ApiFailure>)
    ensures
        match r {
            Ok(k) => key is Some && k@ == key->0@,
            Err(ApiFailure::MissingField(name)) => key is None && name@ == "key"@,
            Err(_) => false,
        },
{
    match key {
        Some(k) => Ok(k.clone()),
        None => Err(ApiFailure::MissingField("key")),
    }
}

/// The key of a query, which is required.
pub fn required_param(key: &Option<String>) -> (r: Result<String, ApiFailure>)
    ensures
        match r {
            Ok(k) => key is Some && k@ == key->0@,
            Err(ApiFailure::MissingParam(name)) => key is None && name@ == "key"@,
            Err(_) => false,
        },
{
    match key {
        Some(k) => Ok(k.clone()),
        None => Err(ApiFailure::MissingParam("key")),
    }
}

/// The answer to a request for an entry: the entry, that there is none, or that
/// the agent may not see it.
pub fn found(key: &str, entry: Option<Entry>, requester: &str) -> (r: Result<Entry, ApiFailure>)
    ensures
        match r {
            Ok(e) => entry == Some(e) && may_see(requester@, e@),
            Err(ApiFailure::NotFound(k)) => entry is None && k@ == key@,
            Err(ApiFailure::Refused(MemoryError::Unauthorized(message))) => entry is Some
                && !may_see(requester@, entry->0@) && message@ == "Agent "@ + requester@
                + " cannot access private memory of "@ + entry->0@.source,
            Err(_) => false,
        },
{
    match entry {
        Some(e) => match verify_ownership(&e, requester) {
            Ok(_) => Ok(e),
            Err(error) => Err(ApiFailure::Refused(error)),
        },
        None => Err(ApiFailure::NotFound(key.to_owned())),
    }
}

/// Makes sure that an agent may delete what stands under a key: nothing, or an
/// entry that it may see.
pub fn deletable(entry: &Option<Entry>, requester: &str) -> (r: Result<(), ApiFailure>)
    ensures
        match r {
            Ok(_) => entry is Some ==> may_see(requester@, entry->0@),
            Err(ApiFailure::Refused(MemoryError::Unauthorized(message))) => entry is Some
                && !may_see(requester@, entry->0@) && message@ == "Agent "@ + requester@
                + " cannot access private memory of "@ + entry->0@.source,
            Err(_) => false,
        },
{
    match entry {
        Some(e) => match verify_ownership(e, requester) {
            Ok(_) => Ok(()),
            Err(error) => Err(ApiFailure::Refused(error)),
        },
        None => Ok(()),
    }
}

/// What is written through the interface is found again by the agent that wrote
/// it, and by no other where it is private.
pub proof fn private_entry_is_for_its_agent(
    entry: EntryModel,
    body: RememberBody,
    expires_at: Option<MomentModel>,
    agent: Seq<char>,
)
    requires
        is_described(entry, body, expires_at),
    ensures
        may_see(agent_of(body.sender), entry),
        entry.layer == Layer::Private && agent != agent_of(body.sender) ==> !may_see(agent, entry),
        entry.layer == Layer::Public ==> may_see(agent, entry),
{
}

/// The issues of the layers that have one, each with the name of its layer.
pub open spec fn issue_texts(health: Seq<(Seq<char>, Option<Seq<char>>)>) -> Seq<Seq<char>>
    decreases health.len(),
{
    if health.len() == 0 {
        Seq::empty()
    } else {
        match health.last().1 {
            Some(message) => issue_texts(health.drop_last()).push(
                health.last().0 + ": "@ + message,
            ),
            None => issue_texts(health.drop_last()),
        }
    }
}

/// The status and the text that say how the layers are.
pub open spec fn health_reply(health: Seq<(Seq<char>, Option<Seq<char>>)>) -> (u16, Seq<char>) {
    let list = issue_texts(health);
    if list.len() == 0 {
        (200, "OK"@)
    } else {
        (503, "DEGRADED: "@ + join_of(list, ", "@))
    }
}

/// The status and the text that say how the layers are.
pub fn health(stats: &MemoryStats) -> (r: (u16, String))
    ensures
        r.0 == health_reply(health_of(stats.layer_health@)).0,
        r.1@ == health_reply(health_of(stats.layer_health@)).1,
{
    let n: usize = stats.layer_health.len();
    let ghost all = health_of(stats.layer_health@);
    let mut list: Vec<String> = Vec::new();
    proof {
        assert(texts(list@) =~= issue_texts(all.take(0)));
    }
    for i in 0..n
        invariant
            n == stats.layer_health@.len(),
            all == health_of(stats.layer_health@),
            texts(list@) == issue_texts(all.take(i as int)),
    {
        proof {
            assert(all.take(i + 1).drop_last() =~= all.take(i as int));
            assert(all.take(i + 1).last() == (
                stats.layer_health@[i as int].0@,
                optional_text(stats.layer_health@[i as int].1),
            ));
        }
        match &stats.layer_health[i].1 {
            Some(message) => {
                let text = stats.layer_health[i].0.to_owned().concat(": ").concat(
                    message.as_str(),
                );
                proof {
                    lemma_texts_push(list@, text);
                }
                list.push(text);
            },
            None => {},
        }
    }
    proof {
        assert(all.take(n as int) =~= all);
        assert(texts(list@).len() == list@.len());
    }
    if list.len() == 0 {
        (200, "OK".to_owned())
    } else {
        let issues = join(&list, ", ");
        (503, "DEGRADED: ".to_owned().concat(issues.as_str()))
    }
}

/// A line of the metrics.
pub open spec fn metric(name: Seq<char>, value: nat) -> Seq<char> {
    name + " "@ + decimal_of(value) + "\n"@
}

/// The metrics in the text format of Prometheus.
pub open spec fn metrics_of(stats: MemoryStats) -> Seq<char> {
    "# HELP memory_entries_total Memory entries per layer\n# TYPE memory_entries_total gauge\n"@
        + metric("memory_l0_entries_total"@, stats.l0_entries as nat) + metric(
        "memory_l1_entries_total"@,
        stats.l1_entries as nat,
    ) + metric("memory_l2_entries_total"@, stats.l2_entries as nat) + metric(
        "memory_l2_vectors_cached_total"@,
        stats.l2_vectors_cached as nat,
    ) + metric("memory_l2_pending_vectors_total"@, stats.l2_pending_vectors as nat) + metric(
        "memory_l3_archived_files_total"@,
        stats.l3_archived_files as nat,
    )
}

fn metric_line(name: &str, value: usize) -> (r: String)
    ensures
        r@ == metric(name@, value as nat),
{
    let mut r = name.to_owned();
    r.append(" ");
    r.append(number(value as u64).as_str());
    r.append("\n");
    r
}

/// The metrics in the text format of Prometheus.
pub fn metrics(stats: &MemoryStats) -> (r: String)
    ensures
        r@ == metrics_of(*stats),
{
    let mut r =
        "# HELP memory_entries_total Memory entries per layer\n# TYPE memory_entries_total gauge\n".to_owned();
    r.append(metric_line("memory_l0_entries_total", stats.l0_entries).as_str());
    r.append(metric_line("memory_l1_entries_total", stats.l1_entries).as_str());
    r.append(metric_line("memory_l2_entries_total", stats.l2_entries).as_str());
    r.append(metric_line("memory_l2_vectors_cached_total", stats.l2_vectors_cached).as_str());
    r.append(metric_line("memory_l2_pending_vectors_total", stats.l2_pending_vectors).as_str());
    r.append(metric_line("memory_l3_archived_files_total", stats.l3_archived_files).as_str());
    r
}

/// The start of a text for display: up to a hundred bytes, where a character
/// ends there.
pub open spec fn preview_of(text: Seq<char>) -> Option<Seq<char>> {
    let len = vstd::utf8::encode_utf8(text).len();
    if len < 100 {
        Some(text)
    } else {
        first_bytes(text, 100)
    }
}

/// The start of a text for display; `None` where the hundredth byte is not the
/// end of a character.
pub fn preview(text: &str) -> (r: Option<String>)
    ensures
        match r {
            Some(t) => preview_of(text@) == Some(t@),
            None => preview_of(text@) is None,
        },
{
    if text.as_bytes().len() < 100 {
        Some(text.to_owned())
    } else {
        let chars = chars_of(text);
        byte_prefix(chars.as_slice(), 100)
    }
}

} // verus!
