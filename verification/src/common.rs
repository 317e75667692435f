//! Types shared by all layers.

use crate::clock::{moment_of, Moment, MomentModel};
use crate::ident::{is_uuid, new_id};
use crate::text::{copies_of, lowercase, same_str, texts};
use vstd::prelude::*;
use vstd::std_specs::convert::FromSpecImpl;
use vstd::string::*;

pub mod encoding;

verus! {

/// How important an entry is.
#[derive(Clone, Copy, Debug, PartialEq, Eq, PartialOrd, Ord, Structural)]
pub enum Importance {
    Low,
    Normal,
    High,
    Critical,
}

impl Importance {
    /// The level from 1, low, to 4, critical.
    pub open spec fn level_of(self) -> int {
        match self {
            Importance::Low => 1,
            Importance::Normal => 2,
            Importance::High => 3,
            Importance::Critical => 4,
        }
    }

    /// The importance with the given level; normal for a number that is no
    /// level.
    pub open spec fn with_level(level: int) -> Importance {
        if level == 4 {
            Importance::Critical
        } else if level == 3 {
            Importance::High
        } else if level == 1 {
            Importance::Low
        } else {
            Importance::Normal
        }
    }

    /// The importance with the given name, in letters of any case; normal for a
    /// text that is no name.
    pub open spec fn named(name: Seq<char>) -> Importance {
        let n = lowercase(name);
        if n == "critical"@ {
            Importance::Critical
        } else if n == "high"@ {
            Importance::High
        } else if n == "low"@ {
            Importance::Low
        } else {
            Importance::Normal
        }
    }

    /// The name in small letters.
    pub open spec fn name_of(self) -> Seq<char> {
        match self {
            Importance::Low => "low"@,
            Importance::Normal => "normal"@,
            Importance::High => "high"@,
            Importance::Critical => "critical"@,
        }
    }

    /// The name with a capital.
    pub open spec fn title_of(self) -> Seq<char> {
        match self {
            Importance::Low => "Low"@,
            Importance::Normal => "Normal"@,
            Importance::High => "High"@,
            Importance::Critical => "Critical"@,
        }
    }

    /// The level from 1, low, to 4, critical.
    pub fn level(&self) -> (r: i32)
        ensures
            r == self.level_of(),
    {
        match self {
            Importance::Low => 1,
            Importance::Normal => 2,
            Importance::High => 3,
            Importance::Critical => 4,
        }
    }

    /// The name in small letters.
    pub fn name(&self) -> (r: &'static str)
        ensures
            r@ == self.name_of(),
    {
        match self {
            Importance::Low => "low",
            Importance::Normal => "normal",
            Importance::High => "high",
            Importance::Critical => "critical",
        }
    }

    /// The name with a capital.
    pub fn title(&self) -> (r: &'static str)
        ensures
            r@ == self.title_of(),
    {
        match self {
            Importance::Low => "Low",
            Importance::Normal => "Normal",
            Importance::High => "High",
            Importance::Critical => "Critical",
        }
    }
}

/// An importance is read back from the level that stands for it.
pub proof fn importance_survives_its_level(importance: Importance)
    ensures
        Importance::with_level(importance.level_of()) == importance,
        1 <= importance.level_of() <= 4,
{
}

/// An importance is read back from its name, with a capital or without.
pub proof fn importance_survives_its_name(importance: Importance)
    ensures
        Importance::named(importance.name_of()) == importance,
        Importance::named(importance.title_of()) == importance,
        lowercase(importance.title_of()) == importance.name_of(),
        lowercase(importance.name_of()) == importance.name_of(),
{
    reveal_strlit("low");
    reveal_strlit("normal");
    reveal_strlit("high");
    reveal_strlit("critical");
    reveal_strlit("Low");
    reveal_strlit("Normal");
    reveal_strlit("High");
    reveal_strlit("Critical");
    assert(lowercase(importance.title_of()) =~= importance.name_of());
    assert(lowercase(importance.name_of()) =~= importance.name_of());
    assert("high"@.len() == 4 && "low"@.len() == 3 && "normal"@.len() == 6 && "critical"@.len()
        == 8);
}

/// A layer is read back from the prefix of its keys.
pub proof fn layer_survives_its_prefix(layer: Layer)
    ensures
        Layer::named(layer.prefix_of()) == layer,
{
    reveal_strlit("public");
    reveal_strlit("private");
    assert(lowercase(layer.prefix_of()) =~= layer.prefix_of());
    assert("public"@.len() == 6 && "private"@.len() == 7);
}

impl Default for Importance {
    fn default() -> (r: Self)
        ensures
            r == Importance::Normal,
    {
        Importance::Normal
    }
}

impl FromSpecImpl<i32> for Importance {
    open spec fn obeys_from_spec() -> bool {
        true
    }

    open spec fn from_spec(v: i32) -> Self {
        Importance::with_level(v as int)
    }
}

impl From<i32> for Importance {
    fn from(v: i32) -> (r: Self) {
        if v == 4 {
            Importance::Critical
        } else if v == 3 {
            Importance::High
        } else if v == 1 {
            Importance::Low
        } else {
            Importance::Normal
        }
    }
}

impl<'a> FromSpecImpl<&'a str> for Importance {
    open spec fn obeys_from_spec() -> bool {
        true
    }

    open spec fn from_spec(s: &'a str) -> Self {
        Importance::named(s@)
    }
}

impl<'a> From<&'a str> for Importance {
    fn from(s: &'a str) -> (r: Self) {
        let n = s.to_lowercase();
        if same_str(n.as_str(), "critical") {
            Importance::Critical
        } else if same_str(n.as_str(), "high") {
            Importance::High
        } else if same_str(n.as_str(), "low") {
            Importance::Low
        } else {
            Importance::Normal
        }
    }
}

/// Who may read an entry: the agent that wrote it, or every agent.
#[derive(Clone, Copy, Debug, PartialEq, Eq, Structural)]
pub enum Layer {
    Private,
    Public,
}

impl Layer {
    /// The name in small letters, which is also the prefix of keys.
    pub open spec fn prefix_of(self) -> Seq<char> {
        match self {
            Layer::Private => "private"@,
            Layer::Public => "public"@,
        }
    }

    /// The layer with the given name, in letters of any case; private for a
    /// text that is no name.
    pub open spec fn named(name: Seq<char>) -> Layer {
        if lowercase(name) == "public"@ {
            Layer::Public
        } else {
            Layer::Private
        }
    }

    /// The prefix of the keys of this layer.
    pub fn prefix(&self) -> (r: &'static str)
        ensures
            r@ == self.prefix_of(),
    {
        match self {
            Layer::Private => "private",
            Layer::Public => "public",
        }
    }
}

impl Default for Layer {
    fn default() -> (r: Self)
        ensures
            r == Layer::Private,
    {
        Layer::Private
    }
}

impl<'a> FromSpecImpl<&'a str> for Layer {
    open spec fn obeys_from_spec() -> bool {
        true
    }

    open spec fn from_spec(s: &'a str) -> Self {
        Layer::named(s@)
    }
}

impl<'a> From<&'a str> for Layer {
    fn from(s: &'a str) -> (r: Self) {
        let n = s.to_lowercase();
        if same_str(n.as_str(), "public") {
            Layer::Public
        } else {
            Layer::Private
        }
    }
}

/// One memory.
#[derive(Debug)]
pub struct Entry {
    /// Unique identifier.
    pub id: String,
    /// Key, by convention `<layer>:<category>:<subcategory>:<identifier>`.
    pub key: String,
    /// Content.
    pub value: String,
    pub importance: Importance,
    /// Tags to filter by.
    pub tags: Vec<String>,
    /// The agent that wrote the entry.
    pub source: String,
    pub layer: Layer,
    pub created_at: Moment,
    pub last_accessed: Moment,
    /// When the entry expires; `None` for never.
    pub expires_at: Option<Moment>,
}

/// An entry as mathematical values.
#[verifier::ext_equal]
pub struct EntryModel {
    pub id: Seq<char>,
    pub key: Seq<char>,
    pub value: Seq<char>,
    pub importance: Importance,
    pub tags: Seq<Seq<char>>,
    pub source: Seq<char>,
    pub layer: Layer,
    pub created_at: MomentModel,
    pub last_accessed: MomentModel,
    pub expires_at: Option<MomentModel>,
}

impl View for Entry {
    type V = EntryModel;

    open spec fn view(&self) -> EntryModel {
        EntryModel {
            id: self.id@,
            key: self.key@,
            value: self.value@,
            importance: self.importance,
            tags: texts(self.tags@),
            source: self.source@,
            layer: self.layer,
            created_at: self.created_at@,
            last_accessed: self.last_accessed@,
            expires_at: moment_of(self.expires_at),
        }
    }
}

impl Clone for Entry {
    fn clone(&self) -> (r: Self)
        ensures
            r@ == self@,
    {
        Entry {
            id: self.id.clone(),
            key: self.key.clone(),
            value: self.value.clone(),
            importance: self.importance,
            tags: copies_of(&self.tags),
            source: self.source.clone(),
            layer: self.layer,
            created_at: self.created_at,
            last_accessed: self.last_accessed,
            expires_at: self.expires_at,
        }
    }
}

/// Whether the time of expiry of an entry has passed.
pub open spec fn has_expired(entry: EntryModel, at: MomentModel) -> bool {
    match entry.expires_at {
        Some(end) => end.before(at),
        None => false,
    }
}

impl Entry {
    /// Whether the time of expiry has passed.
    pub fn is_expired(&self, at: Moment) -> (r: bool)
        ensures
            r == has_expired(self@, at@),
    {
        match self.expires_at {
            Some(end) => end.before(&at),
            None => false,
        }
    }

    /// An entry with a fresh identifier, created now, that never expires.
    pub fn new(
        key: String,
        value: String,
        importance: Importance,
        tags: Vec<String>,
        source: String,
        layer: Layer,
    ) -> (r: Self)
        ensures
            is_uuid(r.id@),
            r@.created_at.is_valid(),
            r@ == (EntryModel {
                id: r.id@,
                key: key@,
                value: value@,
                importance,
                tags: texts(tags@),
                source: source@,
                layer,
                created_at: r@.created_at,
                last_accessed: r@.created_at,
                expires_at: None,
            }),
    {
        let at: Moment = Moment::now();
        Entry {
            id: new_id(),
            key,
            value,
            importance,
            tags,
            source,
            layer,
            created_at: at,
            last_accessed: at,
            expires_at: None,
        }
    }

    /// A private entry of normal importance without tags, written by the
    /// memory system itself.
    pub fn with_text(key: &str, value: &str) -> (r: Self)
        ensures
            is_uuid(r.id@),
            r@.created_at.is_valid(),
            r@ == (EntryModel {
                id: r.id@,
                key: key@,
                value: value@,
                importance: Importance::Normal,
                tags: Seq::empty(),
                source: "memory-system"@,
                layer: Layer::Private,
                created_at: r@.created_at,
                last_accessed: r@.created_at,
                expires_at: None,
            }),
    {
        let tags: Vec<String> = Vec::new();
        proof {
            assert(texts(tags@) =~= Seq::empty());
        }
        Entry::new(
            key.to_owned(),
            value.to_owned(),
            Importance::Normal,
            tags,
            "memory-system".to_owned(),
            Layer::Private,
        )
    }
}

/// What to recall.
#[derive(Debug)]
pub struct RecallRequest {
    /// Keywords or natural language.
    pub query: String,
    /// Keys whose entries come first among the results.
    pub keys: Option<Vec<String>>,
    /// Only entries of this agent.
    pub agent_id: Option<String>,
    /// Only entries with all these tags.
    pub tags: Option<Vec<String>>,
    /// The most results to give.
    pub limit: Option<usize>,
    /// Only entries of this layer.
    pub layer: Option<Layer>,
    /// Whether to search by meaning besides by keyword.
    pub semantic: bool,
}

impl RecallRequest {
    /// Whether an entry passes the filters of the request: it is of the agent,
    /// has all the tags and is of the layer that the request names.
    pub open spec fn admits(&self, entry: EntryModel) -> bool {
        &&& match self.agent_id {
            Some(agent) => entry.source == agent@,
            None => true,
        }
        &&& match self.tags {
            Some(tags) => forall|i: int|
                0 <= i < tags@.len() ==> entry.tags.contains((#[trigger] tags@[i])@),
            None => true,
        }
        &&& match self.layer {
            Some(layer) => entry.layer == layer,
            None => true,
        }
    }

    /// The keys whose entries come first; none where the request does not say.
    pub open spec fn keys_of(&self) -> Seq<Seq<char>> {
        match self.keys {
            Some(keys) => texts(keys@),
            None => Seq::empty(),
        }
    }

    /// Whether an entry passes the filters of the request.
    pub fn admits_entry(&self, entry: &Entry) -> (r: bool)
        ensures
            r == self.admits(entry@),
    {
        let agent: bool = match &self.agent_id {
            Some(agent) => same_str(entry.source.as_str(), agent.as_str()),
            None => true,
        };
        let layer: bool = match self.layer {
            Some(layer) => entry.layer == layer,
            None => true,
        };
        let tags: bool = match &self.tags {
            Some(tags) => has_all(&entry.tags, tags),
            None => true,
        };
        agent && layer && tags
    }

    /// Whether the entry of a key comes first.
    pub fn puts_first(&self, key: &str) -> (r: bool)
        ensures
            r == self.keys_of().contains(key@),
    {
        match &self.keys {
            Some(keys) => has_text(keys, key),
            None => false,
        }
    }

    /// The most results to give: ten where the request does not say.
    pub open spec fn limit_of(&self) -> usize {
        match self.limit {
            Some(n) => n,
            None => 10,
        }
    }

    /// The most results to give.
    pub fn limit(&self) -> (r: usize)
        ensures
            r == self.limit_of(),
    {
        match self.limit {
            Some(n) => n,
            None => 10,
        }
    }
}

/// Whether a list holds a text.
pub fn has_text(list: &Vec<String>, text: &str) -> (r: bool)
    ensures
        r == texts(list@).contains(text@),
{
    let n: usize = list.len();
    for i in 0..n
        invariant
            n == list@.len(),
            forall|k: int| 0 <= k < i ==> (#[trigger] list@[k])@ != text@,
    {
        if same_str(list[i].as_str(), text) {
            proof {
                assert(texts(list@)[i as int] == text@);
            }
            return true;
        }
    }
    proof {
        if texts(list@).contains(text@) {
            let k = texts(list@).index_of(text@);
            assert(list@[k]@ == text@);
        }
    }
    false
}

/// Whether a list holds all of the texts.
fn has_all(list: &Vec<String>, wanted: &Vec<String>) -> (r: bool)
    ensures
        r == forall|i: int|
            0 <= i < wanted@.len() ==> texts(list@).contains((#[trigger] wanted@[i])@),
{
    let n: usize = wanted.len();
    for i in 0..n
        invariant
            n == wanted@.len(),
            forall|k: int| 0 <= k < i ==> texts(list@).contains((#[trigger] wanted@[k])@),
    {
        if !has_text(list, wanted[i].as_str()) {
            return false;
        }
    }
    true
}

/// Whether a request admits an entry.
pub open spec fn admitted_by(req: RecallRequest) -> spec_fn(EntryModel) -> bool {
    |e: EntryModel| req.admits(e)
}

/// The entries that a request admits, in order.
pub fn admitted(entries: &Vec<Entry>, req: &RecallRequest) -> (r: Vec<Entry>)
    ensures
        entries_of(r@) == entries_of(entries@).filter(admitted_by(*req)),
{
    let n: usize = entries.len();
    let mut r: Vec<Entry> = Vec::new();
    let ghost all = entries_of(entries@);
    let ghost pred = admitted_by(*req);
    proof {
        reveal(Seq::filter);
        assert(entries_of(r@) =~= all.take(0).filter(pred));
    }
    for i in 0..n
        invariant
            n == entries@.len(),
            all == entries_of(entries@),
            pred == admitted_by(*req),
            entries_of(r@) == all.take(i as int).filter(pred),
    {
        proof {
            assert(all.take(i + 1).drop_last() =~= all.take(i as int));
            assert(all.take(i + 1).last() == entries@[i as int]@);
            reveal(Seq::filter);
        }
        if req.admits_entry(&entries[i]) {
            let ghost before = r@;
            r.push(entries[i].clone());
            proof {
                assert(entries_of(r@) =~= entries_of(before).push(entries@[i as int]@));
            }
        }
    }
    proof {
        assert(all.take(n as int) =~= all);
    }
    r
}

/// The score of a perfect match. Scores are whole numbers of this part.
pub const SCORE_ONE: u64 = 1_000_000_000_000;

/// One recalled entry.
#[derive(Debug)]
pub struct RecallResult {
    pub entry: Entry,
    /// How well the entry matches, from 0 to `SCORE_ONE`.
    pub score: u64,
    /// The layer that the entry was found in.
    pub from_layer: String,
}

/// A recalled entry as mathematical values.
#[verifier::ext_equal]
pub struct ResultModel {
    pub entry: EntryModel,
    pub score: u64,
    pub from_layer: Seq<char>,
}

impl View for RecallResult {
    type V = ResultModel;

    open spec fn view(&self) -> ResultModel {
        ResultModel { entry: self.entry@, score: self.score, from_layer: self.from_layer@ }
    }
}

/// The recalled entries of a sequence, as mathematical values.
pub open spec fn results_of(v: Seq<RecallResult>) -> Seq<ResultModel> {
    v.map_values(|r: RecallResult| r@)
}

/// The entries of a sequence, as mathematical values.
pub open spec fn entries_of(v: Seq<Entry>) -> Seq<EntryModel> {
    v.map_values(|e: Entry| e@)
}

impl RecallResult {
    pub fn new(entry: Entry, score: u64, from_layer: &str) -> (r: Self)
        ensures
            r@ == (ResultModel { entry: entry@, score, from_layer: from_layer@ }),
    {
        RecallResult { entry, score, from_layer: from_layer.to_owned() }
    }
}

impl Clone for RecallResult {
    fn clone(&self) -> (r: Self)
        ensures
            r@ == self@,
    {
        RecallResult {
            entry: self.entry.clone(),
            score: self.score,
            from_layer: self.from_layer.clone(),
        }
    }
}

/// Counts and health of all layers.
#[derive(Debug)]
pub struct MemoryStats {
    pub l0_entries: usize,
    pub l1_entries: usize,
    pub l2_entries: usize,
    pub l2_vectors_cached: usize,
    pub l2_pending_vectors: usize,
    pub l3_archived_files: usize,
    /// The layers with an issue, each with what is wrong.
    pub layer_health: Vec<(&'static str, Option<String>)>,
}

impl Default for MemoryStats {
    fn default() -> (r: Self)
        ensures
            r.l0_entries == 0,
            r.l1_entries == 0,
            r.l2_entries == 0,
            r.l2_vectors_cached == 0,
            r.l2_pending_vectors == 0,
            r.l3_archived_files == 0,
            r.layer_health@.len() == 0,
    {
        MemoryStats {
            l0_entries: 0,
            l1_entries: 0,
            l2_entries: 0,
            l2_vectors_cached: 0,
            l2_pending_vectors: 0,
            l3_archived_files: 0,
            layer_health: Vec::new(),
        }
    }
}

/// A change of the short-term layer, as the other layers see it.
#[derive(Debug)]
pub enum L1Event {
    /// An entry was written, new or in place of another with this key.
    Upsert { key: String, entry: Entry, seq: u64 },
    /// The entry with this key was deleted.
    Delete { key: String, seq: u64 },
}

impl L1Event {
    /// The number of the change.
    pub open spec fn seq_of(&self) -> u64 {
        match self {
            L1Event::Upsert { seq, .. } => *seq,
            L1Event::Delete { seq, .. } => *seq,
        }
    }
}

} // verus!
