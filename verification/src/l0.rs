//! Working memory: an in-process cache with a fixed capacity.
//!
//! Nothing survives the process. When the cache is full, writing a new key
//! drops the entry that was used longest ago. An entry whose time of expiry has
//! passed is not found any more, and asking for it drops it.

use crate::clock::{Moment, MomentModel};
use crate::common::{
    has_expired, results_of, Entry, EntryModel, RecallRequest, RecallResult, ResultModel, SCORE_ONE,
};
use crate::config::{number_or, read_usize};
use crate::sort::{is_order, lemma_position, ordered, Rank, Ranked};
use crate::table::{
    entries_in, get_entry, has_entry, list_entries, lists_all, new_entries, put_entry, take_entry,
};
use crate::text::{
    chars_of, contains, decimal_of, first_of, join, join_of, lowercase, matches_at, number, occurs,
    same_str, starts, strings_of, texts, words, words_of,
};
use dashmap::DashMap;
use std::sync::Arc;
use vstd::hash_map::StringHashMap;
use vstd::prelude::*;
use vstd::string::*;

verus! {

broadcast use vstd::hash_map::group_hash_map_axioms;

/// Entries that the cache holds at most, where nothing else is configured.
pub const DEFAULT_L0_MAX_ENTRIES: usize = 10_000;

/// Score of an entry that holds every word of the query.
pub const SCORE_ALL: u64 = 800_000_000_000;

/// Score of an entry that holds some words of the query and starts with one.
pub const SCORE_PREFIX: u64 = 600_000_000_000;

/// Score of any other entry that holds some words of the query.
pub const SCORE_SOME: u64 = 400_000_000_000;

/// The words that a request asks for.
pub open spec fn words_asked(req: RecallRequest) -> Seq<Seq<char>> {
    words_of(lowercase(req.query@))
}

/// Working memory as mathematical values.
#[verifier::ext_equal]
pub struct Working {
    /// The entries by key.
    pub entries: Map<Seq<char>, EntryModel>,
    /// When each key was used last, as a number that grows with each use.
    pub used: Map<Seq<char>, u64>,
    /// The number given to the use before the next one.
    pub clock: u64,
    /// Entries that fit.
    pub capacity: usize,
}

impl Working {
    /// Every entry has a last use, and no more entries are held than fit.
    pub open spec fn wf(self) -> bool {
        &&& self.entries.dom() =~= self.used.dom()
        &&& self.entries.dom().finite()
        &&& self.entries.len() <= self.capacity
        &&& self.capacity >= 1
    }

    /// The number of the next use. It starts over at the end of 64 bits.
    pub open spec fn next_use(self) -> u64 {
        if self.clock == u64::MAX {
            0
        } else {
            (self.clock + 1) as u64
        }
    }

    /// No two keys were used last at the same time, and none after the clock.
    /// This holds as long as the clock has not started over.
    pub open spec fn uses_in_order(self) -> bool {
        &&& forall|k: Seq<char>| #[trigger] self.used.contains_key(k) ==> self.used[k] <= self.clock
        &&& forall|a: Seq<char>, b: Seq<char>|
            #![trigger self.used[a], self.used[b]]
            self.used.contains_key(a) && self.used.contains_key(b) && a != b ==> self.used[a]
                != self.used[b]
    }

    /// Whether no key was used longer ago than `k`.
    pub open spec fn is_oldest(self, k: Seq<char>) -> bool {
        &&& self.used.contains_key(k)
        &&& forall|other: Seq<char>| #[trigger]
            self.used.contains_key(other) ==> self.used[k] <= self.used[other]
    }

    /// The memory after a use of `k`.
    pub open spec fn touched(self, k: Seq<char>) -> Working {
        Working { used: self.used.insert(k, self.next_use()), clock: self.next_use(), ..self }
    }

    /// The memory without `k`.
    pub open spec fn without(self, k: Seq<char>) -> Working {
        Working { entries: self.entries.remove(k), used: self.used.remove(k), ..self }
    }

    /// The memory with `entry` under `k`, used now.
    pub open spec fn with(self, k: Seq<char>, entry: EntryModel) -> Working {
        Working { entries: self.entries.insert(k, entry), ..self }.touched(k)
    }

    /// Whether writing under `k` needs room that is not there.
    pub open spec fn is_full_for(self, k: Seq<char>) -> bool {
        self.entries.len() >= self.capacity && !self.entries.contains_key(k)
    }

    /// Whether `after` is the memory after writing `entry` under `k`: where
    /// there is no room, an entry that was used longest ago goes first.
    pub open spec fn wrote(self, k: Seq<char>, entry: EntryModel, after: Working) -> bool {
        if self.is_full_for(k) {
            exists|victim: Seq<char>| #[trigger]
                self.is_oldest(victim) && after == self.without(victim).with(k, entry)
        } else {
            after == self.with(k, entry)
        }
    }

    /// When a key was used last; 0 for a key that is not held.
    pub open spec fn last_use(self, k: Seq<char>) -> u64 {
        if self.used.contains_key(k) {
            self.used[k]
        } else {
            0
        }
    }

    /// Whether there is an entry under `k` whose time of expiry has not passed.
    pub open spec fn is_live(self, k: Seq<char>, at: MomentModel) -> bool {
        self.entries.contains_key(k) && !has_expired(self.entries[k], at)
    }

    /// The score of the entry under `k` for the words of a query.
    pub open spec fn score_of(self, k: Seq<char>, tokens: Seq<Seq<char>>) -> u64 {
        relevance(self.entries[k].value, tokens)
    }

    /// The rank of the entry under `k`: its score, and when its key was used.
    pub open spec fn rank_of(self, k: Seq<char>, tokens: Seq<Seq<char>>) -> Rank {
        Rank { score: self.score_of(k, tokens), recency: self.last_use(self.entries[k].key) }
    }

    /// Whether the entry under `k` answers a request: its time of expiry has
    /// not passed, the request admits it, and its text matches.
    pub open spec fn answers(self, k: Seq<char>, req: RecallRequest, at: MomentModel) -> bool {
        &&& self.entries.contains_key(k)
        &&& !has_expired(self.entries[k], at)
        &&& req.admits(self.entries[k])
        &&& self.score_of(k, words_asked(req)) > 0
    }

    /// The keys whose entries answer a request.
    pub open spec fn answering(self, req: RecallRequest, at: MomentModel) -> Set<Seq<char>> {
        self.entries.dom().filter(|k: Seq<char>| self.answers(k, req, at))
    }

    /// Whether `order` names each key whose entry answers the request once, the
    /// best first and of equally good ones the one used last first.
    pub open spec fn ranks(self, req: RecallRequest, at: MomentModel, order: Seq<Seq<char>>) -> bool {
        &&& order.no_duplicates()
        &&& forall|k: Seq<char>| #[trigger] order.contains(k) <==> self.answers(k, req, at)
        &&& forall|i: int, j: int|
            0 <= i < j < order.len() ==> self.rank_of(#[trigger] order[i], words_asked(req)).ahead(
                self.rank_of(#[trigger] order[j], words_asked(req)),
            )
    }

    /// Whether working memory may give these results for a request.
    pub open spec fn recalls(
        self,
        req: RecallRequest,
        at: MomentModel,
        results: Seq<ResultModel>,
    ) -> bool {
        exists|order: Seq<Seq<char>>| #[trigger]
            self.ranks(req, at, order) && results == self.results_for(
                first_of(order, req.limit_of() as int),
                words_asked(req),
            )
    }

    /// Every entry stands under its own key.
    pub open spec fn is_keyed(self) -> bool {
        forall|k: Seq<char>| #[trigger]
            self.entries.contains_key(k) ==> self.entries[k].key == k
    }

    /// The results for the entries under the keys, in order.
    pub open spec fn results_for(self, keys: Seq<Seq<char>>, tokens: Seq<Seq<char>>) -> Seq<
        ResultModel,
    > {
        Seq::new(keys.len(), |i: int| self.result_for(keys[i], tokens))
    }

    /// The result for the entry under `k`.
    pub open spec fn result_for(self, k: Seq<char>, tokens: Seq<Seq<char>>) -> ResultModel {
        ResultModel {
            entry: self.entries[k],
            score: self.score_of(k, tokens),
            from_layer: "L0"@,
        }
    }
}

/// What was written is what is there.
pub proof fn write_is_read_back(
    before: Working,
    key: Seq<char>,
    entry: EntryModel,
    after: Working,
)
    requires
        before.wf(),
        before.wrote(key, entry, after),
    ensures
        after.wf(),
        after.entries.contains_key(key),
        after.entries[key] == entry,
{
    if before.is_full_for(key) {
        let victim = choose|victim: Seq<char>| #[trigger]
            before.is_oldest(victim) && after == before.without(victim).with(key, entry);
        lemma_write_keeps_wf(before, Some(victim), key, entry);
    } else {
        lemma_write_keeps_wf(before, None, key, entry);
    }
}

proof fn lemma_write_keeps_wf(
    before: Working,
    victim: Option<Seq<char>>,
    key: Seq<char>,
    entry: EntryModel,
)
    requires
        before.wf(),
        match victim {
            Some(v) => before.is_full_for(key) && before.entries.contains_key(v),
            None => !before.is_full_for(key),
        },
    ensures
        (match victim {
            Some(v) => before.without(v).with(key, entry),
            None => before.with(key, entry),
        }).wf(),
{
    let base = match victim {
        Some(v) => before.without(v),
        None => before,
    };
    match victim {
        Some(v) => {
            assert(base.entries.dom() =~= before.entries.dom().remove(v));
            assert(base.used.dom() =~= before.used.dom().remove(v));
        },
        None => {},
    }
    let after = base.with(key, entry);
    assert(after.entries.dom() =~= base.entries.dom().insert(key));
    assert(after.used.dom() =~= base.used.dom().insert(key));
    if before.entries.contains_key(key) {
        assert(base.entries.dom() =~= before.entries.dom());
        assert(after.entries.dom() =~= before.entries.dom());
    }
}

/// A write touches no other key but the one that makes room, and makes room
/// only where the memory is full.
pub proof fn write_leaves_others(
    before: Working,
    key: Seq<char>,
    entry: EntryModel,
    after: Working,
    other: Seq<char>,
)
    requires
        before.wf(),
        before.wrote(key, entry, after),
        other != key,
        before.entries.contains_key(other),
        !before.is_full_for(key) || !before.is_oldest(other),
    ensures
        after.entries.contains_key(other),
        after.entries[other] == before.entries[other],
{
}

/// Where every entry stands under its own key, it stays so when an entry is
/// written under its own.
pub proof fn write_keeps_keys(before: Working, entry: EntryModel, after: Working)
    requires
        before.is_keyed(),
        before.wrote(entry.key, entry, after),
    ensures
        after.is_keyed(),
{
}

/// A write never leaves more entries than fit, nor fewer than before.
pub proof fn write_fills_up_to_capacity(
    before: Working,
    key: Seq<char>,
    entry: EntryModel,
    after: Working,
)
    requires
        before.wf(),
        before.wrote(key, entry, after),
    ensures
        after.entries.len() == (if before.entries.contains_key(key)
            || before.entries.len() >= before.capacity {
            before.entries.len()
        } else {
            before.entries.len() + 1
        }),
        after.capacity == before.capacity,
{
    if before.is_full_for(key) {
        let victim = choose|victim: Seq<char>| #[trigger]
            before.is_oldest(victim) && after == before.without(victim).with(key, entry);
        assert(before.entries.contains_key(victim));
        assert(after.entries.dom() =~= before.entries.dom().remove(victim).insert(key));
    } else {
        assert(after.entries.dom() =~= before.entries.dom().insert(key));
    }
}

/// A key that was used last survives the next write, unless only one entry
/// fits.
pub proof fn last_used_survives(
    before: Working,
    key: Seq<char>,
    entry: EntryModel,
    after: Working,
    recent: Seq<char>,
)
    requires
        before.wf(),
        before.uses_in_order(),
        before.capacity >= 2,
        before.used.contains_key(recent),
        before.used[recent] == before.clock,
        before.wrote(key, entry, after),
    ensures
        after.entries.contains_key(recent),
{
    assert(before.entries.contains_key(recent));
    if before.is_full_for(key) && before.is_oldest(recent) {
        assert(before.entries.dom().len() >= 2);
        let others = before.entries.dom().remove(recent);
        assert(others.len() >= 1);
        let other = others.choose();
        assert(others.contains(other)) by {
            if !others.contains(other) {
                assert(others =~= Set::empty());
            }
        }
        assert(before.used.contains_key(other));
        assert(before.used[recent] <= before.used[other]);
        assert(before.used[other] <= before.clock);
        assert(before.used[recent] != before.used[other]);
    }
}

/// As long as the clock has not started over, at most one key was used longest
/// ago: which entry makes room is settled.
pub proof fn oldest_is_one(memory: Working, a: Seq<char>, b: Seq<char>)
    requires
        memory.uses_in_order(),
        memory.is_oldest(a),
        memory.is_oldest(b),
    ensures
        a == b,
{
    assert(memory.used[a] <= memory.used[b]);
    assert(memory.used[b] <= memory.used[a]);
}

/// Uses stay in order over a read or a write until the clock starts over, and
/// the key that was read or written is the one used last.
pub proof fn uses_stay_in_order(before: Working, key: Seq<char>)
    requires
        before.uses_in_order(),
        before.clock < u64::MAX,
    ensures
        before.touched(key).uses_in_order(),
        before.touched(key).used[key] == before.touched(key).clock,
{
    let after = before.touched(key);
    assert forall|a: Seq<char>, b: Seq<char>|
        #![trigger after.used[a], after.used[b]]
        after.used.contains_key(a) && after.used.contains_key(b) && a != b implies after.used[a]
        != after.used[b] by {
        if a != key {
            assert(before.used.contains_key(a));
        }
        if b != key {
            assert(before.used.contains_key(b));
        }
        if a != key && b != key {
            assert(before.used[a] != before.used[b]);
        }
    }
}

/// Uses stay in order when a key goes.
pub proof fn uses_stay_in_order_without(before: Working, key: Seq<char>)
    requires
        before.uses_in_order(),
    ensures
        before.without(key).uses_in_order(),
{
    let after = before.without(key);
    assert forall|a: Seq<char>, b: Seq<char>|
        #![trigger after.used[a], after.used[b]]
        after.used.contains_key(a) && after.used.contains_key(b) && a != b implies after.used[a]
        != after.used[b] by {
        assert(before.used.contains_key(a) && before.used.contains_key(b));
        assert(before.used[a] != before.used[b]);
    }
}

/// The number of words that occur in a text.
pub open spec fn words_found(tokens: Seq<Seq<char>>, text: Seq<char>) -> nat
    decreases tokens.len(),
{
    if tokens.len() == 0 {
        0
    } else {
        words_found(tokens.drop_last(), text) + (if occurs(text, tokens.last()) {
            1nat
        } else {
            0nat
        })
    }
}

/// Whether a text starts with one of the words.
pub open spec fn starts_with_any(tokens: Seq<Seq<char>>, text: Seq<char>) -> bool {
    exists|i: int| 0 <= i < tokens.len() && starts(text, #[trigger] tokens[i])
}

/// How well a text matches the words of a query, given in small letters: the
/// text that consists of the words scores one; a text that holds all of them
/// 0.8; a text that holds some 0.6 where it starts with a word and 0.4
/// otherwise; any other text 0.
pub open spec fn relevance(value: Seq<char>, tokens: Seq<Seq<char>>) -> u64 {
    let text = lowercase(value);
    let found = words_found(tokens, text);
    let all = tokens.len();
    if all == 0 {
        0
    } else if text == join_of(tokens, " "@) {
        SCORE_ONE
    } else if found == all {
        SCORE_ALL
    } else if found == 0 {
        0
    } else if starts_with_any(tokens, text) {
        SCORE_PREFIX
    } else {
        SCORE_SOME
    }
}

proof fn lemma_words_found(tokens: Seq<Seq<char>>, text: Seq<char>)
    ensures
        words_found(tokens, text) <= tokens.len(),
    decreases tokens.len(),
{
    if tokens.len() > 0 {
        lemma_words_found(tokens.drop_last(), text);
    }
}

/// A text scores between 0 and one; more than 0 exactly where it holds one of
/// the words or is made of them, and 0.8 or more exactly where it holds all of
/// them or is made of them.
pub proof fn relevance_grades(value: Seq<char>, tokens: Seq<Seq<char>>)
    requires
        tokens.len() > 0,
    ensures
        relevance(value, tokens) <= SCORE_ONE,
        (relevance(value, tokens) > 0) == (words_found(tokens, lowercase(value)) > 0 || lowercase(
            value,
        ) == join_of(tokens, " "@)),
        (relevance(value, tokens) >= SCORE_ALL) == (words_found(tokens, lowercase(value))
            == tokens.len() || lowercase(value) == join_of(tokens, " "@)),
{
    lemma_words_found(tokens, lowercase(value));
}

/// How well a text matches the words of a query.
pub fn compute_relevance_score(value: &str, tokens: &Vec<String>) -> (r: u64)
    ensures
        r == relevance(value@, texts(tokens@)),
{
    let n: usize = tokens.len();
    if n == 0 {
        return 0;
    }
    let lower = value.to_lowercase();
    let joined = join(tokens, " ");
    if same_str(lower.as_str(), joined.as_str()) {
        return SCORE_ONE;
    }
    let text = chars_of(lower.as_str());
    let mut found: usize = 0;
    let mut prefixed: bool = false;
    let ghost t = texts(tokens@);
    for i in 0..n
        invariant
            n == tokens@.len(),
            t == texts(tokens@),
            text@ == lowercase(value@),
            found <= i,
            found == words_found(t.take(i as int), text@),
            prefixed == (exists|k: int| 0 <= k < i && starts(text@, #[trigger] t[k])),
    {
        let token = chars_of(tokens[i].as_str());
        proof {
            assert(t.take(i + 1).drop_last() =~= t.take(i as int));
            assert(t.take(i + 1).last() == token@);
            assert(t[i as int] == token@);
        }
        if contains(text.as_slice(), token.as_slice()) {
            found = found + 1;
            if matches_at(text.as_slice(), 0, token.as_slice()) {
                prefixed = true;
            }
        } else {
            proof {
                if starts(text@, token@) {
                    assert(crate::text::stands_at(text@, 0, token@));
                }
            }
        }
    }
    proof {
        assert(t.take(n as int) =~= t);
    }
    if found == n {
        SCORE_ALL
    } else if found > 0 {
        if prefixed {
            SCORE_PREFIX
        } else {
            SCORE_SOME
        }
    } else {
        0
    }
}

/// How many entries working memory holds and how many fit.
#[derive(Clone, Copy, Debug, PartialEq, Eq, Structural)]
pub struct L0Stats {
    pub entries: usize,
    pub capacity: usize,
}

impl L0Stats {
    /// The counts as text.
    pub open spec fn text_of(self) -> Seq<char> {
        "L0 { entries: "@ + decimal_of(self.entries as nat) + "/"@ + decimal_of(
            self.capacity as nat,
        ) + " }"@
    }

    /// The counts as text.
    pub fn text(&self) -> (r: String)
        ensures
            r@ == self.text_of(),
    {
        let mut r = "L0 { entries: ".to_owned();
        r.append(number(self.entries as u64).as_str());
        r.append("/");
        r.append(number(self.capacity as u64).as_str());
        r.append(" }");
        r
    }
}

/// In-process working memory that drops what was used longest ago.
pub struct WorkingMemory {
    store: DashMap<String, Arc<Entry>>,
    lru_index: StringHashMap<u64>,
    access_counter: u64,
    capacity: usize,
}

impl View for WorkingMemory {
    type V = Working;

    closed spec fn view(&self) -> Working {
        Working {
            entries: entries_in(self.store),
            used: self.lru_index@,
            clock: self.access_counter,
            capacity: self.capacity,
        }
    }
}

impl WorkingMemory {
    /// An empty memory with the capacity that the variable
    /// `MEMORY_L0_MAX_ENTRIES` holds, or the default.
    pub fn new(max_entries: &Option<String>) -> (r: Self)
        ensures
            r@.wf(),
            r@.uses_in_order(),
            r@.entries == Map::<Seq<char>, EntryModel>::empty(),
            r@.clock == 0,
            r@.capacity == (if number_or(
                *max_entries,
                DEFAULT_L0_MAX_ENTRIES as nat,
                usize::MAX as nat,
            ) == 0 {
                1
            } else {
                number_or(*max_entries, DEFAULT_L0_MAX_ENTRIES as nat, usize::MAX as nat)
            }),
    {
        Self::with_capacity(read_usize(max_entries, DEFAULT_L0_MAX_ENTRIES))
    }

    /// An empty memory that holds up to `capacity` entries, and at least one.
    pub fn with_capacity(capacity: usize) -> (r: Self)
        ensures
            r@.wf(),
            r@.uses_in_order(),
            r@.entries == Map::<Seq<char>, EntryModel>::empty(),
            r@.clock == 0,
            r@.capacity == (if capacity == 0 {
                1
            } else {
                capacity
            }),
    {
        let room: usize = if capacity == 0 {
            1
        } else {
            capacity
        };
        let r = WorkingMemory {
            store: new_entries(),
            lru_index: StringHashMap::new(),
            access_counter: 0,
            capacity: room,
        };
        proof {
            assert(r@.entries.dom() =~= Set::empty());
            assert(r@.used.dom() =~= Set::empty());
        }
        r
    }

    /// The next number of a use.
    fn next_order(&self) -> (r: u64)
        ensures
            r == self@.next_use(),
    {
        self.access_counter.wrapping_add(1)
    }

    /// Notes a use of `key`.
    fn bump_lru(&mut self, key: &str)
        ensures
            final(self)@ == old(self)@.touched(key@),
    {
        let order: u64 = self.next_order();
        self.access_counter = order;
        self.lru_index.insert(key.to_owned(), order);
    }

    /// Whether there is an entry under `key` whose time of expiry has not
    /// passed.
    pub fn holds(&self, key: &str, at: Moment) -> (r: bool)
        ensures
            r == self@.is_live(key@, at@),
    {
        match get_entry(&self.store, key) {
            Some(entry) => !entry.is_expired(at),
            None => false,
        }
    }

    /// The entry under `key`, which counts as used now. One whose time of
    /// expiry has passed is dropped instead.
    pub fn get(&mut self, key: &str, at: Moment) -> (r: Option<Arc<Entry>>)
        requires
            old(self)@.wf(),
        ensures
            final(self)@.wf(),
            match r {
                Some(e) => old(self)@.entries.contains_key(key@) && (*e)@
                    == old(self)@.entries[key@] && !has_expired((*e)@, at@) && final(self)@
                    == old(self)@.touched(key@),
                None => final(self)@ == old(self)@.without(key@) && (
                old(self)@.entries.contains_key(key@) ==> has_expired(
                    old(self)@.entries[key@],
                    at@,
                )),
            },
            !old(self)@.entries.contains_key(key@) ==> final(self)@ == old(self)@,
            old(self)@.uses_in_order() && old(self)@.clock < u64::MAX
                ==> final(self)@.uses_in_order(),
    {
        let ghost start = self@;
        match get_entry(&self.store, key) {
            Some(entry) => {
                if entry.is_expired(at) {
                    let _removed: bool = self.remove(key);
                    None
                } else {
                    self.bump_lru(key);
                    proof {
                        assert(self@.used.dom() =~= start.used.dom());
                        if start.uses_in_order() && start.clock < u64::MAX {
                            uses_stay_in_order(start, key@);
                        }
                    }
                    Some(entry)
                }
            },
            None => {
                proof {
                    assert(start.entries.remove(key@) =~= start.entries);
                    assert(start.used.remove(key@) =~= start.used);
                    assert(start.without(key@) =~= start);
                }
                None
            },
        }
    }

    /// A key that was used longest ago.
    fn oldest_key(&self) -> (r: String)
        requires
            self@.wf(),
            self@.entries.len() > 0,
        ensures
            self@.is_oldest(r@),
    {
        let list = list_entries(&self.store);
        let n: usize = list.len();
        let mut best: usize = 0;
        let mut best_use: u64 = match self.lru_index.get(list[0].0.as_str()) {
            Some(u) => *u,
            None => 0,
        };
        proof {
            assert(self@.entries.contains_key(list@[0].0@));
        }
        for i in 1..n
            invariant
                n == list@.len(),
                lists_all(list@, self@.entries),
                self@.wf(),
                best < n,
                self@.used.contains_key(list@[best as int].0@),
                best_use == self@.used[list@[best as int].0@],
                forall|j: int| 0 <= j < i ==> best_use <= self@.used[(#[trigger] list@[j]).0@],
        {
            proof {
                assert(self@.entries.contains_key(list@[i as int].0@));
            }
            match self.lru_index.get(list[i].0.as_str()) {
                Some(u) => {
                    if *u < best_use {
                        best = i;
                        best_use = *u;
                    }
                },
                None => {},
            }
        }
        let r = list[best].0.clone();
        proof {
            assert forall|other: Seq<char>| #[trigger] self@.used.contains_key(
                other,
            ) implies self@.used[r@] <= self@.used[other] by {
                assert(self@.entries.contains_key(other));
                let j = choose|j: int| 0 <= j < list@.len() && (#[trigger] list@[j]).0@ == other;
                assert(best_use <= self@.used[list@[j].0@]);
            }
        }
        r
    }

    /// Drops an entry that was used longest ago.
    fn evict_one(&mut self)
        requires
            old(self)@.wf(),
            old(self)@.entries.len() > 0,
        ensures
            exists|victim: Seq<char>| #[trigger]
                old(self)@.is_oldest(victim) && final(self)@ == old(self)@.without(victim),
    {
        let key = self.oldest_key();
        let _taken = take_entry(&mut self.store, key.as_str());
        self.lru_index.remove(key.as_str());
        proof {
            assert(old(self)@.is_oldest(key@) && self@ == old(self)@.without(key@));
        }
    }

    /// Puts `entry` under `key`, used now. Where the memory is full and the
    /// key is new, an entry that was used longest ago goes first.
    pub fn write(&mut self, key: String, entry: Entry)
        requires
            old(self)@.wf(),
        ensures
            final(self)@.wf(),
            old(self)@.wrote(key@, entry@, final(self)@),
            old(self)@.uses_in_order() && old(self)@.clock < u64::MAX
                ==> final(self)@.uses_in_order(),
    {
        let ghost start = self@;
        if self.lru_index.len() >= self.capacity && !has_entry(&self.store, key.as_str()) {
            self.evict_one();
        }
        let ghost mid = self@;
        put_entry(&mut self.store, key.clone(), Arc::new(entry));
        self.bump_lru(key.as_str());
        proof {
            assert(self@ =~= mid.with(key@, entry@));
            if start.is_full_for(key@) {
                let victim = choose|victim: Seq<char>| #[trigger]
                    start.is_oldest(victim) && mid == start.without(victim);
                assert(self@ == start.without(victim).with(key@, entry@));
                if start.uses_in_order() {
                    uses_stay_in_order_without(start, victim);
                }
            }
            assert(start.wrote(key@, entry@, self@));
            write_is_read_back(start, key@, entry@, self@);
            if start.uses_in_order() && start.clock < u64::MAX {
                let base = Working { entries: mid.entries.insert(key@, entry@), ..mid };
                assert(base.uses_in_order());
                uses_stay_in_order(base, key@);
            }
        }
    }

    /// Removes the entry under `key`, and says whether there was one.
    pub fn remove(&mut self, key: &str) -> (r: bool)
        requires
            old(self)@.wf(),
        ensures
            final(self)@.wf(),
            r == old(self)@.entries.contains_key(key@),
            final(self)@ == old(self)@.without(key@),
            old(self)@.uses_in_order() ==> final(self)@.uses_in_order(),
    {
        let ghost start = self@;
        let taken = take_entry(&mut self.store, key);
        let removed: bool = match taken {
            Some(_) => true,
            None => false,
        };
        if removed {
            self.lru_index.remove(key);
        }
        proof {
            if !removed {
                assert(start.used.remove(key@) =~= start.used);
            }
            assert(self@ =~= start.without(key@));
            assert(self@.entries.dom() =~= start.entries.dom().remove(key@));
            assert(self@.used.dom() =~= start.used.dom().remove(key@));
            if start.uses_in_order() {
                uses_stay_in_order_without(start, key@);
            }
        }
        removed
    }

    /// Removes the entries under all of the keys.
    pub fn clear_session(&mut self, session_keys: &Vec<String>)
        requires
            old(self)@.wf(),
        ensures
            final(self)@.wf(),
            final(self)@.entries == old(self)@.entries.remove_keys(texts(session_keys@).to_set()),
            final(self)@.used == old(self)@.used.remove_keys(texts(session_keys@).to_set()),
            final(self)@.clock == old(self)@.clock,
            final(self)@.capacity == old(self)@.capacity,
            old(self)@.uses_in_order() ==> final(self)@.uses_in_order(),
    {
        let n: usize = session_keys.len();
        let ghost t = texts(session_keys@);
        let ghost start = self@;
        proof {
            assert(start.entries.remove_keys(t.take(0).to_set()) =~= start.entries);
            assert(start.used.remove_keys(t.take(0).to_set()) =~= start.used);
        }
        for i in 0..n
            invariant
                n == session_keys@.len(),
                t == texts(session_keys@),
                self@.wf(),
                self@.entries == start.entries.remove_keys(t.take(i as int).to_set()),
                self@.used == start.used.remove_keys(t.take(i as int).to_set()),
                self@.clock == start.clock,
                self@.capacity == start.capacity,
                start.uses_in_order() ==> self@.uses_in_order(),
        {
            let _removed: bool = self.remove(session_keys[i].as_str());
            proof {
                let k = session_keys@[i as int]@;
                assert(t.take(i + 1) =~= t.take(i as int).push(k));
                assert(t.take(i + 1).to_set() =~= t.take(i as int).to_set().insert(k)) by {
                    broadcast use vstd::seq_lib::group_seq_properties;

                }
                assert(self@.entries =~= start.entries.remove_keys(t.take(i + 1).to_set()));
                assert(self@.used =~= start.used.remove_keys(t.take(i + 1).to_set()));
            }
        }
        proof {
            assert(t.take(n as int) =~= t);
        }
    }

    /// The entries that answer the request, the best first and of equally good
    /// ones the one used last first, up to the limit of the request.
    pub fn recall(&self, req: &RecallRequest, at: Moment) -> (r: Vec<RecallResult>)
        requires
            self@.wf(),
        ensures
            self@.recalls(*req, at@, results_of(r@)),
            forall|i: int|
                0 <= i < r@.len() ==> req.admits((#[trigger] r@[i]).entry@) && !has_expired(
                    r@[i].entry@,
                    at@,
                ),
    {
        let lower = req.query.as_str().to_lowercase();
        let lower_chars = chars_of(lower.as_str());
        let pieces = words(lower_chars.as_slice());
        let tokens = strings_of(&pieces);
        let ghost toks = words_asked(*req);
        let limit: usize = req.limit();
        let list = list_entries(&self.store);
        let n: usize = list.len();

        let mut places: Vec<usize> = Vec::new();
        let mut ranks: Vec<Rank> = Vec::new();
        for i in 0..n
            invariant
                n == list@.len(),
                self@.wf(),
                lists_all(list@, self@.entries),
                texts(tokens@) == toks,
                toks == words_asked(*req),
                places@.len() == ranks@.len(),
                forall|a: int| 0 <= a < places@.len() ==> #[trigger] places@[a] < i,
                forall|a: int, b: int|
                    0 <= a < b < places@.len() ==> #[trigger] places@[a] < #[trigger] places@[b],
                forall|a: int|
                    0 <= a < places@.len() ==> #[trigger] ranks@[a] == self@.rank_of(
                        list@[places@[a] as int].0@,
                        toks,
                    ) && self@.answers(list@[places@[a] as int].0@, *req, at@),
                forall|j: int|
                    0 <= j < i && self@.answers(
                        (#[trigger] list@[j]).0@,
                        *req,
                        at@,
                    ) ==> exists|a: int| 0 <= a < places@.len() && #[trigger] places@[a] == j,
        {
            let entry: &Entry = &*list[i].1;
            let ghost key = list@[i as int].0@;
            proof {
                assert(self@.entries.contains_key(key));
                assert(entry@ == self@.entries[key]);
            }
            let score: u64 = compute_relevance_score(entry.value.as_str(), &tokens);
            let ghost before = places@;
            let ghost before_ranks = ranks@;
            if score > 0 && req.admits_entry(entry) && !entry.is_expired(at) {
                let recency: u64 = match self.lru_index.get(entry.key.as_str()) {
                    Some(u) => *u,
                    None => 0,
                };
                places.push(i);
                ranks.push(Rank { score, recency });
                proof {
                    assert(self@.rank_of(key, toks) == ranks@.last());
                }
            }
            proof {
                assert forall|a: int| 0 <= a < places@.len() implies #[trigger] ranks@[a]
                    == self@.rank_of(list@[places@[a] as int].0@, toks) && self@.answers(
                    list@[places@[a] as int].0@,
                    *req,
                    at@,
                ) by {
                    if a < before.len() {
                        assert(places@[a] == before[a]);
                        assert(ranks@[a] == before_ranks[a]);
                    }
                }
                assert forall|j: int|
                    0 <= j < i + 1 && self@.answers(
                        (#[trigger] list@[j]).0@,
                        *req,
                        at@,
                    ) implies exists|a: int|
                    0 <= a < places@.len() && #[trigger] places@[a] == j by {
                    if j < i {
                        let a = choose|a: int| 0 <= a < before.len() && #[trigger] before[a] == j;
                        assert(places@[a] == j);
                    } else {
                        assert(places@[places@.len() - 1] == j);
                    }
                }
            }
        }

        let order = ordered(&ranks);
        let total: usize = order.len();
        let shown: usize = if total < limit {
            total
        } else {
            limit
        };
        let ghost keys: Seq<Seq<char>> = Seq::new(
            order@.len(),
            |a: int| list@[places@[order@[a] as int] as int].0@,
        );
        proof {
            self.lemma_ranks(*req, at@, list@, places@, ranks@, order@, keys);
        }
        let mut r: Vec<RecallResult> = Vec::new();
        for i in 0..shown
            invariant
                shown <= total,
                total == order@.len(),
                n == list@.len(),
                self@.wf(),
                lists_all(list@, self@.entries),
                is_order(ranks@, order@),
                places@.len() == ranks@.len(),
                forall|a: int| 0 <= a < places@.len() ==> #[trigger] places@[a] < n,
                forall|a: int|
                    0 <= a < places@.len() ==> #[trigger] ranks@[a] == self@.rank_of(
                        list@[places@[a] as int].0@,
                        toks,
                    ) && self@.answers(list@[places@[a] as int].0@, *req, at@),
                keys == Seq::new(
                    order@.len(),
                    |a: int| list@[places@[order@[a] as int] as int].0@,
                ),
                r@.len() == i,
                forall|a: int| 0 <= a < i ==> (#[trigger] r@[a])@ == self@.result_for(keys[a], toks),
        {
            let place: usize = places[order[i]];
            let score: u64 = ranks[order[i]].score;
            let entry: Entry = (*list[place].1).clone();
            proof {
                assert(ranks@[order@[i as int] as int] == self@.rank_of(
                    list@[place as int].0@,
                    toks,
                ));
                assert(entry@ == self@.entries[list@[place as int].0@]);
            }
            r.push(RecallResult::new(entry, score, "L0"));
        }
        proof {
            assert(results_of(r@) =~= self@.results_for(
                first_of(keys, req.limit_of() as int),
                toks,
            ));
            assert forall|i: int| 0 <= i < r@.len() implies req.admits(
                (#[trigger] r@[i]).entry@,
            ) && !has_expired(r@[i].entry@, at@) by {
                assert(r@[i]@ == self@.result_for(keys[i], toks));
                assert(keys.contains(keys[i]));
                assert(self@.answers(keys[i], *req, at@));
            }
        }
        r
    }

    proof fn lemma_ranks(
        &self,
        req: RecallRequest,
        at: MomentModel,
        list: Seq<(String, Arc<Entry>)>,
        places: Seq<usize>,
        ranks: Seq<Rank>,
        order: Seq<usize>,
        keys: Seq<Seq<char>>,
    )
        requires
            lists_all(list, self@.entries),
            places.len() == ranks.len(),
            forall|a: int| 0 <= a < places.len() ==> #[trigger] places[a] < list.len(),
            forall|a: int, b: int|
                0 <= a < b < places.len() ==> #[trigger] places[a] < #[trigger] places[b],
            forall|a: int|
                0 <= a < places.len() ==> #[trigger] ranks[a] == self@.rank_of(
                    list[places[a] as int].0@,
                    words_asked(req),
                ) && self@.answers(list[places[a] as int].0@, req, at),
            forall|j: int|
                0 <= j < list.len() && self@.answers((#[trigger] list[j]).0@, req, at)
                    ==> exists|a: int| 0 <= a < places.len() && #[trigger] places[a] == j,
            is_order(ranks, order),
            keys == Seq::new(order.len(), |a: int| list[places[order[a] as int] as int].0@),
        ensures
            self@.ranks(req, at, keys),
    {
        let toks = words_asked(req);
        assert forall|i: int, j: int| 0 <= i < keys.len() && 0 <= j < keys.len() && i
            != j implies keys[i] != keys[j] by {
            let (x, y) = if i < j {
                (i, j)
            } else {
                (j, i)
            };
            assert(order[x] != order[y]);
            let a = order[x] as int;
            let b = order[y] as int;
            assert(places[a] != places[b]) by {
                if a < b {
                    assert(places[a] < places[b]);
                } else {
                    assert(places[b] < places[a]);
                }
            }
            let p = places[a] as int;
            let q = places[b] as int;
            if p < q {
                assert(list[p].0@ != list[q].0@);
            } else {
                assert(list[q].0@ != list[p].0@);
            }
        }
        assert forall|k: Seq<char>| #[trigger] keys.contains(k) <==> self@.answers(k, req, at) by {
            if keys.contains(k) {
                let i = choose|i: int| 0 <= i < keys.len() && keys[i] == k;
                let a = order[i] as int;
                assert(ranks[a] == self@.rank_of(list[places[a] as int].0@, toks));
                assert(list[places[a] as int].0@ == k);
            }
            if self@.answers(k, req, at) {
                let j = choose|j: int| 0 <= j < list.len() && (#[trigger] list[j]).0@ == k;
                assert(self@.answers(list[j].0@, req, at));
                let a = choose|a: int| 0 <= a < places.len() && #[trigger] places[a] == j;
                lemma_position(ranks, order, a);
                let i = choose|i: int| 0 <= i < order.len() && #[trigger] order[i] == a;
                assert(keys[i] == k);
            }
        }
        assert forall|i: int, j: int| 0 <= i < j < keys.len() implies self@.rank_of(
            #[trigger] keys[i],
            toks,
        ).ahead(self@.rank_of(#[trigger] keys[j], toks)) by {
            assert(order[i] != order[j]);
            assert(ranks[order[i] as int] == self@.rank_of(keys[i], toks));
            assert(ranks[order[j] as int] == self@.rank_of(keys[j], toks));
        }
    }

    /// The number of entries held.
    pub fn len(&self) -> (r: usize)
        requires
            self@.wf(),
        ensures
            r == self@.entries.len(),
    {
        self.lru_index.len()
    }

    /// Whether no entry is held.
    pub fn is_empty(&self) -> (r: bool)
        requires
            self@.wf(),
        ensures
            r == (self@.entries.len() == 0),
    {
        self.len() == 0
    }

    /// How many entries are held and how many fit.
    pub fn stats(&self) -> (r: L0Stats)
        requires
            self@.wf(),
        ensures
            r.entries == self@.entries.len(),
            r.capacity == self@.capacity,
    {
        L0Stats { entries: self.len(), capacity: self.capacity }
    }
}

} // verus!
