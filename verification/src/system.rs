//! The four layers together.
//!
//! A write goes to working memory and to the row and event for short-term
//! memory; the other layers follow the event. A recall asks all layers and
//! merges what they find.

use crate::clock::{Moment, MomentModel};
use crate::common::{
    admitted, admitted_by, entries_of, has_expired, results_of, Entry, EntryModel, L1Event,
    MemoryStats, RecallRequest, RecallResult, ResultModel,
};
use crate::config::{optional_text, Config};
use crate::fusion::{is_ranking, is_score_order, picked, raw_of};
use crate::ident::{is_uuid, new_id};
use crate::l0::{Working, WorkingMemory};
use crate::l1::{
    entry_of, has_valid_times, keyword_results, keyword_score, row_of, Row, Write, L1,
};
use crate::l2::{
    as_results, docs_from, docs_keyed, held_by, is_recall, is_scoring, recall_is_no_longer,
    scored_document_is_recalled, similar_of, vector_list, vectors_with, way_of, L2,
};
use crate::l3::{dates_of, DayFile, L3};
use crate::laws::text::parts_stand_at_places;
use crate::sort::{is_order, lemma_filter_within, lemma_position, ordered, Rank, Ranked};
use crate::text::{first_of, lowercase, texts};
use vstd::hash_map::StringHashMap;
use vstd::prelude::*;
use vstd::string::*;

verus! {

broadcast use vstd::hash_map::group_hash_map_axioms;

/// The last result for an identifier in a list.
pub open spec fn last_for(results: Seq<ResultModel>, id: Seq<char>) -> Option<ResultModel>
    decreases results.len(),
{
    if results.len() == 0 {
        None
    } else if results.last().entry.id == id {
        Some(results.last())
    } else {
        last_for(results.drop_last(), id)
    }
}

/// The first result for an identifier in a list.
pub open spec fn first_for(results: Seq<ResultModel>, id: Seq<char>) -> Option<ResultModel>
    decreases results.len(),
{
    if results.len() == 0 {
        None
    } else {
        match first_for(results.drop_last(), id) {
            Some(r) => Some(r),
            None => if results.last().entry.id == id {
                Some(results.last())
            } else {
                None
            },
        }
    }
}

/// The result that stands for an identifier: the last one of working memory;
/// where it has none, the first one of short-term memory; where that has none,
/// the first one of semantic memory.
pub open spec fn merged_for(
    l0: Seq<ResultModel>,
    l1: Seq<ResultModel>,
    l2: Seq<ResultModel>,
    id: Seq<char>,
) -> Option<ResultModel> {
    match last_for(l0, id) {
        Some(r) => Some(r),
        None => match first_for(l1, id) {
            Some(r) => Some(r),
            None => first_for(l2, id),
        },
    }
}

/// Whether one result may stand before another: the key of its entry is among
/// those that come first and that of the other is not, or neither has the
/// advantage and its score is not lower.
pub open spec fn may_precede(keys: Seq<Seq<char>>, a: ResultModel, b: ResultModel) -> bool {
    if keys.contains(a.entry.key) == keys.contains(b.entry.key) {
        a.score >= b.score
    } else {
        keys.contains(a.entry.key)
    }
}

/// Whether `all` holds one result for each identifier that has one, those of
/// the given keys first and then the highest score first.
pub open spec fn is_merging(
    l0: Seq<ResultModel>,
    l1: Seq<ResultModel>,
    l2: Seq<ResultModel>,
    keys: Seq<Seq<char>>,
    all: Seq<ResultModel>,
) -> bool {
    &&& forall|i: int|
        0 <= i < all.len() ==> merged_for(l0, l1, l2, (#[trigger] all[i]).entry.id) == Some(all[i])
    &&& forall|i: int, j: int|
        0 <= i < j < all.len() ==> (#[trigger] all[i]).entry.id != (#[trigger] all[j]).entry.id
            && may_precede(keys, all[i], all[j])
    &&& forall|id: Seq<char>| #[trigger]
        merged_for(l0, l1, l2, id) is Some ==> exists|i: int|
            0 <= i < all.len() && (#[trigger] all[i]).entry.id == id
}

/// Whether the results are the best of those that the layers found, one for
/// each identifier, up to the limit.
pub open spec fn is_merge(
    l0: Seq<ResultModel>,
    l1: Seq<ResultModel>,
    l2: Seq<ResultModel>,
    req: RecallRequest,
    results: Seq<ResultModel>,
) -> bool {
    exists|all: Seq<ResultModel>| #[trigger]
        is_merging(l0, l1, l2, req.keys_of(), all) && results == first_of(
            all,
            req.limit_of() as int,
        )
}

/// No identifier comes twice in merged results, they are no more than the
/// limit, those of the keys that come first are ahead, and the scores fall
/// within the two groups; they fall throughout where the request names no keys.
pub proof fn merged_results_differ(
    l0: Seq<ResultModel>,
    l1: Seq<ResultModel>,
    l2: Seq<ResultModel>,
    req: RecallRequest,
    results: Seq<ResultModel>,
)
    requires
        is_merge(l0, l1, l2, req, results),
    ensures
        results.len() <= req.limit_of(),
        forall|i: int, j: int|
            0 <= i < j < results.len() ==> (#[trigger] results[i]).entry.id != (
            #[trigger] results[j]).entry.id && may_precede(req.keys_of(), results[i], results[j])
                && (req.keys is None ==> results[i].score >= results[j].score),
{
    let all = choose|all: Seq<ResultModel>| #[trigger]
        is_merging(l0, l1, l2, req.keys_of(), all) && results == first_of(
            all,
            req.limit_of() as int,
        );
    assert forall|i: int, j: int| 0 <= i < j < results.len() implies (#[trigger] results[i]).entry.id
        != (#[trigger] results[j]).entry.id && may_precede(req.keys_of(), results[i], results[j])
        && (req.keys is None ==> results[i].score >= results[j].score) by {
        assert(results[i] == all[i]);
        assert(results[j] == all[j]);
    }
}

/// Results gathered by identifier, in the order in which they first came.
struct Gathered {
    place: StringHashMap<usize>,
    results: Vec<RecallResult>,
}

impl Gathered {
    spec fn wf(&self) -> bool {
        &&& forall|i: int|
            0 <= i < self.results@.len() ==> {
                &&& self.place@.contains_key((#[trigger] self.results@[i]).entry.id@)
                &&& self.place@[self.results@[i].entry.id@] == i
            }
        &&& forall|id: Seq<char>| #[trigger]
            self.place@.contains_key(id) ==> self.place@[id] < self.results@.len()
                && self.results@[self.place@[id] as int].entry.id@ == id
    }

    spec fn held(&self, id: Seq<char>) -> Option<ResultModel> {
        if self.place@.contains_key(id) {
            Some(self.results@[self.place@[id] as int]@)
        } else {
            None
        }
    }

    fn new() -> (r: Self)
        ensures
            r.wf(),
            forall|id: Seq<char>| #[trigger] r.held(id) is None,
    {
        Gathered { place: StringHashMap::new(), results: Vec::new() }
    }

    /// Takes a result in, in place of one with its identifier or only where
    /// there is none.
    fn take_in(&mut self, result: &RecallResult, replace: bool)
        requires
            old(self).wf(),
        ensures
            final(self).wf(),
            forall|id: Seq<char>| #[trigger]
                final(self).held(id) == (if id == result@.entry.id && (replace || old(self).held(
                    id,
                ) is None) {
                    Some(result@)
                } else {
                    old(self).held(id)
                }),
    {
        let ghost before = *self;
        let found: Option<usize> = match self.place.get(result.entry.id.as_str()) {
            Some(p) => Some(*p),
            None => None,
        };
        match found {
            Some(p) => {
                if replace {
                    self.results.set(p, result.clone());
                    proof {
                        assert forall|i: int| 0 <= i < self.results@.len() implies {
                            &&& self.place@.contains_key((#[trigger] self.results@[i]).entry.id@)
                            &&& self.place@[self.results@[i].entry.id@] == i
                        } by {
                            assert(before.place@.contains_key(before.results@[i].entry.id@));
                            if i == p {
                                assert(self.results@[i]@.entry.id == result@.entry.id);
                            }
                        }
                        assert forall|id: Seq<char>| #[trigger] self.held(id) == (if id
                            == result@.entry.id && (replace || before.held(id) is None) {
                            Some(result@)
                        } else {
                            before.held(id)
                        }) by {
                            if before.place@.contains_key(id) && id != result@.entry.id {
                                assert(before.place@[id] != p);
                            }
                        }
                        assert forall|id: Seq<char>| #[trigger] self.place@.contains_key(
                            id,
                        ) implies self.place@[id] < self.results@.len()
                            && self.results@[self.place@[id] as int].entry.id@ == id by {
                            if self.place@[id] == p {
                                assert(self.results@[p as int]@.entry.id == result@.entry.id);
                            }
                        }
                    }
                }
            },
            None => {
                self.place.insert(result.entry.id.clone(), self.results.len());
                let own = result.clone();
                proof {
                    assert(own@.entry.id == result@.entry.id);
                }
                self.results.push(own);
                proof {
                    assert forall|i: int| 0 <= i < self.results@.len() implies {
                        &&& self.place@.contains_key((#[trigger] self.results@[i]).entry.id@)
                        &&& self.place@[self.results@[i].entry.id@] == i
                    } by {
                        if i < before.results@.len() {
                            assert(self.results@[i] == before.results@[i]);
                            assert(before.place@.contains_key(before.results@[i].entry.id@));
                        }
                    }
                    assert forall|id: Seq<char>| #[trigger] self.held(id) == (if id
                        == result@.entry.id && (replace || before.held(id) is None) {
                        Some(result@)
                    } else {
                        before.held(id)
                    }) by {
                        if before.place@.contains_key(id) {
                            assert(before.place@[id] < before.results@.len());
                        }
                    }
                }
            },
        }
    }
}

/// Merges what the layers found: one result for each identifier, those of the
/// keys that the request names first and then the best first, up to its limit.
pub fn merge_results(
    l0: &Vec<RecallResult>,
    l1: &Vec<RecallResult>,
    l2: &Vec<RecallResult>,
    req: &RecallRequest,
) -> (r: Vec<RecallResult>)
    ensures
        is_merge(results_of(l0@), results_of(l1@), results_of(l2@), *req, results_of(r@)),
{
    let limit: usize = req.limit();
    let ghost a = results_of(l0@);
    let ghost b = results_of(l1@);
    let ghost c = results_of(l2@);
    let mut g = Gathered::new();
    let n0: usize = l0.len();
    for i in 0..n0
        invariant
            n0 == l0@.len(),
            a == results_of(l0@),
            g.wf(),
            forall|id: Seq<char>| #[trigger] g.held(id) == last_for(a.take(i as int), id),
    {
        let ghost before = g;
        g.take_in(&l0[i], true);
        proof {
            assert(a.take(i + 1).drop_last() =~= a.take(i as int));
            assert(a.take(i + 1).last() == l0@[i as int]@);
            assert forall|id: Seq<char>| #[trigger] g.held(id) == last_for(a.take(i + 1), id) by {
                assert(before.held(id) == last_for(a.take(i as int), id));
            }
        }
    }
    proof {
        assert(a.take(n0 as int) =~= a);
    }
    let n1: usize = l1.len();
    for i in 0..n1
        invariant
            n1 == l1@.len(),
            b == results_of(l1@),
            g.wf(),
            forall|id: Seq<char>| #[trigger]
                g.held(id) == (match last_for(a, id) {
                    Some(x) => Some(x),
                    None => first_for(b.take(i as int), id),
                }),
    {
        let ghost before = g;
        g.take_in(&l1[i], false);
        proof {
            assert(b.take(i + 1).drop_last() =~= b.take(i as int));
            assert(b.take(i + 1).last() == l1@[i as int]@);
            assert forall|id: Seq<char>| #[trigger] g.held(id) == (match last_for(a, id) {
                Some(x) => Some(x),
                None => first_for(b.take(i + 1), id),
            }) by {
                assert(before.held(id) == (match last_for(a, id) {
                    Some(x) => Some(x),
                    None => first_for(b.take(i as int), id),
                }));
            }
        }
    }
    proof {
        assert(b.take(n1 as int) =~= b);
    }
    let n2: usize = l2.len();
    for i in 0..n2
        invariant
            n2 == l2@.len(),
            c == results_of(l2@),
            g.wf(),
            forall|id: Seq<char>| #[trigger] g.held(id) == merged_for(a, b, c.take(i as int), id),
    {
        let ghost before = g;
        g.take_in(&l2[i], false);
        proof {
            assert(c.take(i + 1).drop_last() =~= c.take(i as int));
            assert(c.take(i + 1).last() == l2@[i as int]@);
            assert forall|id: Seq<char>| #[trigger] g.held(id) == merged_for(
                a,
                b,
                c.take(i + 1),
                id,
            ) by {
                assert(before.held(id) == merged_for(a, b, c.take(i as int), id));
            }
        }
    }
    proof {
        assert(c.take(n2 as int) =~= c);
    }
    let total: usize = g.results.len();
    let mut ranks: Vec<Rank> = Vec::new();
    for i in 0..total
        invariant
            total == g.results@.len(),
            ranks@.len() == i,
            forall|k: int|
                0 <= k < i ==> #[trigger] ranks@[k] == (Rank {
                    score: if req.keys_of().contains(g.results@[k].entry.key@) {
                        1
                    } else {
                        0
                    },
                    recency: g.results@[k].score,
                }),
    {
        let group: u64 = if req.puts_first(g.results[i].entry.key.as_str()) {
            1
        } else {
            0
        };
        ranks.push(Rank { score: group, recency: g.results[i].score });
    }
    let order = ordered(&ranks);
    let shown: usize = if total < limit {
        total
    } else {
        limit
    };
    let ghost all: Seq<ResultModel> = Seq::new(
        order@.len(),
        |i: int| g.results@[order@[i] as int]@,
    );
    let mut r: Vec<RecallResult> = Vec::new();
    for i in 0..shown
        invariant
            shown <= total,
            total == g.results@.len(),
            ranks@.len() == total,
            is_order(ranks@, order@),
            all == Seq::new(order@.len(), |k: int| g.results@[order@[k] as int]@),
            r@.len() == i,
            forall|k: int| 0 <= k < i ==> (#[trigger] r@[k])@ == all[k],
    {
        r.push(g.results[order[i]].clone());
    }
    proof {
        assert forall|i: int| 0 <= i < all.len() implies merged_for(
            a,
            b,
            c,
            (#[trigger] all[i]).entry.id,
        ) == Some(all[i]) by {
            let k = order@[i] as int;
            let id = g.results@[k].entry.id@;
            assert(g.place@[id] == k);
            assert(g.held(id) == Some(g.results@[k]@));
            assert(g.held(id) == merged_for(a, b, c, id));
        }
        assert forall|i: int, j: int| 0 <= i < j < all.len() implies (#[trigger] all[i]).entry.id
            != (#[trigger] all[j]).entry.id && may_precede(req.keys_of(), all[i], all[j]) by {
            assert(order@[i] != order@[j]);
            let p = order@[i] as int;
            let q = order@[j] as int;
            assert(g.place@[g.results@[p].entry.id@] == p);
            assert(g.place@[g.results@[q].entry.id@] == q);
            assert(ranks@[p].ahead(ranks@[q]));
        }
        assert forall|id: Seq<char>| #[trigger] merged_for(a, b, c, id) is Some implies exists|
            i: int,
        | 0 <= i < all.len() && (#[trigger] all[i]).entry.id == id by {
            assert(g.held(id) == merged_for(a, b, c, id));
            let k = g.place@[id] as int;
            lemma_position(ranks@, order@, k);
            let i = choose|i: int| 0 <= i < order@.len() && #[trigger] order@[i] == k;
            assert(all[i].entry.id == id);
        }
        assert(is_merging(a, b, c, req.keys_of(), all));
        assert(results_of(r@) =~= first_of(all, limit as int));
    }
    r
}

/// The four layers of memory.
pub struct MemorySystem {
    pub l0: WorkingMemory,
    pub l1: L1,
    pub l2: L2,
    pub l3: L3,
}

/// What a read of a key gives.
#[derive(Debug)]
pub struct Reading {
    /// The entry under the key.
    pub entry: Option<Entry>,
    /// When the row of the key was accessed, in milliseconds, where the entry
    /// came from it.
    pub accessed: Option<i64>,
}

/// The health of a layer, as mathematical values.
pub open spec fn health_of(v: Seq<(&'static str, Option<String>)>) -> Seq<
    (Seq<char>, Option<Seq<char>>),
> {
    v.map_values(|x: (&'static str, Option<String>)| (x.0@, optional_text(x.1)))
}

/// The layers with an issue: short-term memory with the one given, the archive
/// where its directory is missing.
pub open spec fn issues(l1_issue: Option<Seq<char>>, archive_exists: bool) -> Seq<
    (Seq<char>, Option<Seq<char>>),
> {
    (match l1_issue {
        Some(message) => seq![("l1"@, Some(message))],
        None => Seq::empty(),
    }) + (if archive_exists {
        Seq::empty()
    } else {
        seq![("l3"@, Some("archive directory missing"@))]
    })
}

impl MemorySystem {
    /// The layers are well-formed, and hold every entry under its own key.
    pub open spec fn wf(&self) -> bool {
        &&& self.l0@.wf()
        &&& self.l0@.is_keyed()
        &&& self.l2.wf()
        &&& self.l2.is_keyed()
    }

    /// The layers over the entries of short-term memory: its highest number,
    /// its entries and the vectors that were kept, with working memory empty
    /// and no file of the archive opened.
    pub fn new(
        config: &Config,
        current_seq: u64,
        entries: Vec<Entry>,
        vectors: Vec<(String, Vec<u32>)>,
        at: Moment,
    ) -> (r: Self)
        ensures
            r.wf(),
            r.l0@.uses_in_order(),
            r.l0@.entries == Map::<Seq<char>, EntryModel>::empty(),
            r.l0@.clock == 0,
            r.l0@.capacity == (if config.l0_capacity == 0 {
                1
            } else {
                config.l0_capacity
            }),
            r.l1.last_seq() == current_seq,
            r.l2.processed() == current_seq,
            r.l2@.docs == docs_from(entries_of(entries@)),
            r.l2@.vectors == vectors_with(Map::empty(), vector_list(vectors@)),
            r.l2@.pending == Set::<Seq<char>>::empty(),
            r.l3.today() == at@.date(),
            r.l3.file_state() == DayFile::Unopened,
    {
        MemorySystem {
            l0: WorkingMemory::with_capacity(config.l0_capacity),
            l1: L1::new(current_seq),
            l2: L2::new(entries, vectors, current_seq),
            l3: L3::new(at),
        }
    }

    /// Remembers an entry at a point in time: it gets an identifier where it
    /// has none, and counts as created and accessed then. Working memory holds
    /// it on return; the row and the event are for short-term memory and the
    /// layers that follow it.
    pub fn remember_at(&mut self, entry: Entry, fresh_id: String, at: Moment) -> (r: Write)
        requires
            old(self).wf(),
            old(self).l1.last_seq() < u64::MAX,
        ensures
            final(self).wf(),
            ({
                let kept = EntryModel {
                    id: if entry@.id.len() == 0 {
                        fresh_id@
                    } else {
                        entry@.id
                    },
                    created_at: at@,
                    last_accessed: at@,
                    ..entry@
                };
                &&& old(self).l0@.wrote(kept.key, kept, final(self).l0@)
                &&& final(self).l1.last_seq() == old(self).l1.last_seq() + 1
                &&& r.row@ == row_of(kept.key, kept, at@, final(self).l1.last_seq())
                &&& match r.event {
                    L1Event::Upsert { key, entry: e, seq } => key@ == kept.key && e@ == kept && seq
                        == final(self).l1.last_seq(),
                    L1Event::Delete { .. } => false,
                }
            }),
            old(self).l0@.uses_in_order() && old(self).l0@.clock < u64::MAX
                ==> final(self).l0@.uses_in_order(),
            final(self).l2 == old(self).l2,
            final(self).l3 == old(self).l3,
    {
        let mut kept = entry;
        if kept.id.as_str().is_empty() {
            kept.id = fresh_id;
        }
        kept.created_at = at;
        kept.last_accessed = at;
        let write = self.l1.write(kept.key.as_str(), &kept, at);
        let ghost start = self.l0@;
        self.l0.write(kept.key.clone(), kept);
        proof {
            crate::l0::write_keeps_keys(start, kept@, self.l0@);
        }
        write
    }

    /// Remembers an entry now.
    pub fn remember(&mut self, entry: Entry) -> (r: Write)
        requires
            old(self).wf(),
            old(self).l1.last_seq() < u64::MAX,
        ensures
            final(self).wf(),
            final(self).l1.last_seq() == old(self).l1.last_seq() + 1,
            final(self).l0@.entries.contains_key(entry@.key),
            old(self).l0@.wrote(
                entry@.key,
                final(self).l0@.entries[entry@.key],
                final(self).l0@,
            ),
            entry@.id.len() > 0 ==> r.row@.id == entry@.id,
            entry@.id.len() == 0 ==> is_uuid(r.row@.id),
            r.row@ == row_of(
                entry@.key,
                final(self).l0@.entries[entry@.key],
                final(self).l0@.entries[entry@.key].created_at,
                final(self).l1.last_seq(),
            ),
            r.row@.last_accessed == r.row@.created_at,
            final(self).l0@.entries[entry@.key] == (EntryModel {
                id: r.row@.id,
                created_at: final(self).l0@.entries[entry@.key].created_at,
                last_accessed: final(self).l0@.entries[entry@.key].created_at,
                ..entry@
            }),
            final(self).l0@.entries[entry@.key].created_at.is_valid(),
            match r.event {
                L1Event::Upsert { key, entry: e, seq } => {
                    &&& key@ == entry@.key
                    &&& e@ == final(self).l0@.entries[entry@.key]
                    &&& seq == final(self).l1.last_seq()
                },
                L1Event::Delete { .. } => false,
            },
            old(self).l0@.uses_in_order() && old(self).l0@.clock < u64::MAX
                ==> final(self).l0@.uses_in_order(),
            final(self).l2 == old(self).l2,
            final(self).l3 == old(self).l3,
    {
        let ghost start = self.l0@;
        let ghost model = entry@;
        let at: Moment = Moment::now();
        let fresh = new_id();
        let ghost kept = EntryModel {
            id: if model.id.len() == 0 {
                fresh@
            } else {
                model.id
            },
            created_at: at@,
            last_accessed: at@,
            ..model
        };
        let r = self.remember_at(entry, fresh, at);
        proof {
            crate::l0::write_is_read_back(start, kept.key, kept, self.l0@);
        }
        r
    }

    /// What the layers recall for a request, given the entries of short-term
    /// memory, the raw keyword scores of semantic memory and the similarities
    /// where the request asks for them. Every layer gives only entries that the
    /// request admits.
    pub fn recall(
        &self,
        req: &RecallRequest,
        l1_entries: &Vec<Entry>,
        raw: &Vec<(String, i64)>,
        similar: &Option<Vec<(String, i64)>>,
        at: Moment,
    ) -> (r: Vec<RecallResult>)
        requires
            self.wf(),
        ensures
            is_system_recall(
                self.l0@,
                entries_of(l1_entries@),
                self.l2@.docs,
                *req,
                raw_of(raw@),
                similar_of(*similar),
                at@,
                results_of(r@),
            ),
            r@.len() <= req.limit_of(),
            forall|i: int| 0 <= i < r@.len() ==> req.admits((#[trigger] r@[i]).entry@),
    {
        let found0 = self.l0.recall(req, at);
        let found1 = L1::recall(&admitted(l1_entries, req), req.query.as_str());
        let found2 = self.l2.recall(req, raw, similar);
        let r = merge_results(&found0, &found1, &found2, req);
        proof {
            assert(self.l0@.recalls(*req, at@, results_of(found0@)));
            assert(is_recall(
                self.l2@.docs,
                *req,
                raw_of(raw@),
                similar_of(*similar),
                results_of(found2@),
            ));
            recalled_entries_are_admitted(
                self.l0@,
                entries_of(l1_entries@),
                self.l2@.docs,
                *req,
                raw_of(raw@),
                similar_of(*similar),
                at@,
                results_of(r@),
            );
            assert forall|i: int| 0 <= i < r@.len() implies req.admits(
                (#[trigger] r@[i]).entry@,
            ) by {
                assert(results_of(r@)[i].entry == r@[i].entry@);
            }
        }
        r
    }

    /// The entry under a key in working memory, where its time of expiry has
    /// not passed; otherwise short-term memory is to be asked.
    pub fn get(&mut self, key: &str, at: Moment) -> (r: Option<Entry>)
        requires
            old(self).wf(),
        ensures
            final(self).wf(),
            match r {
                Some(e) => old(self).l0@.entries.contains_key(key@) && e@
                    == old(self).l0@.entries[key@] && !has_expired(e@, at@)
                    && final(self).l0@ == old(self).l0@.touched(key@),
                None => final(self).l0@ == old(self).l0@.without(key@) && (
                old(self).l0@.entries.contains_key(key@) ==> has_expired(
                    old(self).l0@.entries[key@],
                    at@,
                )),
            },
            old(self).l0@.uses_in_order() && old(self).l0@.clock < u64::MAX
                ==> final(self).l0@.uses_in_order(),
            final(self).l1 == old(self).l1,
            final(self).l2 == old(self).l2,
            final(self).l3 == old(self).l3,
    {
        match self.l0.get(key, at) {
            Some(entry) => Some((*entry).clone()),
            None => None,
        }
    }

    /// Reads the entry under a key, given the row of short-term memory where
    /// there is one: the entry of working memory where its time of expiry has
    /// not passed, otherwise the one that the row is. A row that is read counts
    /// as accessed then.
    pub fn read(&mut self, key: &str, row: Option<Row>, at: Moment) -> (r: Reading)
        requires
            old(self).wf(),
            row is Some ==> row->0@.key == key@ && has_valid_times(row->0@),
        ensures
            final(self).wf(),
            match r.entry {
                Some(e) => if old(self).l0@.is_live(key@, at@) {
                    e@ == old(self).l0@.entries[key@]
                } else {
                    row is Some && e@ == entry_of(row->0@)
                },
                None => !old(self).l0@.is_live(key@, at@) && row is None,
            },
            match r.accessed {
                Some(millis) => !old(self).l0@.is_live(key@, at@) && row is Some && millis
                    == at@.millis(),
                None => old(self).l0@.is_live(key@, at@) || row is None,
            },
            final(self).l0@ == (if old(self).l0@.is_live(key@, at@) {
                old(self).l0@.touched(key@)
            } else {
                old(self).l0@.without(key@)
            }),
            old(self).l0@.uses_in_order() && old(self).l0@.clock < u64::MAX
                ==> final(self).l0@.uses_in_order(),
            final(self).l1 == old(self).l1,
            final(self).l2 == old(self).l2,
            final(self).l3 == old(self).l3,
    {
        match self.get(key, at) {
            Some(entry) => Reading { entry: Some(entry), accessed: None },
            None => match row {
                Some(found) => Reading {
                    entry: Some(L1::get(&found)),
                    accessed: Some(at.millis()),
                },
                None => Reading { entry: None, accessed: None },
            },
        }
    }

    /// Forgets the entry under a key. Working memory no longer holds it on
    /// return; the event is for short-term memory and the layers that follow
    /// it.
    pub fn delete(&mut self, key: &str) -> (r: L1Event)
        requires
            old(self).wf(),
            old(self).l1.last_seq() < u64::MAX,
        ensures
            final(self).wf(),
            final(self).l0@ == old(self).l0@.without(key@),
            old(self).l0@.uses_in_order() ==> final(self).l0@.uses_in_order(),
            final(self).l1.last_seq() == old(self).l1.last_seq() + 1,
            match r {
                L1Event::Delete { key: k, seq } => k@ == key@ && seq == final(self).l1.last_seq(),
                L1Event::Upsert { .. } => false,
            },
            final(self).l2 == old(self).l2,
            final(self).l3 == old(self).l3,
    {
        let _removed: bool = self.l0.remove(key);
        self.l1.delete(key)
    }

    /// Counts and health of all layers, given the number of entries and the
    /// issue of short-term memory, the names in the directory of the archive
    /// and whether it is there.
    pub fn stats(
        &self,
        l1_entries: usize,
        l1_issue: Option<String>,
        archive_names: &Vec<String>,
        archive_exists: bool,
    ) -> (r: MemoryStats)
        requires
            self.wf(),
        ensures
            r.l0_entries == self.l0@.entries.len(),
            r.l1_entries == l1_entries,
            r.l2_entries == self.l2@.docs.len(),
            r.l2_vectors_cached == self.l2@.vectors.len(),
            r.l2_pending_vectors == self.l2@.pending.len(),
            r.l3_archived_files == dates_of(texts(archive_names@)).len(),
            health_of(r.layer_health@) == issues(optional_text(l1_issue), archive_exists),
    {
        let ghost l1_text = optional_text(l1_issue);
        let mut health: Vec<(&'static str, Option<String>)> = Vec::new();
        match l1_issue {
            Some(message) => {
                health.push(("l1", Some(message)));
            },
            None => {},
        }
        match self.l2.health_issue() {
            Some(message) => {
                health.push(("l2", Some(message)));
            },
            None => {},
        }
        match L3::health_issue(archive_exists) {
            Some(message) => {
                health.push(("l3", Some(message)));
            },
            None => {},
        }
        proof {
            assert(health_of(health@) =~= issues(l1_text, archive_exists));
        }
        MemoryStats {
            l0_entries: self.l0.len(),
            l1_entries,
            l2_entries: self.l2.len(),
            l2_vectors_cached: self.l2.vector_count(),
            l2_pending_vectors: self.l2.pending_count(),
            l3_archived_files: L3::count_archives(archive_names),
            layer_health: health,
        }
    }
}

/// What was remembered is what the next read of its key gives, from working
/// memory and from the row in short-term memory alike: the text, the source,
/// the importance and the layer that were given.
pub proof fn remembered_entry_is_read_back(
    before: Working,
    after: Working,
    kept: EntryModel,
    at: MomentModel,
    seq: u64,
)
    requires
        before.wf(),
        before.wrote(kept.key, kept, after),
    ensures
        after.entries.contains_key(kept.key),
        after.entries[kept.key] == kept,
        entry_of(row_of(kept.key, kept, at, seq)).value == kept.value,
        entry_of(row_of(kept.key, kept, at, seq)).key == kept.key,
        entry_of(row_of(kept.key, kept, at, seq)).id == kept.id,
        entry_of(row_of(kept.key, kept, at, seq)).source == kept.source,
        entry_of(row_of(kept.key, kept, at, seq)).importance == kept.importance,
        entry_of(row_of(kept.key, kept, at, seq)).layer == kept.layer,
        entry_of(row_of(kept.key, kept, at, seq)).created_at
            == kept.created_at.to_millis(),
{
    crate::l0::write_is_read_back(before, kept.key, kept, after);
    crate::l1::row_is_read_back(kept.key, kept, at, seq);
}

/// What was deleted is not there on the next read, and nothing else is gone.
pub proof fn deleted_entry_is_gone(before: Working, key: Seq<char>, other: Seq<char>)
    requires
        before.wf(),
    ensures
        before.without(key).wf(),
        !before.without(key).entries.contains_key(key),
        other != key ==> before.without(key).entries.contains_key(other)
            == before.entries.contains_key(other),
        other != key && before.entries.contains_key(other) ==> before.without(key).entries[other]
            == before.entries[other],
{
    let after = before.without(key);
    assert(after.entries.dom() =~= before.entries.dom().remove(key));
    assert(after.used.dom() =~= before.used.dom().remove(key));
}

/// Whether the layers may give these results for a request: working memory, the
/// rows and the index each find what the request admits, and that is merged.
pub open spec fn is_system_recall(
    memory: Working,
    rows: Seq<EntryModel>,
    docs: Map<Seq<char>, EntryModel>,
    req: RecallRequest,
    raw: Seq<(Seq<char>, i64)>,
    similar: Option<Seq<(Seq<char>, i64)>>,
    at: MomentModel,
    results: Seq<ResultModel>,
) -> bool {
    exists|found0: Seq<ResultModel>, found2: Seq<ResultModel>|
        {
            &&& #[trigger] memory.recalls(req, at, found0)
            &&& #[trigger] is_recall(docs, req, raw, similar, found2)
            &&& is_merge(
                found0,
                keyword_results(rows.filter(admitted_by(req)), lowercase(req.query@)),
                found2,
                req,
                results,
            )
        }
}

proof fn lemma_last_among(results: Seq<ResultModel>, id: Seq<char>)
    ensures
        match last_for(results, id) {
            Some(x) => results.contains(x) && x.entry.id == id,
            None => forall|i: int| 0 <= i < results.len() ==> (#[trigger] results[i]).entry.id != id,
        },
    decreases results.len(),
{
    if results.len() > 0 {
        let rest = results.drop_last();
        lemma_last_among(rest, id);
        assert(results =~= rest.push(results.last()));
        if results.last().entry.id == id {
            assert(results[results.len() - 1] == results.last());
        } else {
            match last_for(rest, id) {
                Some(x) => {
                    let k = rest.index_of(x);
                    assert(results[k] == x);
                },
                None => {
                    assert forall|i: int| 0 <= i < results.len() implies (
                    #[trigger] results[i]).entry.id != id by {
                        if i < rest.len() {
                            assert(rest[i] == results[i]);
                        }
                    }
                },
            }
        }
    }
}

proof fn lemma_first_among(results: Seq<ResultModel>, id: Seq<char>)
    ensures
        match first_for(results, id) {
            Some(x) => results.contains(x) && x.entry.id == id,
            None => forall|i: int| 0 <= i < results.len() ==> (#[trigger] results[i]).entry.id != id,
        },
    decreases results.len(),
{
    if results.len() > 0 {
        let rest = results.drop_last();
        lemma_first_among(rest, id);
        assert(results =~= rest.push(results.last()));
        match first_for(rest, id) {
            Some(x) => {
                let k = rest.index_of(x);
                assert(results[k] == x);
            },
            None => {
                if results.last().entry.id == id {
                    assert(results[results.len() - 1] == results.last());
                }
                assert forall|i: int|
                    0 <= i < results.len() && results.last().entry.id != id implies (
                #[trigger] results[i]).entry.id != id by {
                    if i < rest.len() {
                        assert(rest[i] == results[i]);
                    }
                }
            },
        }
    }
}

proof fn lemma_merged_among(
    l0: Seq<ResultModel>,
    l1: Seq<ResultModel>,
    l2: Seq<ResultModel>,
    id: Seq<char>,
)
    ensures
        match merged_for(l0, l1, l2, id) {
            Some(x) => (l0.contains(x) || l1.contains(x) || l2.contains(x)) && x.entry.id == id,
            None => true,
        },
        forall|i: int|
            0 <= i < l0.len() && (#[trigger] l0[i]).entry.id == id ==> merged_for(l0, l1, l2, id) is Some,
        forall|i: int|
            0 <= i < l1.len() && (#[trigger] l1[i]).entry.id == id ==> merged_for(l0, l1, l2, id) is Some,
        forall|i: int|
            0 <= i < l2.len() && (#[trigger] l2[i]).entry.id == id ==> merged_for(l0, l1, l2, id) is Some,
{
    lemma_last_among(l0, id);
    lemma_first_among(l1, id);
    lemma_first_among(l2, id);
}

/// Merging makes nothing up: every merged result is one that a layer found.
pub proof fn merged_results_were_found(
    l0: Seq<ResultModel>,
    l1: Seq<ResultModel>,
    l2: Seq<ResultModel>,
    req: RecallRequest,
    results: Seq<ResultModel>,
)
    requires
        is_merge(l0, l1, l2, req, results),
    ensures
        forall|i: int|
            0 <= i < results.len() ==> l0.contains(#[trigger] results[i]) || l1.contains(results[i])
                || l2.contains(results[i]),
{
    let all = choose|all: Seq<ResultModel>| #[trigger]
        is_merging(l0, l1, l2, req.keys_of(), all) && results == first_of(
            all,
            req.limit_of() as int,
        );
    assert forall|i: int| 0 <= i < results.len() implies l0.contains(#[trigger] results[i])
        || l1.contains(results[i]) || l2.contains(results[i]) by {
        assert(results[i] == all[i]);
        lemma_merged_among(l0, l1, l2, all[i].entry.id);
    }
}

/// Where the limit is not reached, nothing that a layer found is lost: each
/// identifier that was found comes with the result that stands for it.
pub proof fn nothing_found_is_lost(
    l0: Seq<ResultModel>,
    l1: Seq<ResultModel>,
    l2: Seq<ResultModel>,
    req: RecallRequest,
    results: Seq<ResultModel>,
    id: Seq<char>,
)
    requires
        is_merge(l0, l1, l2, req, results),
        results.len() < req.limit_of(),
        merged_for(l0, l1, l2, id) is Some,
    ensures
        exists|i: int|
            0 <= i < results.len() && merged_for(l0, l1, l2, id) == Some(#[trigger] results[i]),
{
    let all = choose|all: Seq<ResultModel>| #[trigger]
        is_merging(l0, l1, l2, req.keys_of(), all) && results == first_of(
            all,
            req.limit_of() as int,
        );
    let i = choose|i: int| 0 <= i < all.len() && (#[trigger] all[i]).entry.id == id;
    assert(results[i] == all[i]);
    assert(merged_for(l0, l1, l2, all[i].entry.id) == Some(all[i]));
}

/// Whether working memory holds an entry that answers a request.
pub open spec fn memory_answers(
    memory: Working,
    req: RecallRequest,
    at: MomentModel,
    entry: EntryModel,
) -> bool {
    exists|k: Seq<char>| #[trigger] memory.answers(k, req, at) && memory.entries[k] == entry
}

/// Whether an entry is an indexed document that a request admits.
pub open spec fn index_holds(
    docs: Map<Seq<char>, EntryModel>,
    req: RecallRequest,
    entry: EntryModel,
) -> bool {
    req.admits(entry) && exists|k: Seq<char>| #[trigger] docs.contains_key(k) && docs[k] == entry
}

proof fn lemma_found_in_memory(
    memory: Working,
    req: RecallRequest,
    at: MomentModel,
    found: Seq<ResultModel>,
)
    requires
        memory.recalls(req, at, found),
    ensures
        forall|i: int|
            0 <= i < found.len() ==> memory_answers(memory, req, at, (#[trigger] found[i]).entry),
{
    let order = choose|order: Seq<Seq<char>>| #[trigger]
        memory.ranks(req, at, order) && found == memory.results_for(
            first_of(order, req.limit_of() as int),
            crate::l0::words_asked(req),
        );
    assert forall|i: int| 0 <= i < found.len() implies memory_answers(
        memory,
        req,
        at,
        (#[trigger] found[i]).entry,
    ) by {
        let k = order[i];
        assert(first_of(order, req.limit_of() as int)[i] == k);
        assert(order.contains(k));
        assert(memory.answers(k, req, at));
    }
}

proof fn lemma_found_in_rows(rows: Seq<EntryModel>, query: Seq<char>)
    ensures
        forall|i: int|
            0 <= i < keyword_results(rows, query).len() ==> rows.contains(
                (#[trigger] keyword_results(rows, query)[i]).entry,
            ),
        forall|j: int|
            0 <= j < rows.len() && keyword_score(#[trigger] rows[j], query) is Some ==> exists|i: int|
                0 <= i < keyword_results(rows, query).len() && (#[trigger] keyword_results(
                    rows,
                    query,
                )[i]).entry == rows[j],
    decreases rows.len(),
{
    if rows.len() > 0 {
        let rest = rows.drop_last();
        let found = keyword_results(rows, query);
        let before = keyword_results(rest, query);
        lemma_found_in_rows(rest, query);
        assert forall|i: int| 0 <= i < found.len() implies rows.contains(
            (#[trigger] found[i]).entry,
        ) by {
            if i < before.len() {
                assert(found[i] == before[i]);
                let k = rest.index_of(before[i].entry);
                assert(rows[k] == before[i].entry);
            } else {
                assert(rows[rows.len() - 1] == found[i].entry);
            }
        }
        assert forall|j: int|
            0 <= j < rows.len() && keyword_score(#[trigger] rows[j], query) is Some implies exists|
            i: int,
        | 0 <= i < found.len() && (#[trigger] found[i]).entry == rows[j] by {
            if j < rest.len() {
                assert(rest[j] == rows[j]);
                let i = choose|i: int|
                    0 <= i < before.len() && (#[trigger] before[i]).entry == rest[j];
                assert(found[i].entry == rows[j]);
            } else {
                assert(found[found.len() - 1].entry == rows[j]);
            }
        }
    }
}

proof fn lemma_found_in_docs(
    docs: Map<Seq<char>, EntryModel>,
    req: RecallRequest,
    raw: Seq<(Seq<char>, i64)>,
    similar: Option<Seq<(Seq<char>, i64)>>,
    found: Seq<ResultModel>,
)
    requires
        is_recall(docs, req, raw, similar, found),
    ensures
        forall|i: int|
            0 <= i < found.len() ==> index_holds(docs, req, (#[trigger] found[i]).entry),
{
    let (scored, ranked) = choose|scored: Seq<(Seq<char>, u64)>, ranked: Seq<(Seq<char>, u64)>|
        #![trigger is_scoring(raw, similar, scored), is_ranking(scored.filter(held_by(docs, req)), ranked)]
        is_scoring(raw, similar, scored) && is_ranking(scored.filter(held_by(docs, req)), ranked)
            && found == first_of(
            as_results(docs, ranked, way_of(similar is Some)),
            req.limit_of() as int,
        );
    let held = scored.filter(held_by(docs, req));
    assert forall|i: int| 0 <= i < found.len() implies index_holds(
        docs,
        req,
        (#[trigger] found[i]).entry,
    ) by {
        assert(found[i] == as_results(docs, ranked, way_of(similar is Some))[i]);
        let order = choose|order: Seq<usize>| #[trigger]
            is_score_order(held, order) && ranked == picked(held, order);
        let x = held[order[i] as int];
        assert(ranked[i] == x);
        assert(held.contains(x));
        lemma_filter_within(scored, held_by(docs, req), x);
        assert(docs.contains_key(x.0));
    }
}

/// Every result is an entry that a layer holds and that the request admits: of
/// the agent, with all the tags and of the layer that it names.
pub proof fn recalled_entries_are_admitted(
    memory: Working,
    rows: Seq<EntryModel>,
    docs: Map<Seq<char>, EntryModel>,
    req: RecallRequest,
    raw: Seq<(Seq<char>, i64)>,
    similar: Option<Seq<(Seq<char>, i64)>>,
    at: MomentModel,
    results: Seq<ResultModel>,
)
    requires
        is_system_recall(memory, rows, docs, req, raw, similar, at, results),
    ensures
        results.len() <= req.limit_of(),
        forall|i: int| 0 <= i < results.len() ==> req.admits((#[trigger] results[i]).entry),
        forall|i: int|
            0 <= i < results.len() ==> memory_answers(
                memory,
                req,
                at,
                (#[trigger] results[i]).entry,
            ) || rows.contains(results[i].entry) || index_holds(docs, req, results[i].entry),
{
    let admitted_rows = rows.filter(admitted_by(req));
    let query = lowercase(req.query@);
    let found1 = keyword_results(admitted_rows, query);
    let (found0, found2) = choose|found0: Seq<ResultModel>, found2: Seq<ResultModel>|
        {
            &&& #[trigger] memory.recalls(req, at, found0)
            &&& #[trigger] is_recall(docs, req, raw, similar, found2)
            &&& is_merge(found0, found1, found2, req, results)
        };
    lemma_found_in_memory(memory, req, at, found0);
    lemma_found_in_rows(admitted_rows, query);
    lemma_found_in_docs(docs, req, raw, similar, found2);
    merged_results_were_found(found0, found1, found2, req, results);
    assert forall|i: int| 0 <= i < results.len() implies req.admits((#[trigger] results[i]).entry)
        && (memory_answers(memory, req, at, results[i].entry) || rows.contains(results[i].entry)
        || index_holds(docs, req, results[i].entry)) by {
        let x = results[i];
        if found0.contains(x) {
            let j = found0.index_of(x);
            assert(found0[j].entry == x.entry);
        } else if found1.contains(x) {
            let j = found1.index_of(x);
            assert(admitted_rows.contains(found1[j].entry));
            lemma_filter_within(rows, admitted_by(req), found1[j].entry);
        } else {
            let j = found2.index_of(x);
            assert(found2[j].entry == x.entry);
        }
    }
}

/// What was deleted is not recalled: where no layer holds an entry under a key,
/// no result has that key.
pub proof fn deleted_entry_is_not_recalled(
    memory: Working,
    rows: Seq<EntryModel>,
    docs: Map<Seq<char>, EntryModel>,
    req: RecallRequest,
    raw: Seq<(Seq<char>, i64)>,
    similar: Option<Seq<(Seq<char>, i64)>>,
    at: MomentModel,
    results: Seq<ResultModel>,
    key: Seq<char>,
)
    requires
        memory.is_keyed(),
        docs_keyed(docs),
        !memory.entries.contains_key(key),
        !docs.contains_key(key),
        forall|i: int| 0 <= i < rows.len() ==> (#[trigger] rows[i]).key != key,
        is_system_recall(memory, rows, docs, req, raw, similar, at, results),
    ensures
        forall|i: int| 0 <= i < results.len() ==> (#[trigger] results[i]).entry.key != key,
{
    recalled_entries_are_admitted(memory, rows, docs, req, raw, similar, at, results);
    assert forall|i: int| 0 <= i < results.len() implies (#[trigger] results[i]).entry.key != key by {
        let e = results[i].entry;
        if rows.contains(e) {
            let j = rows.index_of(e);
            assert(rows[j].key != key);
        }
    }
}

/// An entry of short-term memory that the request admits and that holds the
/// query is recalled, unless the limit is reached.
pub proof fn matching_row_is_recalled(
    memory: Working,
    rows: Seq<EntryModel>,
    docs: Map<Seq<char>, EntryModel>,
    req: RecallRequest,
    raw: Seq<(Seq<char>, i64)>,
    similar: Option<Seq<(Seq<char>, i64)>>,
    at: MomentModel,
    results: Seq<ResultModel>,
    j: int,
)
    requires
        is_system_recall(memory, rows, docs, req, raw, similar, at, results),
        results.len() < req.limit_of(),
        0 <= j < rows.len(),
        req.admits(rows[j]),
        ({
            let query = lowercase(req.query@);
            let text = lowercase(rows[j].value);
            let key = lowercase(rows[j].key);
            ||| exists|i: int|
                0 <= i && i + query.len() <= text.len() && #[trigger] text.subrange(
                    i,
                    i + query.len(),
                ) == query
            ||| exists|i: int|
                0 <= i && i + query.len() <= key.len() && #[trigger] key.subrange(
                    i,
                    i + query.len(),
                ) == query
        }),
    ensures
        exists|i: int| 0 <= i < results.len() && (#[trigger] results[i]).entry.id == rows[j].id,
{
    broadcast use vstd::seq_lib::group_filter_ensures;

    let admitted_rows = rows.filter(admitted_by(req));
    let query = lowercase(req.query@);
    let found1 = keyword_results(admitted_rows, query);
    let (found0, found2) = choose|found0: Seq<ResultModel>, found2: Seq<ResultModel>|
        {
            &&& #[trigger] memory.recalls(req, at, found0)
            &&& #[trigger] is_recall(docs, req, raw, similar, found2)
            &&& is_merge(found0, found1, found2, req, results)
        };
    parts_stand_at_places(lowercase(rows[j].value), query);
    parts_stand_at_places(lowercase(rows[j].key), query);
    lemma_found_in_rows(admitted_rows, query);
    assert(admitted_by(req)(rows[j]));
    assert(admitted_rows.contains(rows[j]));
    let m = admitted_rows.index_of(rows[j]);
    assert(keyword_score(admitted_rows[m], query) is Some);
    let i = choose|i: int| 0 <= i < found1.len() && (#[trigger] found1[i]).entry == rows[j];
    lemma_merged_among(found0, found1, found2, rows[j].id);
    assert(found1[i].entry.id == rows[j].id);
    nothing_found_is_lost(found0, found1, found2, req, results, rows[j].id);
}

/// An entry of working memory that answers the request is recalled, unless the
/// limit is reached: by the entries of working memory that answer, or by the
/// results.
pub proof fn matching_entry_is_recalled(
    memory: Working,
    rows: Seq<EntryModel>,
    docs: Map<Seq<char>, EntryModel>,
    req: RecallRequest,
    raw: Seq<(Seq<char>, i64)>,
    similar: Option<Seq<(Seq<char>, i64)>>,
    at: MomentModel,
    results: Seq<ResultModel>,
    key: Seq<char>,
)
    requires
        memory.wf(),
        memory.answering(req, at).len() <= req.limit_of(),
        memory.answers(key, req, at),
        is_system_recall(memory, rows, docs, req, raw, similar, at, results),
        results.len() < req.limit_of(),
    ensures
        exists|i: int|
            0 <= i < results.len() && (#[trigger] results[i]).entry.id == memory.entries[key].id,
{
    let id = memory.entries[key].id;
    let found1 = keyword_results(rows.filter(admitted_by(req)), lowercase(req.query@));
    let (found0, found2) = choose|found0: Seq<ResultModel>, found2: Seq<ResultModel>|
        {
            &&& #[trigger] memory.recalls(req, at, found0)
            &&& #[trigger] is_recall(docs, req, raw, similar, found2)
            &&& is_merge(found0, found1, found2, req, results)
        };
    let order = choose|order: Seq<Seq<char>>| #[trigger]
        memory.ranks(req, at, order) && found0 == memory.results_for(
            first_of(order, req.limit_of() as int),
            crate::l0::words_asked(req),
        );
    assert(order.contains(key));
    assert(order.len() <= memory.answering(req, at).len()) by {
        order.unique_seq_to_set();
        assert forall|k: Seq<char>| order.to_set().contains(k) implies memory.answering(
            req,
            at,
        ).contains(k) by {
            assert(order.contains(k));
            assert(memory.answers(k, req, at));
        }
        vstd::set_lib::lemma_len_subset(order.to_set(), memory.answering(req, at));
    }
    let j = order.index_of(key);
    assert(first_of(order, req.limit_of() as int) =~= order);
    assert(found0[j].entry.id == id);
    lemma_merged_among(found0, found1, found2, id);
    nothing_found_is_lost(found0, found1, found2, req, results, id);
}

/// A document of semantic memory that has a keyword score, and that the request
/// admits, is recalled unless the limit is reached.
pub proof fn matching_document_is_recalled(
    memory: Working,
    rows: Seq<EntryModel>,
    docs: Map<Seq<char>, EntryModel>,
    req: RecallRequest,
    raw: Seq<(Seq<char>, i64)>,
    at: MomentModel,
    results: Seq<ResultModel>,
    key: Seq<char>,
)
    requires
        is_system_recall(memory, rows, docs, req, raw, None, at, results),
        results.len() < req.limit_of(),
        raw.len() < req.limit_of(),
        docs.contains_key(key),
        req.admits(docs[key]),
        exists|i: int| 0 <= i < raw.len() && (#[trigger] raw[i]).0 == key,
    ensures
        exists|i: int| 0 <= i < results.len() && (#[trigger] results[i]).entry.id == docs[key].id,
{
    let found1 = keyword_results(rows.filter(admitted_by(req)), lowercase(req.query@));
    let (found0, found2) = choose|found0: Seq<ResultModel>, found2: Seq<ResultModel>|
        {
            &&& #[trigger] memory.recalls(req, at, found0)
            &&& #[trigger] is_recall(docs, req, raw, None, found2)
            &&& is_merge(found0, found1, found2, req, results)
        };
    recall_is_no_longer(docs, req, raw, found2);
    scored_document_is_recalled(docs, req, raw, None, found2, key);
    let j = choose|j: int| 0 <= j < found2.len() && (#[trigger] found2[j]).entry == docs[key];
    lemma_merged_among(found0, found1, found2, docs[key].id);
    assert(found2[j].entry.id == docs[key].id);
    nothing_found_is_lost(found0, found1, found2, req, results, docs[key].id);
}

} // verus!
