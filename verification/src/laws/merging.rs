//! What merging the results of the layers promises.

use crate::clock::MomentModel;
use crate::common::{admitted_by, EntryModel, RecallRequest, ResultModel};
use crate::fusion::{is_fusion, is_ranking, names, ranking_falls};
use crate::l0::Working;
use crate::l1::keyword_results;
use crate::l2::{
    as_results, held_by, is_recall, is_scoring, raw_shares_of, scored_document_is_recalled, way_of,
    BM25_WEIGHT,
};
use crate::laws::ranking::lists_name_their_keys;
use crate::system::{
    first_for, is_merge, is_merging, is_system_recall, issues, last_for, merged_for,
};
use crate::text::{first_of, lowercase};
use vstd::prelude::*;

verus! {

proof fn lemma_last(results: Seq<ResultModel>, i: int)
    requires
        0 <= i < results.len(),
        forall|j: int|
            i < j < results.len() ==> (#[trigger] results[j]).entry.id != results[i].entry.id,
    ensures
        last_for(results, results[i].entry.id) == Some(results[i]),
    decreases results.len(),
{
    let n = results.len() - 1;
    if i < n {
        let rest = results.drop_last();
        assert(results[n].entry.id != results[i].entry.id);
        assert forall|j: int| i < j < rest.len() implies (#[trigger] rest[j]).entry.id
            != rest[i].entry.id by {
            assert(results[j].entry.id != results[i].entry.id);
        }
        lemma_last(rest, i);
    }
}

proof fn lemma_none(results: Seq<ResultModel>, id: Seq<char>)
    requires
        forall|j: int| 0 <= j < results.len() ==> (#[trigger] results[j]).entry.id != id,
    ensures
        last_for(results, id) is None,
        first_for(results, id) is None,
    decreases results.len(),
{
    if results.len() > 0 {
        let rest = results.drop_last();
        assert(results[results.len() - 1].entry.id != id);
        assert forall|j: int| 0 <= j < rest.len() implies (#[trigger] rest[j]).entry.id != id by {
            assert(results[j].entry.id != id);
        }
        lemma_none(rest, id);
    }
}

proof fn lemma_first(results: Seq<ResultModel>, i: int)
    requires
        0 <= i < results.len(),
        forall|j: int| 0 <= j < i ==> (#[trigger] results[j]).entry.id != results[i].entry.id,
    ensures
        first_for(results, results[i].entry.id) == Some(results[i]),
    decreases results.len(),
{
    let n = results.len() - 1;
    let rest = results.drop_last();
    if i < n {
        assert forall|j: int| 0 <= j < i implies (#[trigger] rest[j]).entry.id
            != rest[i].entry.id by {
            assert(results[j].entry.id != results[i].entry.id);
        }
        lemma_first(rest, i);
    } else {
        assert forall|j: int| 0 <= j < rest.len() implies (#[trigger] rest[j]).entry.id
            != results[i].entry.id by {
            assert(results[j].entry.id != results[i].entry.id);
        }
        lemma_none(rest, results[i].entry.id);
    }
}

/// The result of an identifier that several layers found is that of working
/// memory, the last one of it; without one that of short-term memory, and
/// without one that of semantic memory, the first one of each.
pub proof fn nearer_layers_are_preferred(
    l0: Seq<ResultModel>,
    l1: Seq<ResultModel>,
    l2: Seq<ResultModel>,
    i: int,
)
    ensures
        0 <= i < l0.len() && (forall|j: int|
            i < j < l0.len() ==> (#[trigger] l0[j]).entry.id != l0[i].entry.id) ==> merged_for(
            l0,
            l1,
            l2,
            l0[i].entry.id,
        ) == Some(l0[i]),
        0 <= i < l1.len() && (forall|j: int|
            0 <= j < i ==> (#[trigger] l1[j]).entry.id != l1[i].entry.id) && (forall|j: int|
            0 <= j < l0.len() ==> (#[trigger] l0[j]).entry.id != l1[i].entry.id) ==> merged_for(
            l0,
            l1,
            l2,
            l1[i].entry.id,
        ) == Some(l1[i]),
        0 <= i < l2.len() && (forall|j: int|
            0 <= j < i ==> (#[trigger] l2[j]).entry.id != l2[i].entry.id) && (forall|j: int|
            0 <= j < l0.len() ==> (#[trigger] l0[j]).entry.id != l2[i].entry.id) && (forall|j: int|
            0 <= j < l1.len() ==> (#[trigger] l1[j]).entry.id != l2[i].entry.id) ==> merged_for(
            l0,
            l1,
            l2,
            l2[i].entry.id,
        ) == Some(l2[i]),
{
    if 0 <= i < l0.len() && (forall|j: int|
        i < j < l0.len() ==> (#[trigger] l0[j]).entry.id != l0[i].entry.id) {
        lemma_last(l0, i);
    }
    if 0 <= i < l1.len() && (forall|j: int|
        0 <= j < i ==> (#[trigger] l1[j]).entry.id != l1[i].entry.id) && (forall|j: int|
        0 <= j < l0.len() ==> (#[trigger] l0[j]).entry.id != l1[i].entry.id) {
        lemma_none(l0, l1[i].entry.id);
        lemma_first(l1, i);
    }
    if 0 <= i < l2.len() && (forall|j: int|
        0 <= j < i ==> (#[trigger] l2[j]).entry.id != l2[i].entry.id) && (forall|j: int|
        0 <= j < l0.len() ==> (#[trigger] l0[j]).entry.id != l2[i].entry.id) && (forall|j: int|
        0 <= j < l1.len() ==> (#[trigger] l1[j]).entry.id != l2[i].entry.id) {
        lemma_none(l0, l2[i].entry.id);
        lemma_none(l1, l2[i].entry.id);
        lemma_first(l2, i);
    }
}

/// Nothing stands for an identifier that no layer found.
pub proof fn what_no_layer_found_is_not_there(
    l0: Seq<ResultModel>,
    l1: Seq<ResultModel>,
    l2: Seq<ResultModel>,
    id: Seq<char>,
)
    requires
        forall|j: int| 0 <= j < l0.len() ==> (#[trigger] l0[j]).entry.id != id,
        forall|j: int| 0 <= j < l1.len() ==> (#[trigger] l1[j]).entry.id != id,
        forall|j: int| 0 <= j < l2.len() ==> (#[trigger] l2[j]).entry.id != id,
    ensures
        merged_for(l0, l1, l2, id) is None,
{
    lemma_none(l0, id);
    lemma_none(l1, id);
    lemma_none(l2, id);
}

/// Merged results are no more than the request allows. Each identifier comes
/// once, with the result that stands for it; entries whose keys the request
/// names come before the others, and within both groups the higher score comes
/// first. What is left out comes after all that is there, and only where the
/// limit is reached.
pub proof fn merged_results_are_the_first(
    l0: Seq<ResultModel>,
    l1: Seq<ResultModel>,
    l2: Seq<ResultModel>,
    req: RecallRequest,
    results: Seq<ResultModel>,
    id: Seq<char>,
)
    requires
        is_merge(l0, l1, l2, req, results),
    ensures
        results.len() <= req.limit_of(),
        forall|i: int|
            0 <= i < results.len() ==> merged_for(l0, l1, l2, (#[trigger] results[i]).entry.id)
                == Some(results[i]),
        forall|i: int, j: int|
            0 <= i < j < results.len() ==> {
                let a = #[trigger] results[i];
                let b = #[trigger] results[j];
                let first = req.keys_of();
                &&& a.entry.id != b.entry.id
                &&& first.contains(b.entry.key) ==> first.contains(a.entry.key)
                &&& first.contains(a.entry.key) == first.contains(b.entry.key) ==> a.score
                    >= b.score
            },
        merged_for(l0, l1, l2, id) is Some && (forall|i: int|
            0 <= i < results.len() ==> (#[trigger] results[i]).entry.id != id) ==> {
            &&& results.len() == req.limit_of()
            &&& forall|i: int|
                0 <= i < results.len() ==> {
                    let a = #[trigger] results[i];
                    let b = merged_for(l0, l1, l2, id)->0;
                    let first = req.keys_of();
                    &&& first.contains(b.entry.key) ==> first.contains(a.entry.key)
                    &&& first.contains(a.entry.key) == first.contains(b.entry.key) ==> a.score
                        >= b.score
                }
        },
{
    let all = choose|all: Seq<ResultModel>| #[trigger]
        is_merging(l0, l1, l2, req.keys_of(), all) && results == first_of(
            all,
            req.limit_of() as int,
        );
    assert forall|i: int| 0 <= i < results.len() implies #[trigger] results[i] == all[i] by {}
    if merged_for(l0, l1, l2, id) is Some && (forall|i: int|
        0 <= i < results.len() ==> (#[trigger] results[i]).entry.id != id) {
        let m = choose|m: int| 0 <= m < all.len() && (#[trigger] all[m]).entry.id == id;
        assert(merged_for(l0, l1, l2, all[m].entry.id) == Some(all[m]));
        if m < results.len() {
            assert(results[m].entry.id == id);
        }
        assert(results.len() < all.len());
    }
}

/// A layer is reported exactly where it has an issue: short-term memory with the
/// message given, and the archive where its directory is missing.
pub proof fn layers_with_issues_are_reported(l1_issue: Option<Seq<char>>, archive_exists: bool)
    ensures
        l1_issue is None && archive_exists ==> issues(l1_issue, archive_exists).len() == 0,
        l1_issue is Some ==> issues(l1_issue, archive_exists).contains(("l1"@, l1_issue)),
        !archive_exists ==> issues(l1_issue, archive_exists).contains(
            ("l3"@, Some("archive directory missing"@)),
        ),
        issues(l1_issue, archive_exists).len() == (if l1_issue is Some {
            1int
        } else {
            0
        }) + (if archive_exists {
            0int
        } else {
            1
        }),
{
    let all = issues(l1_issue, archive_exists);
    if l1_issue is Some {
        assert(all[0] == ("l1"@, l1_issue));
    }
    if !archive_exists {
        assert(all[all.len() - 1] == ("l3"@, Some("archive directory missing"@)));
    }
}

/// The layers together recall what working memory recalls, the rows that the
/// request admits and that hold the query, and the documents behind the scores,
/// merged.
pub proof fn layers_are_asked_and_merged(
    memory: Working,
    rows: Seq<EntryModel>,
    docs: Map<Seq<char>, EntryModel>,
    req: RecallRequest,
    raw: Seq<(Seq<char>, i64)>,
    similar: Option<Seq<(Seq<char>, i64)>>,
    at: MomentModel,
    results: Seq<ResultModel>,
)
    requires
        is_system_recall(memory, rows, docs, req, raw, similar, at, results),
    ensures
        exists|found0: Seq<ResultModel>, found2: Seq<ResultModel>|
            {
                &&& #[trigger] memory.recalls(req, at, found0)
                &&& #[trigger] is_recall(docs, req, raw, similar, found2)
                &&& is_merge(
                    found0,
                    keyword_results(
                        rows.filter(|e: EntryModel| req.admits(e)),
                        lowercase(req.query@),
                    ),
                    found2,
                    req,
                    results,
                )
            },
{
    assert(admitted_by(req) =~= (|e: EntryModel| req.admits(e)));
}

proof fn lemma_first_is_there(results: Seq<ResultModel>, i: int)
    requires
        0 <= i < results.len(),
    ensures
        first_for(results, results[i].entry.id) is Some,
    decreases results.len(),
{
    if i < results.len() - 1 {
        lemma_first_is_there(results.drop_last(), i);
    }
}

proof fn lemma_fused_len(
    keyword: Seq<(Seq<char>, i64)>,
    similar: Seq<(Seq<char>, i64)>,
    weight: int,
    fused: Seq<(Seq<char>, u64)>,
)
    requires
        is_fusion(keyword, similar, weight, fused),
    ensures
        fused.len() <= keyword.len() + similar.len(),
{
    let a = keyword.map_values(|x: (Seq<char>, i64)| x.0);
    let b = similar.map_values(|x: (Seq<char>, i64)| x.0);
    let f = fused.map_values(|x: (Seq<char>, u64)| x.0);
    assert(f.no_duplicates()) by {
        assert forall|i: int, j: int| 0 <= i < f.len() && 0 <= j < f.len() && i != j implies f[i]
            != f[j] by {
            if i < j {
                assert(fused[i].0 != fused[j].0);
            } else {
                assert(fused[j].0 != fused[i].0);
            }
        }
    }
    f.unique_seq_to_set();
    a.lemma_cardinality_of_set();
    b.lemma_cardinality_of_set();
    let both = a.to_set().union(b.to_set());
    vstd::set_lib::lemma_set_disjoint_lens(a.to_set(), b.to_set().difference(a.to_set()));
    assert(both =~= a.to_set().union(b.to_set().difference(a.to_set())));
    vstd::set_lib::lemma_len_subset(b.to_set().difference(a.to_set()), b.to_set());
    assert(f.to_set().subset_of(both)) by {
        assert forall|k: Seq<char>| f.to_set().contains(k) implies both.contains(k) by {
            let i = choose|i: int| 0 <= i < f.len() && f[i] == k;
            assert(fused[i].0 == k);
            lists_name_their_keys(keyword, k);
            lists_name_their_keys(similar, k);
            assert(names(keyword, fused[i].0) || names(similar, fused[i].0));
        }
    }
    vstd::set_lib::lemma_len_subset(f.to_set(), both);
}

/// A document that the request admits and that is similar to the query, or holds
/// a word of it, is recalled by the layers together, unless the limit is reached:
/// by the scores or by the results.
pub proof fn similar_document_is_recalled(
    memory: Working,
    rows: Seq<EntryModel>,
    docs: Map<Seq<char>, EntryModel>,
    req: RecallRequest,
    raw: Seq<(Seq<char>, i64)>,
    similar: Seq<(Seq<char>, i64)>,
    at: MomentModel,
    results: Seq<ResultModel>,
    key: Seq<char>,
)
    requires
        is_system_recall(memory, rows, docs, req, raw, Some(similar), at, results),
        results.len() < req.limit_of(),
        raw.len() + similar.len() < req.limit_of(),
        docs.contains_key(key),
        req.admits(docs[key]),
        (exists|i: int| 0 <= i < similar.len() && (#[trigger] similar[i]).0 == key) || (exists|
            i: int,
        | 0 <= i < raw.len() && (#[trigger] raw[i]).0 == key),
    ensures
        exists|i: int| 0 <= i < results.len() && (#[trigger] results[i]).entry.id == docs[key].id,
{
    let found1 = keyword_results(rows.filter(admitted_by(req)), lowercase(req.query@));
    let (found0, found2) = choose|found0: Seq<ResultModel>, found2: Seq<ResultModel>|
        {
            &&& #[trigger] memory.recalls(req, at, found0)
            &&& #[trigger] is_recall(docs, req, raw, Some(similar), found2)
            &&& is_merge(found0, found1, found2, req, results)
        };
    lemma_recall_len(docs, req, raw, similar, found2);
    scored_document_is_recalled(docs, req, raw, Some(similar), found2, key);
    let j = choose|j: int| 0 <= j < found2.len() && (#[trigger] found2[j]).entry == docs[key];
    lemma_first_is_there(found2, j);
    let id = docs[key].id;
    assert(merged_for(found0, found1, found2, id) is Some);
    merged_results_are_the_first(found0, found1, found2, req, results, id);
}

proof fn lemma_recall_len(
    docs: Map<Seq<char>, EntryModel>,
    req: RecallRequest,
    raw: Seq<(Seq<char>, i64)>,
    similar: Seq<(Seq<char>, i64)>,
    found: Seq<ResultModel>,
)
    requires
        is_recall(docs, req, raw, Some(similar), found),
    ensures
        found.len() <= raw.len() + similar.len(),
{
    let s = Some(similar);
    let (scored, ranked) = choose|scored: Seq<(Seq<char>, u64)>, ranked: Seq<(Seq<char>, u64)>|
        #![trigger is_scoring(raw, s, scored), is_ranking(scored.filter(held_by(docs, req)), ranked)]
        is_scoring(raw, s, scored) && is_ranking(scored.filter(held_by(docs, req)), ranked)
            && found == first_of(as_results(docs, ranked, way_of(true)), req.limit_of() as int);
    lemma_fused_len(raw_shares_of(raw), similar, BM25_WEIGHT as int, scored);
    ranking_falls(scored.filter(held_by(docs, req)), ranked);
    scored.lemma_filter_len(held_by(docs, req));
}

} // verus!
