//! The workspace of an agent: its old notes, and daily Markdown files that
//! show what is remembered.

use crate::clock::{day_start, day_start_of, Moment, MomentModel, DAY_SECS};
use crate::common::{
    entries_of, results_of, Entry, EntryModel, Importance, Layer, RecallRequest, RecallResult,
    ResultModel,
};
use crate::config::optional_text;
use crate::ident::{is_small_hex, is_uuid, new_id};
use crate::notes::{
    are_log_lines, are_sections, is_md_file, log_lines, md_file, parse_log, parse_memory_md,
    sections_of,
};
use crate::text::{
    byte_prefix, chars_of, decimal_of, first_bytes, lemma_texts_push, lines, lines_of, number,
    starts, starts_with, string_of, texts, trim_end_matches, without_suffixes,
};
use vstd::hash_map::StringHashMap;
use vstd::prelude::*;
use vstd::slice::slice_subrange;
use vstd::string::*;

verus! {

broadcast use {vstd::hash_map::group_hash_map_axioms, vstd::slice::group_slice_axioms};

/// Days after which a daily file is removed.
pub const KEEP_DAYS: i64 = 30;

/// The entries of one date.
pub struct DayGroup {
    pub date: String,
    pub entries: Vec<Entry>,
}

/// Whether an entry is of the layer and was created on the date.
pub open spec fn on_day(entry: EntryModel, layer: Layer, day: Seq<char>) -> bool {
    entry.layer == layer && entry.created_at.date() == day
}

/// The entries of the layer and the date, in order.
pub open spec fn entries_on(
    entries: Seq<EntryModel>,
    layer: Layer,
    day: Seq<char>,
) -> Seq<EntryModel>
    decreases entries.len(),
{
    if entries.len() == 0 {
        Seq::empty()
    } else if on_day(entries.last(), layer, day) {
        entries_on(entries.drop_last(), layer, day).push(entries.last())
    } else {
        entries_on(entries.drop_last(), layer, day)
    }
}

/// Whether the groups are the entries of the layer by date: each date that has
/// an entry once, with all its entries in order.
pub open spec fn is_grouping(
    groups: Seq<DayGroup>,
    entries: Seq<EntryModel>,
    layer: Layer,
) -> bool {
    &&& forall|i: int|
        0 <= i < groups.len() ==> entries_of((#[trigger] groups[i]).entries@) == entries_on(
            entries,
            layer,
            groups[i].date@,
        ) && groups[i].entries@.len() > 0
    &&& forall|i: int, j: int|
        0 <= i < j < groups.len() ==> (#[trigger] groups[i]).date@ != (#[trigger] groups[j]).date@
    &&& forall|k: int|
        0 <= k < entries.len() && (#[trigger] entries[k]).layer == layer ==> exists|i: int|
            0 <= i < groups.len() && (#[trigger] groups[i]).date@ == entries[k].created_at.date()
}

/// The first eight bytes of an identifier.
pub open spec fn short_id(id: Seq<char>) -> Option<Seq<char>> {
    first_bytes(id, 8)
}

/// What a daily file says of one entry.
pub open spec fn day_entry(entry: EntryModel) -> Seq<char> {
    "## "@ + short_id(entry.id)->0 + "\n**Key:** `"@ + entry.key + "`\n**来源:** "@ + entry.source
        + " | **重要性:** "@ + entry.importance.title_of() + " | "@ + (match entry.layer {
        Layer::Public => "🟢 公共"@,
        Layer::Private => "🔒 私有"@,
    }) + "\n\n"@ + entry.value + "\n\n"@
}

/// What a daily file says of its entries.
pub open spec fn day_entries(entries: Seq<EntryModel>) -> Seq<char>
    decreases entries.len(),
{
    if entries.len() == 0 {
        Seq::empty()
    } else {
        day_entries(entries.drop_last()) + day_entry(entries.last())
    }
}

/// The text of the daily file of a date.
pub open spec fn day_text(day: Seq<char>, entries: Seq<EntryModel>) -> Seq<char> {
    "# 记忆 - "@ + day + "\n\n"@ + "共 "@ + decimal_of(entries.len()) + " 条记忆\n\n"@
        + day_entries(entries)
}

/// The key of a text of an agent: its layer, the agent, and the first eight
/// characters of an identifier that was drawn for it.
pub open spec fn agent_key(layer: Layer, agent: Seq<char>, fresh: Seq<char>) -> Seq<char> {
    layer.prefix_of() + ":agent:"@ + agent + ":"@ + fresh.take(8)
}

/// Whether a file is a daily file of a day that began more than thirty days
/// before the given point in time.
pub open spec fn is_outdated(name: Seq<char>, at: MomentModel) -> bool {
    is_md_file(name) && match day_start_of(name.take(name.len() - 3)) {
        Some(start) => (MomentModel { secs: start, nanos: 0 }).before(
            at.days_before(KEEP_DAYS as int),
        ),
        None => false,
    }
}

/// The outdated files among the names, in order.
pub open spec fn outdated_of(names: Seq<Seq<char>>, at: MomentModel) -> Seq<Seq<char>>
    decreases names.len(),
{
    if names.len() == 0 {
        Seq::empty()
    } else if is_outdated(names.last(), at) {
        outdated_of(names.drop_last(), at).push(names.last())
    } else {
        outdated_of(names.drop_last(), at)
    }
}

/// Whether a key starts with the prefix of a layer and a colon.
pub open spec fn key_in_layer(key: Seq<char>, layer: Option<Layer>) -> bool {
    match layer {
        Some(l) => starts(key, l.prefix_of() + ":"@),
        None => true,
    }
}

/// The results whose key is in the layer, in order.
pub open spec fn in_layer(results: Seq<ResultModel>, layer: Option<Layer>) -> Seq<ResultModel>
    decreases results.len(),
{
    if results.len() == 0 {
        Seq::empty()
    } else if key_in_layer(results.last().entry.key, layer) {
        in_layer(results.drop_last(), layer).push(results.last())
    } else {
        in_layer(results.drop_last(), layer)
    }
}

/// A list of daily logs, as mathematical values.
pub open spec fn logs_of(v: Seq<(String, String)>) -> Seq<(Seq<char>, Seq<char>)> {
    v.map_values(|x: (String, String)| (x.0@, x.1@))
}

/// Whether the entries are those of `MEMORY.md`, where there is one, and then
/// those of the daily logs, in order.
pub open spec fn is_workspace(
    entries: Seq<EntryModel>,
    memory_md: Option<Seq<char>>,
    logs: Seq<(Seq<char>, Seq<char>)>,
) -> bool
    decreases logs.len(),
{
    if logs.len() == 0 {
        match memory_md {
            Some(content) => are_sections(entries, sections_of(lines_of(content))),
            None => entries.len() == 0,
        }
    } else {
        let (name, content) = logs.last();
        let found = log_lines(lines_of(content));
        let rest = entries.len() - found.len();
        &&& rest >= 0
        &&& is_workspace(entries.take(rest), memory_md, logs.drop_last())
        &&& are_log_lines(entries.skip(rest), found, without_suffixes(name, ".md"@), name)
    }
}

/// The memory of a workspace.
pub struct OpenClawBridge {
    workspace: String,
}

impl OpenClawBridge {
    /// The directory of the workspace.
    pub closed spec fn root(&self) -> Seq<char> {
        self.workspace@
    }

    pub fn new(workspace: &str) -> (r: Self)
        ensures
            r.root() == workspace@,
    {
        OpenClawBridge { workspace: workspace.to_owned() }
    }

    /// The directory of the workspace.
    pub fn workspace(&self) -> (r: &str)
        ensures
            r@ == self.root(),
    {
        self.workspace.as_str()
    }

    /// The entries in the text of `MEMORY.md`.
    pub fn parse_memory_md(content: &str) -> (r: Vec<Entry>)
        ensures
            are_sections(entries_of(r@), sections_of(lines_of(content@))),
    {
        let chars = chars_of(content);
        let all = lines(chars.as_slice());
        parse_memory_md(&all)
    }

    /// The entries in the text of a daily log with the given file name.
    pub fn parse_daily_log(content: &str, source: &str) -> (r: Vec<Entry>)
        ensures
            are_log_lines(
                entries_of(r@),
                log_lines(lines_of(content@)),
                without_suffixes(source@, ".md"@),
                source@,
            ),
    {
        proof {
            reveal_strlit(".md");
        }
        let chars = chars_of(content);
        let all = lines(chars.as_slice());
        let name = chars_of(source);
        let ending = chars_of(".md");
        let day = string_of(trim_end_matches(name.as_slice(), ending.as_slice()));
        parse_log(&all, day.as_str(), source)
    }

    /// The entries in the old notes of a workspace: `MEMORY.md`, where there is
    /// one, and daily logs with their file names.
    pub fn load_workspace(memory_md: &Option<String>, logs: &Vec<(String, String)>) -> (r: Vec<
        Entry,
    >)
        ensures
            is_workspace(entries_of(r@), optional_text(*memory_md), logs_of(logs@)),
    {
        let mut r: Vec<Entry> = match memory_md {
            Some(content) => Self::parse_memory_md(content.as_str()),
            None => Vec::new(),
        };
        let n: usize = logs.len();
        let ghost all = logs_of(logs@);
        let ghost md = optional_text(*memory_md);
        proof {
            assert(all.take(0) =~= Seq::empty());
        }
        for i in 0..n
            invariant
                n == logs@.len(),
                all == logs_of(logs@),
                is_workspace(entries_of(r@), md, all.take(i as int)),
        {
            let ghost before = entries_of(r@);
            proof {
                assert(all.take(i + 1).drop_last() =~= all.take(i as int));
                assert(all.take(i + 1).last() == (logs@[i as int].0@, logs@[i as int].1@));
            }
            let mut found = Self::parse_daily_log(logs[i].1.as_str(), logs[i].0.as_str());
            let ghost added = entries_of(found@);
            let ghost r_before = r@;
            let ghost f_before = found@;
            r.append(&mut found);
            proof {
                assert(entries_of(r@) =~= before + added);
                let k = added.len();
                let whole = entries_of(r@);
                assert(whole.take(whole.len() - k) =~= before);
                assert(whole.skip(whole.len() - k) =~= added);
            }
        }
        proof {
            assert(all.take(n as int) =~= all);
        }
        r
    }

    /// The entries of a layer by date.
    pub fn group_by_date(entries: &Vec<Entry>, layer: Layer) -> (r: Vec<DayGroup>)
        ensures
            is_grouping(r@, entries_of(entries@), layer),
    {
        let n: usize = entries.len();
        let ghost all = entries_of(entries@);
        let mut place: StringHashMap<usize> = StringHashMap::new();
        let mut r: Vec<DayGroup> = Vec::new();
        for i in 0..n
            invariant
                n == entries@.len(),
                all == entries_of(entries@),
                is_grouping(r@, all.take(i as int), layer),
                forall|j: int|
                    0 <= j < r@.len() ==> place@.contains_key((#[trigger] r@[j]).date@)
                        && place@[r@[j].date@] == j,
                forall|d: Seq<char>| #[trigger]
                    place@.contains_key(d) ==> place@[d] < r@.len() && r@[place@[d] as int].date@
                        == d,
        {
            let ghost seen = all.take(i as int);
            let ghost more = all.take(i + 1);
            let ghost model = entries@[i as int]@;
            let ghost before = r@;
            proof {
                assert(more.drop_last() =~= seen);
                assert(more.last() == model);
            }
            if entries[i].layer == layer {
                let day = entries[i].created_at.to_date();
                let found: Option<usize> = match place.get(day.as_str()) {
                    Some(p) => Some(*p),
                    None => None,
                };
                match found {
                    Some(p) => {
                        let mut group = DayGroup { date: String::new(), entries: Vec::new() };
                        std::mem::swap(&mut r[p], &mut group);
                        let ghost old_entries = group.entries@;
                        group.entries.push(entries[i].clone());
                        proof {
                            assert(entries_of(group.entries@) =~= entries_of(old_entries).push(
                                model,
                            ));
                        }
                        std::mem::swap(&mut r[p], &mut group);
                        proof {
                            assert(r@.len() == before.len());
                            assert forall|j: int| 0 <= j < r@.len() implies (#[trigger] r@[j]).date@
                                == before[j].date@ by {}
                            assert forall|j: int| 0 <= j < r@.len() implies entries_of(
                                (#[trigger] r@[j]).entries@,
                            ) == entries_on(more, layer, r@[j].date@) && r@[j].entries@.len() > 0 by {
                                assert(entries_of(before[j].entries@) == entries_on(
                                    seen,
                                    layer,
                                    before[j].date@,
                                ));
                                if j != p {
                                    assert(before[j].date@ != before[p as int].date@) by {
                                        assert(place@[before[j].date@] == j);
                                    }
                                }
                            }
                        }
                    },
                    None => {
                        let mut only: Vec<Entry> = Vec::new();
                        only.push(entries[i].clone());
                        place.insert(day.clone(), r.len());
                        let ghost day_text = day@;
                        r.push(DayGroup { date: day, entries: only });
                        proof {
                            lemma_none_on(seen, layer, day_text, before);
                            assert(entries_of(only@) =~= Seq::empty().push(model));
                            assert forall|j: int| 0 <= j < r@.len() implies entries_of(
                                (#[trigger] r@[j]).entries@,
                            ) == entries_on(more, layer, r@[j].date@) && r@[j].entries@.len() > 0 by {
                                if j < before.len() {
                                    assert(r@[j] == before[j]);
                                    assert(entries_of(before[j].entries@) == entries_on(
                                        seen,
                                        layer,
                                        before[j].date@,
                                    ));
                                    assert(before[j].date@ != day_text);
                                }
                            }
                            assert forall|j: int| 0 <= j < r@.len() implies place@.contains_key(
                                (#[trigger] r@[j]).date@,
                            ) && place@[r@[j].date@] == j by {
                                if j < before.len() {
                                    assert(r@[j] == before[j]);
                                }
                            }
                            assert forall|a: int, b: int| 0 <= a < b < r@.len() implies (
                            #[trigger] r@[a]).date@ != (#[trigger] r@[b]).date@ by {
                                assert(place@[r@[a].date@] == a);
                                assert(place@[r@[b].date@] == b);
                            }
                        }
                    },
                }
            } else {
                proof {
                    assert forall|j: int| 0 <= j < r@.len() implies entries_of(
                        (#[trigger] r@[j]).entries@,
                    ) == entries_on(more, layer, r@[j].date@) && r@[j].entries@.len() > 0 by {
                        assert(entries_of(before[j].entries@) == entries_on(
                            seen,
                            layer,
                            before[j].date@,
                        ));
                    }
                }
            }
            proof {
                assert forall|k: int|
                    0 <= k < more.len() && (#[trigger] more[k]).layer == layer implies exists|
                        j: int,
                    |
                    0 <= j < r@.len() && (#[trigger] r@[j]).date@
                        == more[k].created_at.date() by {
                    let d = more[k].created_at.date();
                    if k < i {
                        assert(more[k] == seen[k]);
                        let j = choose|j: int|
                            0 <= j < before.len() && (#[trigger] before[j]).date@ == d;
                        assert(r@[j].date@ == d);
                    } else {
                        assert(more[k] == model);
                        assert(place@.contains_key(d));
                        assert(r@[place@[d] as int].date@ == d);
                    }
                }
            }
        }
        proof {
            assert(all.take(n as int) =~= all);
        }
        r
    }

    /// What a daily file says of one entry.
    fn daily_entry(entry: &Entry) -> (r: String)
        requires
            short_id(entry.id@) is Some,
        ensures
            r@ == day_entry(entry@),
    {
        let id = chars_of(entry.id.as_str());
        let short: String = match byte_prefix(id.as_slice(), 8) {
            Some(s) => s,
            None => String::new(),
        };
        let tag: &str = match entry.layer {
            Layer::Public => "🟢 公共",
            Layer::Private => "🔒 私有",
        };
        let mut r = "## ".to_owned();
        r.append(short.as_str());
        r.append("\n**Key:** `");
        r.append(entry.key.as_str());
        r.append("`\n**来源:** ");
        r.append(entry.source.as_str());
        r.append(" | **重要性:** ");
        r.append(entry.importance.title());
        r.append(" | ");
        r.append(tag);
        r.append("\n\n");
        r.append(entry.value.as_str());
        r.append("\n\n");
        r
    }

    /// The text of the daily file of a date.
    pub fn daily_file(day: &str, entries: &Vec<Entry>) -> (r: String)
        requires
            forall|i: int|
                0 <= i < entries@.len() ==> short_id(#[trigger] entries@[i].id@) is Some,
        ensures
            r@ == day_text(day@, entries_of(entries@)),
    {
        let n: usize = entries.len();
        let ghost all = entries_of(entries@);
        let mut r = "# 记忆 - ".to_owned();
        r.append(day);
        r.append("\n\n");
        r.append("共 ");
        r.append(number(n as u64).as_str());
        r.append(" 条记忆\n\n");
        let ghost start = r@;
        proof {
            assert(all.take(0) =~= Seq::empty());
            assert(start + day_entries(all.take(0)) =~= start);
        }
        for i in 0..n
            invariant
                n == entries@.len(),
                all == entries_of(entries@),
                forall|k: int|
                    0 <= k < entries@.len() ==> short_id(#[trigger] entries@[k].id@) is Some,
                r@ == start + day_entries(all.take(i as int)),
        {
            proof {
                assert(all.take(i + 1).drop_last() =~= all.take(i as int));
                assert(all.take(i + 1).last() == entries@[i as int]@);
                assert(short_id(entries@[i as int].id@) is Some);
            }
            let text = Self::daily_entry(&entries[i]);
            r.append(text.as_str());
            proof {
                assert(r@ =~= start + day_entries(all.take(i + 1)));
            }
        }
        proof {
            assert(all.take(n as int) =~= all);
        }
        r
    }

    /// Whether the first eight bytes of an identifier are a text.
    pub fn has_short_id(id: &str) -> (r: bool)
        ensures
            r == (short_id(id@) is Some),
    {
        let chars = chars_of(id);
        match byte_prefix(chars.as_slice(), 8) {
            Some(_) => true,
            None => false,
        }
    }

    /// The daily files among the names that are outdated at a point in time.
    pub fn outdated_files(names: &Vec<String>, at: Moment) -> (r: Vec<String>)
        ensures
            texts(r@) == outdated_of(texts(names@), at@),
    {
        let n: usize = names.len();
        let ghost all = texts(names@);
        let cutoff: i64 = at.secs() - KEEP_DAYS * DAY_SECS;
        let nanos: u32 = at.nanos();
        let mut r: Vec<String> = Vec::new();
        proof {
            assert(texts(r@) =~= outdated_of(all.take(0), at@));
        }
        for i in 0..n
            invariant
                n == names@.len(),
                all == texts(names@),
                cutoff == at@.secs - KEEP_DAYS * DAY_SECS,
                nanos == at@.nanos,
                texts(r@) == outdated_of(all.take(i as int), at@),
        {
            proof {
                assert(all.take(i + 1).drop_last() =~= all.take(i as int));
                assert(all.take(i + 1).last() == names@[i as int]@);
            }
            let old: bool = if md_file(names[i].as_str()) {
                let chars = chars_of(names[i].as_str());
                let len: usize = chars.len();
                let stem = string_of(slice_subrange(chars.as_slice(), 0, len - 3));
                proof {
                    assert(stem@ =~= names@[i as int]@.take(len - 3));
                }
                match day_start(stem.as_str()) {
                    Some(start) => start < cutoff || (start == cutoff && nanos > 0),
                    None => false,
                }
            } else {
                false
            };
            if old {
                let name = names[i].clone();
                proof {
                    lemma_texts_push(r@, name);
                }
                r.push(name);
            }
        }
        proof {
            assert(all.take(n as int) =~= all);
        }
        r
    }

    /// An entry with the given text, under a fresh key of the agent.
    pub fn remember_text(
        value: &str,
        importance: Importance,
        tags: Vec<String>,
        agent_id: &str,
        layer: Layer,
    ) -> (r: Entry)
        ensures
            is_uuid(r.id@),
            r.value@ == value@,
            r.importance == importance,
            texts(r.tags@) == texts(tags@),
            r.source@ == agent_id@,
            r.layer == layer,
            r.created_at@.is_valid(),
            r.last_accessed@.is_valid(),
            r.expires_at is None,
            exists|tail: Seq<char>|
                tail.len() == 8 && (forall|i: int|
                    0 <= i < 8 ==> is_small_hex(#[trigger] tail[i])) && r.key@ == #[trigger] (
                layer.prefix_of() + ":agent:"@ + agent_id@ + ":"@ + tail),
    {
        let fresh = new_id();
        proof {
            let tail = fresh@.take(8);
            assert forall|i: int| 0 <= i < 8 implies is_small_hex(#[trigger] tail[i]) by {
                assert(tail[i] == fresh@[i]);
            }
        }
        Self::agent_entry(
            fresh.as_str(),
            new_id(),
            value,
            importance,
            tags,
            agent_id,
            layer,
            Moment::now(),
        )
    }

    /// An entry with the given text and identifier, created at a point in time,
    /// under the key of the agent that ends in the first eight characters of
    /// `fresh`. Keys differ where these characters do.
    pub fn agent_entry(
        fresh: &str,
        id: String,
        value: &str,
        importance: Importance,
        tags: Vec<String>,
        agent_id: &str,
        layer: Layer,
        at: Moment,
    ) -> (r: Entry)
        requires
            is_uuid(fresh@),
        ensures
            r.key@ == agent_key(layer, agent_id@, fresh@),
            r.id@ == id@,
            r.value@ == value@,
            r.importance == importance,
            texts(r.tags@) == texts(tags@),
            r.source@ == agent_id@,
            r.layer == layer,
            r.created_at@ == at@,
            r.last_accessed@ == at@,
            r.expires_at is None,
    {
        let chars = chars_of(fresh);
        let tail = string_of(slice_subrange(chars.as_slice(), 0, 8));
        let mut key = layer.prefix().to_owned();
        key.append(":agent:");
        key.append(agent_id);
        key.append(":");
        key.append(tail.as_str());
        proof {
            assert(tail@ =~= fresh@.take(8));
        }
        Entry {
            id,
            key,
            value: value.to_owned(),
            importance,
            tags,
            source: agent_id.to_owned(),
            layer,
            created_at: at,
            last_accessed: at,
            expires_at: None,
        }
    }

    /// The request for a query: up to ten results.
    pub fn request(query: &str, layer: Option<Layer>, semantic: bool) -> (r: RecallRequest)
        ensures
            r.query@ == query@,
            r.keys is None,
            r.agent_id is None,
            r.tags is None,
            r.limit == Some(10usize),
            r.layer == layer,
            r.semantic == semantic,
    {
        RecallRequest {
            query: query.to_owned(),
            keys: None,
            agent_id: None,
            tags: None,
            limit: Some(10),
            layer,
            semantic,
        }
    }

    /// The results whose key is in the layer.
    pub fn recall(results: &Vec<RecallResult>, layer: Option<Layer>) -> (r: Vec<RecallResult>)
        ensures
            results_of(r@) == in_layer(results_of(results@), layer),
    {
        let n: usize = results.len();
        let ghost all = results_of(results@);
        let mut r: Vec<RecallResult> = Vec::new();
        proof {
            assert(results_of(r@) =~= in_layer(all.take(0), layer));
        }
        for i in 0..n
            invariant
                n == results@.len(),
                all == results_of(results@),
                results_of(r@) == in_layer(all.take(i as int), layer),
        {
            proof {
                assert(all.take(i + 1).drop_last() =~= all.take(i as int));
                assert(all.take(i + 1).last() == results@[i as int]@);
            }
            let keep: bool = match layer {
                Some(l) => {
                    let prefix = l.prefix().to_owned().concat(":");
                    let key = chars_of(results[i].entry.key.as_str());
                    starts_with(key.as_slice(), prefix.as_str())
                },
                None => true,
            };
            if keep {
                let ghost before = r@;
                r.push(results[i].clone());
                proof {
                    assert(results_of(r@) =~= results_of(before).push(results@[i as int]@));
                }
            }
        }
        proof {
            assert(all.take(n as int) =~= all);
        }
        r
    }
}

proof fn lemma_none_on(
    entries: Seq<EntryModel>,
    layer: Layer,
    day: Seq<char>,
    groups: Seq<DayGroup>,
)
    requires
        forall|k: int|
            0 <= k < entries.len() && (#[trigger] entries[k]).layer == layer ==> exists|i: int|
                0 <= i < groups.len() && (#[trigger] groups[i]).date@
                    == entries[k].created_at.date(),
        forall|i: int| 0 <= i < groups.len() ==> (#[trigger] groups[i]).date@ != day,
    ensures
        entries_on(entries, layer, day) == Seq::<EntryModel>::empty(),
    decreases entries.len(),
{
    if entries.len() > 0 {
        let rest = entries.drop_last();
        assert forall|k: int|
            0 <= k < rest.len() && (#[trigger] rest[k]).layer == layer implies exists|i: int|
            0 <= i < groups.len() && (#[trigger] groups[i]).date@ == rest[k].created_at.date() by {
            assert(rest[k] == entries[k]);
        }
        lemma_none_on(rest, layer, day, groups);
        let last = entries[entries.len() - 1];
        if on_day(last, layer, day) {
            let i = choose|i: int|
                0 <= i < groups.len() && (#[trigger] groups[i]).date@ == last.created_at.date();
            assert(groups[i].date@ == day);
        }
    }
}

/// Two texts of an agent stand under one key only where the identifiers that
/// were drawn for them begin alike.
pub proof fn agent_keys_differ(layer: Layer, agent: Seq<char>, one: Seq<char>, other: Seq<char>)
    requires
        is_uuid(one),
        is_uuid(other),
    ensures
        agent_key(layer, agent, one) == agent_key(layer, agent, other) <==> one.take(8)
            == other.take(8),
{
    let prefix = layer.prefix_of() + ":agent:"@ + agent + ":"@;
    let a = agent_key(layer, agent, one);
    let b = agent_key(layer, agent, other);
    assert(a.skip(prefix.len() as int) =~= one.take(8));
    assert(b.skip(prefix.len() as int) =~= other.take(8));
}

/// A key that was made for an agent in a layer passes the filter of that
/// layer.
pub proof fn agent_key_is_in_its_layer(layer: Layer, agent: Seq<char>, tail: Seq<char>)
    ensures
        key_in_layer(layer.prefix_of() + ":agent:"@ + agent + ":"@ + tail, Some(layer)),
{
    reveal_strlit(":");
    reveal_strlit(":agent:");
    let prefix = layer.prefix_of() + ":"@;
    let key = layer.prefix_of() + ":agent:"@ + agent + ":"@ + tail;
    assert(key.subrange(0, prefix.len() as int) =~= prefix);
}

} // verus!
