//! What reading a workspace, showing it and moving it promise.

use crate::clock::{date_of, day_number_of, day_start_of, rfc3339_of, MomentModel};
use crate::common::{entries_of, EntryModel, Importance, Layer, ResultModel};
use crate::laws::notes::long_lines_of_a_log_are_kept;
use crate::laws::replies::first_bytes_are_whole_characters;
use crate::laws::text::{part_occurs, parts_stand_at_places};
use crate::legacy::legacy_row;
use crate::migrate::{
    day_of, error_lines, failed_writes, failures_in, old_files, reports_file, went_well,
    write_errors, FileOutcome, MigrateReport,
};
use crate::notes::{are_sections, is_md_file, log_lines, sections_of, slug_of};
use crate::openclaw::{
    agent_key, day_entries, day_entry, day_text, entries_on, in_layer, is_grouping, is_outdated,
    is_workspace, key_in_layer, on_day, outdated_of, short_id, DayGroup,
};
use crate::text::{
    decimal_of, ends, lines_of, lowercase, occurs, split_of, starts, texts, trim_of, without_copies,
    without_suffixes,
};
use vstd::prelude::*;

verus! {

/// A file has the extension `md` exactly where its name ends with `.md` and has
/// something before.
pub proof fn markdown_files_end_in_md(name: Seq<char>)
    ensures
        is_md_file(name) <==> name.len() > 3 && name.skip(name.len() - 3) == seq!['.', 'm', 'd'],
{
    reveal_strlit(".md");
    assert(".md"@ =~= seq!['.', 'm', 'd']);
    parts_stand_at_places(name, ".md"@);
}

/// The entries of a day are those of the layer whose date of creation is the
/// day, in order.
pub proof fn entries_of_a_day(entries: Seq<EntryModel>, layer: Layer, day: Seq<char>)
    ensures
        entries_on(entries, layer, day) == entries.filter(
            |e: EntryModel| e.layer == layer && date_of(e.created_at.secs) == day,
        ),
    decreases entries.len(),
{
    reveal(Seq::filter);
    let of_day = |e: EntryModel| e.layer == layer && date_of(e.created_at.secs) == day;
    if entries.len() > 0 {
        entries_of_a_day(entries.drop_last(), layer, day);
        assert(on_day(entries.last(), layer, day) == of_day(entries.last()));
    }
    assert(entries_on(entries, layer, day) =~= entries.filter(of_day));
}

/// Every entry of the layer stands in the group of the date on which it was
/// created, and every group holds such entries alone; no date has two groups.
pub proof fn groups_hold_the_entries_of_their_date(
    groups: Seq<DayGroup>,
    entries: Seq<EntryModel>,
    layer: Layer,
)
    requires
        is_grouping(groups, entries, layer),
    ensures
        forall|k: int|
            0 <= k < entries.len() && (#[trigger] entries[k]).layer == layer ==> exists|i: int|
                0 <= i < groups.len() && (#[trigger] groups[i]).date@ == date_of(
                    entries[k].created_at.secs,
                ) && entries_of(groups[i].entries@).contains(entries[k]),
        forall|i: int|
            0 <= i < groups.len() ==> entries_of((#[trigger] groups[i]).entries@) == entries.filter(
                |e: EntryModel| e.layer == layer && date_of(e.created_at.secs) == groups[i].date@,
            ),
        forall|i: int, j: int|
            0 <= i < j < groups.len() ==> (#[trigger] groups[i]).date@ != (
            #[trigger] groups[j]).date@,
{
    broadcast use vstd::seq_lib::group_filter_ensures;

    assert forall|i: int| 0 <= i < groups.len() implies entries_of((#[trigger] groups[i]).entries@)
        == entries.filter(
        |e: EntryModel| e.layer == layer && date_of(e.created_at.secs) == groups[i].date@,
    ) by {
        entries_of_a_day(entries, layer, groups[i].date@);
    }
    assert forall|k: int|
        0 <= k < entries.len() && (#[trigger] entries[k]).layer == layer implies exists|i: int|
        0 <= i < groups.len() && (#[trigger] groups[i]).date@ == date_of(entries[k].created_at.secs)
            && entries_of(groups[i].entries@).contains(entries[k]) by {
        let i = choose|i: int|
            0 <= i < groups.len() && (#[trigger] groups[i]).date@ == entries[k].created_at.date();
        let of_day = |e: EntryModel|
            e.layer == layer && date_of(e.created_at.secs) == groups[i].date@;
        entries_of_a_day(entries, layer, groups[i].date@);
        assert(of_day(entries[k]));
        assert(entries.filter(of_day).contains(entries[k]));
    }
}

/// A daily file begins with the date and the number of its entries, and shows
/// one entry after the other.
pub proof fn daily_files_show_their_entries_in_order(
    day: Seq<char>,
    entries: Seq<EntryModel>,
    entry: EntryModel,
)
    ensures
        day_text(day, entries) == "# 记忆 - "@ + day + "\n\n"@ + "共 "@ + decimal_of(
            entries.len(),
        ) + " 条记忆\n\n"@ + day_entries(entries),
        day_entries(Seq::empty()) == Seq::<char>::empty(),
        day_entries(entries.push(entry)) == day_entries(entries) + day_entry(entry),
{
    assert(entries.push(entry).drop_last() =~= entries);
}

/// What a daily file says of an entry: the start of its identifier, its key,
/// source, importance, who may read it, and its text.
pub proof fn daily_files_say_what_an_entry_is(entry: EntryModel)
    ensures
        day_entry(entry) == "## "@ + short_id(entry.id)->0 + "\n**Key:** `"@ + entry.key
            + "`\n**来源:** "@ + entry.source + " | **重要性:** "@ + (match entry.importance {
            Importance::Low => "Low"@,
            Importance::Normal => "Normal"@,
            Importance::High => "High"@,
            Importance::Critical => "Critical"@,
        }) + " | "@ + (if entry.layer == Layer::Public {
            "🟢 公共"@
        } else {
            "🔒 私有"@
        }) + "\n\n"@ + entry.value + "\n\n"@,
{
}

proof fn lemma_shown(entries: Seq<EntryModel>, i: int) -> (r: (Seq<char>, Seq<char>))
    requires
        0 <= i < entries.len(),
    ensures
        day_entries(entries) == r.0 + day_entry(entries[i]) + r.1,
    decreases entries.len(),
{
    let rest = entries.drop_last();
    if i < rest.len() {
        let (a, b) = lemma_shown(rest, i);
        let c = b + day_entry(entries.last());
        assert(day_entries(entries) =~= a + day_entry(entries[i]) + c);
        (a, c)
    } else {
        let c = Seq::<char>::empty();
        assert(day_entries(entries) =~= day_entries(rest) + day_entry(entries[i]) + c);
        (day_entries(rest), c)
    }
}

proof fn lemma_parts_of_entry(entry: EntryModel) -> (r: (Seq<char>, Seq<char>, Seq<char>))
    ensures
        day_entry(entry) == r.0 + entry.key + r.1 + entry.value + r.2,
{
    let front = "## "@ + short_id(entry.id)->0 + "\n**Key:** `"@;
    let layer = match entry.layer {
        Layer::Public => "🟢 公共"@,
        Layer::Private => "🔒 私有"@,
    };
    let title = entry.importance.title_of();
    let mid = "`\n**来源:** "@ + entry.source + " | **重要性:** "@ + title + " | "@ + layer
        + "\n\n"@;
    let tail = "\n\n"@;
    assert(day_entry(entry) =~= front + entry.key + mid + entry.value + tail);
    (front, mid, tail)
}

proof fn lemma_both_stand(
    a: Seq<char>,
    key: Seq<char>,
    b: Seq<char>,
    value: Seq<char>,
    c: Seq<char>,
)
    ensures
        occurs(a + key + b + value + c, key),
        occurs(a + key + b + value + c, value),
{
    let all = a + key + b + value + c;
    part_occurs(a + key + b, value, c);
    assert(all =~= a + key + (b + value + c));
    part_occurs(a, key, b + value + c);
}

/// The key and the text of every entry of a day stand in the daily file.
pub proof fn every_entry_stands_in_its_daily_file(
    day: Seq<char>,
    entries: Seq<EntryModel>,
    i: int,
)
    requires
        0 <= i < entries.len(),
    ensures
        occurs(day_text(day, entries), entries[i].value),
        occurs(day_text(day, entries), entries[i].key),
{
    let entry = entries[i];
    let (a, b) = lemma_shown(entries, i);
    let (front, mid, tail) = lemma_parts_of_entry(entry);
    let head = "# 记忆 - "@ + day + "\n\n"@ + "共 "@ + decimal_of(entries.len())
        + " 条记忆\n\n"@;
    let before = head + a + front;
    let after = tail + b;
    assert(day_text(day, entries) == head + day_entries(entries));
    assert(head + (a + (front + entry.key + mid + entry.value + tail) + b) =~= before + entry.key
        + mid + entry.value + after);
    lemma_both_stand(before, entry.key, mid, entry.value, after);
}

/// A daily file is removed exactly where its name is a date and `.md`, and that
/// day began more than thirty days ago; the files keep their order.
pub proof fn old_daily_files_are_removed(names: Seq<Seq<char>>, at: MomentModel)
    ensures
        outdated_of(names, at) == names.filter(
            |name: Seq<char>|
                {
                    let day = day_number_of(name.take(name.len() - 3));
                    &&& name.len() > 3 && name.skip(name.len() - 3) == seq!['.', 'm', 'd']
                    &&& day is Some
                    &&& (day->0 - 719_163) * 86_400 + 30 * 86_400 < at.secs || ((day->0 - 719_163)
                        * 86_400 + 30 * 86_400 == at.secs && 0 < at.nanos)
                },
        ),
    decreases names.len(),
{
    reveal(Seq::filter);
    let goes = |name: Seq<char>|
        {
            let day = day_number_of(name.take(name.len() - 3));
            &&& name.len() > 3 && name.skip(name.len() - 3) == seq!['.', 'm', 'd']
            &&& day is Some
            &&& (day->0 - 719_163) * 86_400 + 30 * 86_400 < at.secs || ((day->0 - 719_163) * 86_400
                + 30 * 86_400 == at.secs && 0 < at.nanos)
        };
    if names.len() > 0 {
        old_daily_files_are_removed(names.drop_last(), at);
        markdown_files_end_in_md(names.last());
        assert(is_outdated(names.last(), at) == goes(names.last()));
    }
    assert(outdated_of(names, at) =~= names.filter(goes));
}

/// The results of a layer are those whose key begins with its name and a colon,
/// in order; without a layer they are all of them.
pub proof fn results_of_a_layer(results: Seq<ResultModel>, layer: Layer)
    ensures
        in_layer(results, Some(layer)) == results.filter(
            |r: ResultModel|
                {
                    let prefix = (if layer == Layer::Public {
                        "public"@
                    } else {
                        "private"@
                    }) + seq![':'];
                    prefix.len() <= r.entry.key.len() && r.entry.key.take(prefix.len() as int)
                        == prefix
                },
        ),
        in_layer(results, None) == results,
    decreases results.len(),
{
    reveal(Seq::filter);
    reveal_strlit(":");
    assert(":"@ =~= seq![':']);
    let inside = |r: ResultModel|
        {
            let prefix = (if layer == Layer::Public {
                "public"@
            } else {
                "private"@
            }) + seq![':'];
            prefix.len() <= r.entry.key.len() && r.entry.key.take(prefix.len() as int) == prefix
        };
    if results.len() > 0 {
        results_of_a_layer(results.drop_last(), layer);
        parts_stand_at_places(results.last().entry.key, layer.prefix_of() + ":"@);
        assert(key_in_layer(results.last().entry.key, Some(layer)) == inside(results.last()));
        assert(results.drop_last().push(results.last()) =~= results);
    }
    assert(in_layer(results, Some(layer)) =~= results.filter(inside));
    assert(in_layer(results, None) =~= results);
}

/// The key of a text of an agent names the layer, the agent and the start of a
/// fresh identifier.
pub proof fn keys_of_agents_name_layer_and_agent(
    layer: Layer,
    agent: Seq<char>,
    fresh: Seq<char>,
)
    ensures
        layer == Layer::Public ==> agent_key(layer, agent, fresh) == "public"@ + ":agent:"@ + agent
            + ":"@ + fresh.take(8),
        layer == Layer::Private ==> agent_key(layer, agent, fresh) == "private"@ + ":agent:"@
            + agent + ":"@ + fresh.take(8),
{
}

/// Every long line of every daily log of a workspace, but for headings, is the
/// text of an entry under the key of that day.
pub proof fn workspace_holds_every_long_line(
    entries: Seq<EntryModel>,
    memory_md: Option<Seq<char>>,
    logs: Seq<(Seq<char>, Seq<char>)>,
    l: int,
    i: int,
)
    requires
        is_workspace(entries, memory_md, logs),
        0 <= l < logs.len(),
        0 <= i < lines_of(logs[l].1).len(),
        vstd::utf8::encode_utf8(trim_of(lines_of(logs[l].1)[i])).len() > 10,
        trim_of(lines_of(logs[l].1)[i])[0] != '#',
    ensures
        exists|k: int|
            {
                &&& 0 <= k < entries.len()
                &&& (#[trigger] entries[k]).value == trim_of(lines_of(logs[l].1)[i])
                &&& entries[k].key == "memory:daily:"@ + without_suffixes(logs[l].0, ".md"@)
                &&& entries[k].source == logs[l].0
                &&& entries[k].importance == Importance::Normal
            },
    decreases logs.len(),
{
    let (name, content) = logs.last();
    let found = log_lines(lines_of(content));
    let rest = entries.len() - found.len();
    let line = trim_of(lines_of(logs[l].1)[i]);
    if l < logs.len() - 1 {
        workspace_holds_every_long_line(entries.take(rest), memory_md, logs.drop_last(), l, i);
        let k = choose|k: int|
            {
                &&& 0 <= k < entries.take(rest).len()
                &&& (#[trigger] entries.take(rest)[k]).value == line
                &&& entries.take(rest)[k].key == "memory:daily:"@ + without_suffixes(
                    logs[l].0,
                    ".md"@,
                )
                &&& entries.take(rest)[k].source == logs[l].0
                &&& entries.take(rest)[k].importance == Importance::Normal
            };
        assert(entries[k] == entries.take(rest)[k]);
    } else {
        long_lines_of_a_log_are_kept(lines_of(content));
        assert(found.contains(line));
        let k = found.index_of(line);
        assert(entries.skip(rest)[k] == entries[rest + k]);
    }
}

/// Every section of the `MEMORY.md` of a workspace is an entry of high importance
/// under the key of its name.
pub proof fn workspace_holds_every_section(
    entries: Seq<EntryModel>,
    content: Seq<char>,
    logs: Seq<(Seq<char>, Seq<char>)>,
    s: int,
)
    requires
        is_workspace(entries, Some(content), logs),
        0 <= s < sections_of(lines_of(content)).len(),
    ensures
        s < entries.len(),
        entries[s].value == sections_of(lines_of(content))[s].text,
        entries[s].key == "memory:longterm:"@ + slug_of(sections_of(lines_of(content))[s].name),
        entries[s].importance == Importance::High,
        entries[s].source == "MEMORY.md"@,
        entries[s].tags == seq!["memory"@, "longterm"@],
        entries[s].layer == Layer::Private,
    decreases logs.len(),
{
    if logs.len() > 0 {
        let (name, text) = logs.last();
        let rest = entries.len() - log_lines(lines_of(text)).len();
        workspace_holds_every_section(entries.take(rest), content, logs.drop_last(), s);
        assert(entries.take(rest)[s] == entries[s]);
    } else {
        assert(are_sections(entries, sections_of(lines_of(content))));
        assert(entries[s].value == sections_of(lines_of(content))[s].text);
    }
}

/// Every entry of a workspace comes from a section of `MEMORY.md` or from a long
/// line of a daily log.
pub proof fn workspace_holds_nothing_else(
    entries: Seq<EntryModel>,
    memory_md: Option<Seq<char>>,
    logs: Seq<(Seq<char>, Seq<char>)>,
    k: int,
)
    requires
        is_workspace(entries, memory_md, logs),
        0 <= k < entries.len(),
    ensures
        (memory_md is Some && k < sections_of(lines_of(memory_md->0)).len() && entries[k].value
            == sections_of(lines_of(memory_md->0))[k].text) || exists|l: int, i: int|
            {
                &&& 0 <= l < logs.len()
                &&& 0 <= i < lines_of(logs[l].1).len()
                &&& entries[k].value == trim_of(#[trigger] lines_of(logs[l].1)[i])
                &&& entries[k].source == logs[l].0
            },
    decreases logs.len(),
{
    if logs.len() > 0 {
        let (name, content) = logs.last();
        let found = log_lines(lines_of(content));
        let rest = entries.len() - found.len();
        if k < rest {
            let before = entries.take(rest);
            workspace_holds_nothing_else(before, memory_md, logs.drop_last(), k);
            assert(before[k] == entries[k]);
            if !(memory_md is Some && k < sections_of(lines_of(memory_md->0)).len()
                && entries[k].value == sections_of(lines_of(memory_md->0))[k].text) {
                let earlier = logs.drop_last();
                let (l, i) = choose|l: int, i: int|
                    {
                        &&& 0 <= l < earlier.len()
                        &&& 0 <= i < lines_of(earlier[l].1).len()
                        &&& before[k].value == trim_of(#[trigger] lines_of(earlier[l].1)[i])
                        &&& before[k].source == earlier[l].0
                    };
                assert(logs[l] == earlier[l]);
                assert(entries[k].value == trim_of(lines_of(logs[l].1)[i]));
            }
        } else {
            long_lines_of_a_log_are_kept(lines_of(content));
            let m = k - rest;
            assert(entries.skip(rest)[m] == entries[k]);
            assert(entries[k].value == found[m]);
            let i = choose|i: int|
                0 <= i < lines_of(content).len() && found[m] == trim_of(
                    #[trigger] lines_of(content)[i],
                );
            let l = logs.len() - 1;
            assert(logs[l].1 == content);
            assert(entries[k].value == trim_of(lines_of(logs[l].1)[i]));
        }
    } else {
        if memory_md is Some {
            assert(are_sections(entries, sections_of(lines_of(memory_md->0))));
            assert(entries[k].value == sections_of(lines_of(memory_md->0))[k].text);
        }
    }
}

/// The old files of a workspace are `MEMORY.md`, where it is there, and then each
/// file of the directory `memory` with the extension `md`, in order.
pub proof fn old_files_are_markdown_files(has_memory_md: bool, names: Seq<Seq<char>>)
    ensures
        old_files(has_memory_md, names) == (if has_memory_md {
            seq!["MEMORY.md"@]
        } else {
            Seq::empty()
        }) + names.filter(
            |n: Seq<char>| n.len() > 3 && n.skip(n.len() - 3) == seq!['.', 'm', 'd'],
        ).map_values(|n: Seq<char>| "memory/"@ + n),
    decreases names.len(),
{
    reveal(Seq::filter);
    let first = if has_memory_md {
        seq!["MEMORY.md"@]
    } else {
        Seq::empty()
    };
    let is_md = |n: Seq<char>| n.len() > 3 && n.skip(n.len() - 3) == seq!['.', 'm', 'd'];
    let path = |n: Seq<char>| "memory/"@ + n;
    if names.len() > 0 {
        old_files_are_markdown_files(has_memory_md, names.drop_last());
        markdown_files_end_in_md(names.last());
        assert(is_md_file(names.last()) == is_md(names.last()));
    }
    assert(old_files(has_memory_md, names) =~= first + names.filter(is_md).map_values(path));
}

proof fn lemma_no_copies(s: Seq<char>, p: Seq<char>)
    requires
        p.len() > 0,
        !s.contains(p[0]),
    ensures
        without_copies(s + p, p) == s,
        without_copies(s, p) == s,
    decreases s.len(),
{
    let t = s + p;
    if s.len() > 0 {
        let rest = s.skip(1);
        assert(s[0] != p[0]);
        assert(t[0] == s[0]);
        if starts(t, p) {
            assert(t.subrange(0, p.len() as int)[0] == t[0]);
        }
        if starts(s, p) {
            assert(s.subrange(0, p.len() as int)[0] == s[0]);
        }
        assert(!rest.contains(p[0])) by {
            if rest.contains(p[0]) {
                let k = rest.index_of(p[0]);
                assert(s[k + 1] == p[0]);
            }
        }
        lemma_no_copies(rest, p);
        assert(t.skip(1) =~= rest + p);
        assert(seq![s[0]] + rest =~= s);
    } else {
        assert(t.subrange(0, p.len() as int) =~= p);
        assert(t.skip(p.len() as int) =~= s);
        assert(without_copies(s, p) =~= s);
    }
}

/// The day of a daily log is what stands between the last slash of its path and
/// `.md`.
pub proof fn day_stands_in_the_path(folder: Seq<char>, day: Seq<char>)
    requires
        !day.contains('/') && !day.contains('.'),
    ensures
        day_of(folder + seq!['/'] + day + seq!['.', 'm', 'd']) == day,
        day_of(day + seq!['.', 'm', 'd']) == day,
{
    reveal_strlit(".md");
    let ending = seq!['.', 'm', 'd'];
    assert(".md"@ =~= ending);
    let name = day + ending;
    assert(!name.contains('/')) by {
        if name.contains('/') {
            let k = name.index_of('/');
            if k < day.len() {
                assert(day[k] == '/');
            } else {
                assert(ending[k - day.len()] == '/');
            }
        }
    }
    lemma_last_part(folder, name);
    assert(folder + seq!['/'] + name =~= folder + seq!['/'] + day + ending);
    lemma_no_copies(day, ending);
}

proof fn lemma_last_part(folder: Seq<char>, name: Seq<char>)
    requires
        !name.contains('/'),
    ensures
        split_of(folder + seq!['/'] + name, '/').last() == name,
        split_of(name, '/').last() == name,
        split_of(name, '/').len() == 1,
        split_of(folder + seq!['/'] + name, '/').len() > 1,
    decreases folder.len(),
{
    let path = folder + seq!['/'] + name;
    crate::text::lemma_first_at(name, '/');
    crate::text::lemma_first_at(path, '/');
    let k = crate::text::first_at(path, '/');
    assert(path[folder.len() as int] == '/');
    assert(path.contains('/'));
    assert(k <= folder.len()) by {
        if k > folder.len() {
            assert(path[folder.len() as int] != '/');
        }
    }
    let rest = path.skip(k + 1);
    assert(split_of(name, '/') =~= seq![name]);
    assert(split_of(path, '/') == seq![path.take(k)] + split_of(rest, '/'));
    if k < folder.len() {
        assert(rest =~= folder.skip(k + 1) + seq!['/'] + name);
        lemma_last_part(folder.skip(k + 1), name);
    } else {
        assert(rest =~= name);
    }
}

/// The reasons why entries could not be written are given in order, one for each
/// entry that was not.
pub proof fn each_failed_write_has_its_reason(writes: Seq<Option<String>>)
    ensures
        failures_in(writes) == writes.filter(|w: Option<String>| w is Some).map_values(
            |w: Option<String>| w->0@,
        ),
    decreases writes.len(),
{
    reveal(Seq::filter);
    let failed = |w: Option<String>| w is Some;
    let reason = |w: Option<String>| w->0@;
    if writes.len() > 0 {
        each_failed_write_has_its_reason(writes.drop_last());
    }
    assert(failures_in(writes) =~= writes.filter(failed).map_values(reason));
}

/// A file that was read adds its entries to those found, those that were written
/// to those moved, and a line for each of the others; a file that could not be
/// read adds one line alone.
pub proof fn reports_count_entries_and_failures(
    before: MigrateReport,
    after: MigrateReport,
    name: Seq<char>,
    outcome: FileOutcome,
)
    requires
        reports_file(before, after, name, outcome),
    ensures
        after.files_found == before.files_found,
        match outcome {
            FileOutcome::Unreadable(error) => {
                &&& after.entries_extracted == before.entries_extracted
                &&& after.entries_imported == before.entries_imported
                &&& texts(after.errors@) == texts(before.errors@).push(
                    "parse "@ + name + ": "@ + error@,
                )
            },
            FileOutcome::Read(writes) => {
                &&& after.entries_extracted == before.entries_extracted + writes@.len()
                &&& after.entries_imported == before.entries_imported + writes@.filter(
                    |w: Option<String>| w is None,
                ).len()
                &&& texts(after.errors@) == texts(before.errors@) + writes@.filter(
                    |w: Option<String>| w is Some,
                ).map_values(|w: Option<String>| name + ": "@ + w->0@)
            },
        },
{
    match outcome {
        FileOutcome::Unreadable(_) => {},
        FileOutcome::Read(writes) => {
            each_failed_write_has_its_reason(writes@);
            lemma_written_or_not(writes@);
            let failed = writes@.filter(|w: Option<String>| w is Some);
            assert(write_errors(name, writes@) =~= failed.map_values(
                |w: Option<String>| name + ": "@ + w->0@,
            ));
        },
    }
}

proof fn lemma_written_or_not(writes: Seq<Option<String>>)
    ensures
        writes.filter(|w: Option<String>| w is Some).len() + writes.filter(
            |w: Option<String>| w is None,
        ).len() == writes.len(),
    decreases writes.len(),
{
    reveal(Seq::filter);
    if writes.len() > 0 {
        lemma_written_or_not(writes.drop_last());
    }
}

/// The entries that could not be written add up over the files; a file went well
/// exactly where it was read and has none.
pub proof fn failed_writes_add_up(outcomes: Seq<FileOutcome>, outcome: FileOutcome)
    ensures
        failed_writes(Seq::empty()) == 0,
        outcome is Unreadable ==> failed_writes(outcomes.push(outcome)) == failed_writes(outcomes)
            && !went_well(outcome),
        outcome is Read ==> failed_writes(outcomes.push(outcome)) == failed_writes(outcomes)
            + outcome->Read_0@.filter(|w: Option<String>| w is Some).len() && (went_well(outcome)
            <==> outcome->Read_0@.filter(|w: Option<String>| w is Some).len() == 0),
{
    assert(outcomes.push(outcome).drop_last() =~= outcomes);
    match outcome {
        FileOutcome::Unreadable(_) => {},
        FileOutcome::Read(writes) => {
            each_failed_write_has_its_reason(writes@);
            lemma_none_kept(writes@);
        },
    }
}

proof fn lemma_none_kept(writes: Seq<Option<String>>)
    ensures
        writes.filter(|w: Option<String>| w is Some).len() == 0 <==> forall|i: int|
            0 <= i < writes.len() ==> #[trigger] writes[i] is None,
    decreases writes.len(),
{
    reveal(Seq::filter);
    if writes.len() > 0 {
        let rest = writes.drop_last();
        let n = writes.len() - 1;
        lemma_none_kept(rest);
        if forall|i: int| 0 <= i < rest.len() ==> #[trigger] rest[i] is None {
            if writes[n] is None {
                assert forall|i: int| 0 <= i < writes.len() implies #[trigger] writes[i] is None by {
                    if i < n {
                        assert(rest[i] is None);
                    }
                }
            }
        } else {
            let i = choose|i: int| 0 <= i < rest.len() && !(#[trigger] rest[i] is None);
            assert(!(writes[i] is None));
        }
    }
}

/// A report as text gives the three counts, and then each error on a line of its
/// own where there is one.
pub proof fn reports_show_counts_and_errors(
    report: MigrateReport,
    errors: Seq<Seq<char>>,
    error: Seq<char>,
)
    ensures
        report.errors@.len() == 0 ==> report.text_of() == "=== 迁移报告 ===\n"@ + "旧文件数量: "@
            + decimal_of(report.files_found as nat) + "\n"@ + "提取条目: "@ + decimal_of(
            report.entries_extracted as nat,
        ) + "\n"@ + "成功导入: "@ + decimal_of(report.entries_imported as nat) + "\n"@,
        report.errors@.len() > 0 ==> report.text_of() == "=== 迁移报告 ===\n"@ + "旧文件数量: "@
            + decimal_of(report.files_found as nat) + "\n"@ + "提取条目: "@ + decimal_of(
            report.entries_extracted as nat,
        ) + "\n"@ + "成功导入: "@ + decimal_of(report.entries_imported as nat) + "\n"@
            + "错误:\n"@ + error_lines(texts(report.errors@)),
        error_lines(Seq::empty()) == Seq::<char>::empty(),
        error_lines(errors.push(error)) == error_lines(errors) + "  - "@ + error + "\n"@,
{
    assert(errors.push(error).drop_last() =~= errors);
}

/// The level of an entry of the first version, by its name: four for critical,
/// three for high, two for normal and one for anything else; and its layer.
pub proof fn names_of_the_first_version(name: Seq<char>)
    ensures
        crate::legacy::Importance::level_named(name) == 4 <==> lowercase(name) == "critical"@,
        crate::legacy::Importance::level_named(name) == 3 <==> lowercase(name) == "high"@,
        crate::legacy::Importance::level_named(name) == 2 <==> lowercase(name) == "normal"@,
        1 <= crate::legacy::Importance::level_named(name) <= 4,
        lowercase(name) == "public"@ ==> crate::legacy::Layer::name_for(name) == "public"@,
        lowercase(name) != "public"@ ==> crate::legacy::Layer::name_for(name) == "private"@,
{
    reveal_strlit("critical");
    reveal_strlit("high");
    reveal_strlit("normal");
    assert("critical"@.len() == 8 && "high"@.len() == 4 && "normal"@.len() == 6);
}

/// A row of the first version holds what its entry held; one without a source is
/// marked as moved, and none has a number.
pub proof fn rows_of_the_first_version(entry: crate::legacy::Entry)
    ensures
        ({
            let row = legacy_row(entry);
            &&& row.key == entry.key@ && row.id == entry.id@ && row.value == entry.value@
            &&& row.importance == entry.importance.0 && row.layer == entry.layer.0@
            &&& entry.source is Some ==> row.source == entry.source->0@
            &&& entry.source is None ==> row.source == "v1-migration"@
            &&& row.created_at == entry.created_at@.millis()
            &&& row.last_accessed == entry.last_accessed@.millis()
            &&& entry.expires_at is Some ==> row.expires_at == Some(entry.expires_at->0@.millis())
            &&& entry.expires_at is None ==> row.expires_at is None
            &&& row.seq == 0
        }),
{
}

/// A day begins at midnight in UTC: whole days of 86,400 seconds after the first
/// day of 1970.
pub proof fn days_begin_at_midnight(text: Seq<char>)
    ensures
        day_number_of(text) is None ==> day_start_of(text) is None,
        day_number_of(text) is Some ==> day_start_of(text) == Some(
            (day_number_of(text)->0 - 719_163) * 86_400,
        ),
{
}

/// The short form of an identifier is its first eight characters.
pub proof fn identifiers_are_shortened(id: Seq<char>)
    requires
        id.len() >= 8,
        forall|i: int| 0 <= i < id.len() ==> (#[trigger] id[i] as u32) < 128,
    ensures
        short_id(id) == Some(id.take(8)),
{
    first_bytes_are_whole_characters(id, 8);
    lemma_ascii_len(id.take(8));
}

proof fn lemma_ascii_len(s: Seq<char>)
    requires
        forall|i: int| 0 <= i < s.len() ==> (#[trigger] s[i] as u32) < 128,
    ensures
        vstd::utf8::encode_utf8(s).len() == s.len(),
    decreases s.len(),
{
    if s.len() > 0 {
        let rest = s.drop_first();
        assert((s[0] as u32) < 128);
        assert forall|i: int| 0 <= i < rest.len() implies (#[trigger] rest[i] as u32) < 128 by {
            assert(rest[i] == s[i + 1]);
        }
        lemma_ascii_len(rest);
    }
}

/// A point in time is written in RFC 3339 with its second and nanoseconds, and
/// has the date of its second.
pub proof fn moments_are_written_out(at: MomentModel)
    ensures
        at.stamp() == rfc3339_of(at.secs, at.nanos),
        at.date() == date_of(at.secs),
{
}

} // verus!
