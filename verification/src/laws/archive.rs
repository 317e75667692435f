//! What the archive promises.

use crate::clock::{rfc3339_of, MomentModel};
use crate::common::{EntryModel, Importance, Layer};
use crate::l3::{
    all_made_from, archive_name_of, archive_of, bare_block, block_text, blocks_from, dates_of,
    head_lines, head_of, head_step, made_from, markdown_of, old_ones, parsed_block, readable,
    stamped, tags_of, written_keys, Block, Head,
};
use crate::laws::text::{copies_at_the_end_are_taken_off, parts_stand_at_places};
use crate::roundtrip::{
    archive_is_read_back, archive_text, block_is_read_back, fits_archive, fits_block, is_field,
    is_stamp, no_crlf,
};
use crate::text::{
    ends, is_space, join_of, lines_of, lowercase, occurs, split_of, stands_at, starts, trim_of,
    without_prefix, without_suffixes,
};
use vstd::prelude::*;

verus! {

/// An entry is archived exactly where it was created more than the given days
/// ago, in whole seconds, whatever else it is; the entries keep their order.
pub proof fn old_entries_are_archived(entries: Seq<EntryModel>, at: MomentModel, days: int)
    ensures
        forall|i: int|
            0 <= i < entries.len() ==> ((#[trigger] entries[i]).created_at.secs < at.secs - days
                * 86_400 <==> old_ones(entries, at, days).contains(entries[i])),
        forall|k: int|
            0 <= k < old_ones(entries, at, days).len() ==> entries.contains(
                #[trigger] old_ones(entries, at, days)[k],
            ),
        old_ones(entries, at, days) == entries.filter(
            |e: EntryModel| e.created_at.secs < at.secs - days * 86_400,
        ),
    decreases entries.len(),
{
    reveal(Seq::filter);
    let old = old_ones(entries, at, days);
    let is_due = |e: EntryModel| e.created_at.secs < at.secs - days * 86_400;
    if entries.len() > 0 {
        let rest = entries.drop_last();
        let before = old_ones(rest, at, days);
        let last = entries[entries.len() - 1];
        old_entries_are_archived(rest, at, days);
        assert(old =~= entries.filter(is_due));
        assert forall|k: int| 0 <= k < old.len() implies entries.contains(#[trigger] old[k])
            && is_due(old[k]) by {
            if k < before.len() {
                assert(old[k] == before[k]);
                let i = rest.index_of(before[k]);
                assert(entries[i] == before[k]);
                assert(before.contains(rest[i]));
            } else {
                assert(entries[entries.len() - 1] == old[k]);
            }
        }
        assert forall|i: int| 0 <= i < entries.len() implies (is_due(#[trigger] entries[i])
            <==> old.contains(entries[i])) by {
            if is_due(entries[i]) {
                if i < rest.len() {
                    assert(rest[i] == entries[i]);
                    let k = before.index_of(rest[i]);
                    assert(old[k] == entries[i]);
                } else {
                    assert(old[old.len() - 1] == entries[i]);
                }
            }
            if old.contains(entries[i]) {
                let k = old.index_of(entries[i]);
                assert(is_due(old[k]));
            }
        }
    } else {
        assert(old =~= entries.filter(is_due));
    }
}

/// The keys that leave short-term memory come in the order of the entries, one
/// for each entry that was written.
pub proof fn written_entries_leave_in_order(
    entries: Seq<EntryModel>,
    written: Seq<bool>,
    entry: EntryModel,
    is_written: bool,
)
    requires
        entries.len() == written.len(),
    ensures
        written_keys(Seq::empty(), Seq::empty()) == Seq::<Seq<char>>::empty(),
        written_keys(entries.push(entry), written.push(is_written)) == (if is_written {
            written_keys(entries, written).push(entry.key)
        } else {
            written_keys(entries, written)
        }),
{
    assert(entries.push(entry).drop_last() =~= entries);
    assert(written.push(is_written).take(entries.len() as int) =~= written);
}

/// A file is listed exactly where its name ends with `.md`, under its name
/// without that ending.
pub proof fn archive_files_are_listed(names: Seq<Seq<char>>, date: Seq<char>)
    requires
        !(date.len() >= 3 && date.skip(date.len() - 3) == seq!['.', 'm', 'd']),
    ensures
        names.contains(date + seq!['.', 'm', 'd']) ==> dates_of(names).contains(date),
        dates_of(names).len() == names.filter(
            |n: Seq<char>| n.len() >= 3 && n.skip(n.len() - 3) == seq!['.', 'm', 'd'],
        ).len(),
        forall|k: int|
            0 <= k < dates_of(names).len() ==> exists|i: int|
                {
                    &&& 0 <= i < names.len()
                    &&& (#[trigger] names[i]).len() >= 3
                    &&& names[i].skip(names[i].len() - 3) == seq!['.', 'm', 'd']
                    &&& (#[trigger] dates_of(names)[k]).len() < names[i].len()
                    &&& names[i].take(dates_of(names)[k].len() as int) == dates_of(names)[k]
                },
    decreases names.len(),
{
    reveal(Seq::filter);
    reveal_strlit(".md");
    let ending = seq!['.', 'm', 'd'];
    assert(".md"@ =~= ending);
    let listed = |n: Seq<char>| n.len() >= 3 && n.skip(n.len() - 3) == seq!['.', 'm', 'd'];
    let dates = dates_of(names);
    if names.len() > 0 {
        let rest = names.drop_last();
        let before = dates_of(rest);
        let last = names[names.len() - 1];
        archive_files_are_listed(rest, date);
        parts_stand_at_places(last, ".md"@);
        lemma_stem(last);
        assert(dates.len() == names.filter(listed).len()) by {
            assert(rest.filter(listed).len() == before.len());
        }
        if names.contains(date + ending) {
            let i = names.index_of(date + ending);
            if i < rest.len() {
                assert(rest[i] == names[i]);
                assert(rest.contains(date + ending));
                let k = before.index_of(date);
                assert(dates[k] == date);
            } else {
                assert(last.skip(last.len() - 3) =~= ending);
                copies_at_the_end_are_taken_off(date, ending);
                assert(dates[dates.len() - 1] == date);
            }
        }
        assert forall|k: int| 0 <= k < dates.len() implies exists|i: int|
            {
                &&& 0 <= i < names.len()
                &&& (#[trigger] names[i]).len() >= 3
                &&& names[i].skip(names[i].len() - 3) == ending
                &&& (#[trigger] dates[k]).len() < names[i].len()
                &&& names[i].take(dates[k].len() as int) == dates[k]
            } by {
            if k < before.len() {
                assert(dates[k] == before[k]);
                let i = choose|i: int|
                    {
                        &&& 0 <= i < rest.len()
                        &&& (#[trigger] rest[i]).len() >= 3
                        &&& rest[i].skip(rest[i].len() - 3) == ending
                        &&& before[k].len() < rest[i].len()
                        &&& rest[i].take(before[k].len() as int) == before[k]
                    };
                assert(names[i] == rest[i]);
            } else {
                let i = names.len() - 1;
                assert(names[i].len() >= 3);
            }
        }
    }
}

proof fn lemma_stem(name: Seq<char>)
    ensures
        without_suffixes(name, ".md"@).len() <= name.len(),
        name.take(without_suffixes(name, ".md"@).len() as int) == without_suffixes(name, ".md"@),
        ends(name, ".md"@) ==> without_suffixes(name, ".md"@).len() < name.len(),
    decreases name.len(),
{
    reveal_strlit(".md");
    if ends(name, ".md"@) {
        let rest = name.take(name.len() - 3);
        lemma_stem(rest);
        let stem = without_suffixes(rest, ".md"@);
        assert(rest.take(stem.len() as int) =~= name.take(stem.len() as int));
    } else {
        assert(name.take(name.len() as int) =~= name);
    }
}

/// A block begins with the key as a heading, gives importance, source, tags and
/// time of creation on a line each, then the text, and ends with a line `---`.
pub proof fn block_has_its_form(entry: EntryModel, stamp: Seq<char>)
    ensures
        block_text(entry, stamp) == "## "@ + entry.key + "\n**重要性**: "@ + (match entry.importance {
            Importance::Low => "Low"@,
            Importance::Normal => "Normal"@,
            Importance::High => "High"@,
            Importance::Critical => "Critical"@,
        }) + "\n**来源**: "@ + entry.source + "\n**标签**: ["@ + join_of(entry.tags, ", "@)
            + "]\n**创建时间**: "@ + stamp + "\n\n"@ + entry.value + "\n\n---\n"@,
{
    reveal_strlit("\n");
    reveal_strlit("]");
    reveal_strlit("**重要性**: ");
    reveal_strlit("\n**重要性**: ");
    reveal_strlit("**来源**: ");
    reveal_strlit("\n**来源**: ");
    reveal_strlit("**标签**: [");
    reveal_strlit("\n**标签**: [");
    reveal_strlit("**创建时间**: ");
    reveal_strlit("]\n**创建时间**: ");
    let h = head_lines(entry, stamp);
    let n = "\n"@;
    assert(h.len() == 5);
    let h4 = h.drop_last();
    let h3 = h4.drop_last();
    let h2 = h3.drop_last();
    let h1 = h2.drop_last();
    assert(join_of(h1, n) == h[0]);
    assert(join_of(h2, n) == h[0] + n + h[1]);
    assert(join_of(h3, n) == join_of(h2, n) + n + h[2]);
    assert(join_of(h4, n) == join_of(h3, n) + n + h[3]);
    assert(join_of(h, n) == join_of(h4, n) + n + h[4]);
    assert("\n**重要性**: "@ =~= n + "**重要性**: "@);
    assert("\n**来源**: "@ =~= n + "**来源**: "@);
    assert("\n**标签**: ["@ =~= n + "**标签**: ["@);
    assert("]\n**创建时间**: "@ =~= "]"@ + n + "**创建时间**: "@);
    assert(block_text(entry, stamp) =~= "## "@ + entry.key + "\n**重要性**: "@
        + entry.importance.title_of() + "\n**来源**: "@ + entry.source + "\n**标签**: ["@ + join_of(
        entry.tags,
        ", "@,
    ) + "]\n**创建时间**: "@ + stamp + "\n\n"@ + entry.value + "\n\n---\n"@);
}

/// What is written as a block is read back: key, text, importance, source and
/// tags. Key and source are single lines, tags too and without commas; none of
/// them, nor the text, has white space at its ends, and the list of tags neither
/// begins with `[` nor ends with `]`.
pub proof fn archived_entry_is_read_back(entry: EntryModel, stamp: Seq<char>)
    requires
        entry.key.len() > 0,
        forall|s: Seq<char>| #[trigger]
            is_part(entry, s) ==> !s.contains('\n') && (s.len() > 0 ==> !is_space(s[0])
                && !is_space(s.last())),
        forall|i: int| 0 <= i < entry.tags.len() ==> !(#[trigger] entry.tags[i]).contains(','),
        join_of(entry.tags, ", "@).len() > 0 ==> join_of(entry.tags, ", "@)[0] != '[' && join_of(
            entry.tags,
            ", "@,
        ).last() != ']',
        entry.value.len() > 0 ==> !is_space(entry.value[0]) && !is_space(entry.value.last()),
        forall|i: int|
            0 <= i < stamp.len() ==> ('0' <= #[trigger] stamp[i] <= '9') || stamp[i] == '+'
                || stamp[i] == '-' || stamp[i] == ':' || stamp[i] == '.' || stamp[i] == 'T',
    ensures
        parsed_block(block_text(entry, stamp)) is Some,
        ({
            let block = parsed_block(block_text(entry, stamp))->0;
            &&& block.key == entry.key
            &&& block.value == entry.value
            &&& block.importance == entry.importance
            &&& block.source == entry.source
            &&& entry.tags.len() > 0 ==> block.tags == entry.tags
            &&& entry.tags.len() == 0 ==> block.tags == seq![Seq::<char>::empty()]
        }),
{
    lemma_fits(entry);
    assert(is_stamp(stamp));
    block_is_read_back(entry, stamp);
}

/// Whether a text is the key, the source or a tag of an entry.
pub open spec fn is_part(entry: EntryModel, s: Seq<char>) -> bool {
    s == entry.key || s == entry.source || entry.tags.contains(s)
}

proof fn lemma_fits(entry: EntryModel)
    requires
        entry.key.len() > 0,
        forall|s: Seq<char>| #[trigger]
            is_part(entry, s) ==> !s.contains('\n') && (s.len() > 0 ==> !is_space(s[0])
                && !is_space(s.last())),
        forall|i: int| 0 <= i < entry.tags.len() ==> !(#[trigger] entry.tags[i]).contains(','),
        join_of(entry.tags, ", "@).len() > 0 ==> join_of(entry.tags, ", "@)[0] != '[' && join_of(
            entry.tags,
            ", "@,
        ).last() != ']',
        entry.value.len() > 0 ==> !is_space(entry.value[0]) && !is_space(entry.value.last()),
    ensures
        fits_block(entry),
{
    assert(is_part(entry, entry.key));
    assert(is_part(entry, entry.source));
    assert forall|i: int| 0 <= i < entry.tags.len() implies is_field(#[trigger] entry.tags[i])
        && !entry.tags[i].contains(',') by {
        assert(is_part(entry, entry.tags[i]));
    }
}

/// An archive of entries is read back, each entry in its turn, where in addition
/// no text is empty, holds a carriage return, or has a line `---`.
pub proof fn archived_entries_are_read_back(items: Seq<(EntryModel, Seq<char>)>)
    requires
        forall|i: int| 0 <= i < items.len() ==> can_be_archived((#[trigger] items[i]).0, items[i].1),
    ensures
        archive_of(lines_of(archive_text(items))).len() == items.len(),
        forall|i: int|
            0 <= i < items.len() ==> {
                let block = #[trigger] archive_of(lines_of(archive_text(items)))[i];
                &&& block.key == items[i].0.key
                &&& block.value == items[i].0.value
                &&& block.importance == items[i].0.importance
                &&& block.source == items[i].0.source
                &&& items[i].0.tags.len() > 0 ==> block.tags == items[i].0.tags
            },
{
    reveal_strlit("---");
    assert forall|i: int| 0 <= i < items.len() implies fits_archive((#[trigger] items[i]).0)
        && is_stamp(items[i].1) by {
        let entry = items[i].0;
        assert(can_be_archived(entry, items[i].1));
        lemma_fits(entry);
        assert(no_crlf(entry.value));
        assert("---"@ =~= seq!['-', '-', '-']);
    }
    archive_is_read_back(items);
}

/// Whether an entry can be told apart from others in an archive.
pub open spec fn can_be_archived(entry: EntryModel, stamp: Seq<char>) -> bool {
    &&& entry.key.len() > 0
    &&& forall|s: Seq<char>| #[trigger]
        is_part(entry, s) ==> !s.contains('\n') && (s.len() > 0 ==> !is_space(s[0]) && !is_space(
            s.last(),
        ))
    &&& forall|i: int| 0 <= i < entry.tags.len() ==> !(#[trigger] entry.tags[i]).contains(',')
    &&& join_of(entry.tags, ", "@).len() > 0 ==> join_of(entry.tags, ", "@)[0] != '[' && join_of(
        entry.tags,
        ", "@,
    ).last() != ']'
    &&& entry.value.len() > 0 && !is_space(entry.value[0]) && !is_space(entry.value.last())
    &&& !entry.value.contains('\r')
    &&& forall|i: int|
        0 <= i < lines_of(entry.value).len() ==> trim_of(#[trigger] lines_of(entry.value)[i])
            != seq!['-', '-', '-']
    &&& forall|i: int|
        0 <= i < stamp.len() ==> ('0' <= #[trigger] stamp[i] <= '9') || stamp[i] == '+' || stamp[i]
            == '-' || stamp[i] == ':' || stamp[i] == '.' || stamp[i] == 'T'
}

/// Each line of the head of a block says one thing: a heading the key, and lines
/// with the names of importance, source and tags these; any other line nothing.
pub proof fn head_lines_say_one_thing(head: Head, rest: Seq<char>)
    requires
        rest.len() > 0,
        !is_space(rest.last()),
    ensures
        head_step(head, "## "@ + rest) == (Head { key: Some(trim_of(rest)), ..head }),
        head_step(head, "**来源**:"@ + rest) == (Head { source: trim_of(rest), ..head }),
        head_step(head, "**重要性**:"@ + rest) == (Head {
            importance: Importance::named(lowercase(trim_of(rest))),
            ..head
        }),
        head_step(head, "**创建时间**:"@ + rest) == head,
{
    reveal_strlit("## ");
    reveal_strlit("**来源**:");
    reveal_strlit("**重要性**:");
    reveal_strlit("**标签**:");
    reveal_strlit("**创建时间**:");
    lemma_line("## "@, rest);
    lemma_line("**来源**:"@, rest);
    lemma_line("**重要性**:"@, rest);
    lemma_line("**创建时间**:"@, rest);
    lemma_other("**来源**:"@ + rest, "## "@, 0);
    lemma_other("**来源**:"@ + rest, "**重要性**:"@, 2);
    lemma_other("**重要性**:"@ + rest, "## "@, 0);
    lemma_other("**创建时间**:"@ + rest, "## "@, 0);
    lemma_other("**创建时间**:"@ + rest, "**重要性**:"@, 2);
    lemma_other("**创建时间**:"@ + rest, "**来源**:"@, 2);
    lemma_other("**创建时间**:"@ + rest, "**标签**:"@, 2);
}

proof fn lemma_line(p: Seq<char>, rest: Seq<char>)
    requires
        p.len() > 0,
        !is_space(p[0]),
        rest.len() > 0,
        !is_space(rest.last()),
    ensures
        trim_of(p + rest) == p + rest,
        without_prefix(p + rest, p) == Some(rest),
{
    let s = p + rest;
    assert(s[0] == p[0]);
    assert(s.last() == rest.last());
    crate::text::lemma_trim_trimmed(s);
    assert(s.subrange(0, p.len() as int) =~= p);
    assert(s.skip(p.len() as int) =~= rest);
}

proof fn lemma_other(s: Seq<char>, p: Seq<char>, i: int)
    requires
        0 <= i < p.len(),
        i < s.len(),
        s[i] != p[i],
    ensures
        without_prefix(s, p) is None,
{
    if starts(s, p) {
        assert(s.subrange(0, p.len() as int)[i] == s[i]);
    }
}

/// An entry that is read from an archive is private, holds what its block holds,
/// and never expires.
pub proof fn read_entry_holds_its_block(entry: EntryModel, block: Block)
    requires
        made_from(entry, block),
    ensures
        entry.key == block.key && entry.value == block.value && entry.source == block.source,
        entry.importance == block.importance && entry.tags == block.tags,
        entry.layer == Layer::Private && entry.expires_at is None,
        entry.created_at == entry.last_accessed,
{
}

/// A head that says nothing has no key and no tags, normal importance, and the
/// archive as its source; each line adds what it says, and the last word counts.
pub proof fn heads_are_read_line_by_line(lines: Seq<Seq<char>>, line: Seq<char>)
    ensures
        head_of(Seq::empty()) == (Head {
            key: None,
            importance: Importance::Normal,
            source: "l3-archive"@,
            tags: Seq::empty(),
        }),
        head_of(lines.push(line)) == head_step(head_of(lines), line),
{
    assert(lines.push(line).drop_last() =~= lines);
}

/// A line that begins with none of the four marks says nothing.
pub proof fn other_lines_of_a_head_say_nothing(head: Head, line: Seq<char>)
    requires
        !has_start(trim_of(line), "## "@),
        !has_start(trim_of(line), "**重要性**:"@),
        !has_start(trim_of(line), "**来源**:"@),
        !has_start(trim_of(line), "**标签**:"@),
    ensures
        head_step(head, line) == head,
{
    let t = trim_of(line);
    parts_stand_at_places(t, "## "@);
    parts_stand_at_places(t, "**重要性**:"@);
    parts_stand_at_places(t, "**来源**:"@);
    parts_stand_at_places(t, "**标签**:"@);
}

/// Whether the first characters of a text are those of another.
pub open spec fn has_start(s: Seq<char>, p: Seq<char>) -> bool {
    p.len() <= s.len() && s.take(p.len() as int) == p
}

/// The tags of a list between square brackets are its parts between commas,
/// each without white space at its ends.
pub proof fn tags_stand_between_commas(list: Seq<char>)
    requires
        list.len() > 0 ==> list[0] != '[' && list.last() != ']',
    ensures
        tags_of(seq!['['] + list + seq![']']) == split_of(list, ',').map_values(
            |part: Seq<char>| trim_of(part),
        ),
{
    reveal_strlit("[");
    reveal_strlit("]");
    let open = seq!['['];
    let close = seq![']'];
    assert("["@ =~= open);
    assert("]"@ =~= close);
    let all = open + list + close;
    assert(all[0] == '[' && all.last() == ']');
    crate::text::lemma_trim_trimmed(all);
    let inner = list + close;
    assert(all =~= open + inner);
    crate::laws::text::copies_at_the_start_are_taken_off(open, inner);
    assert(!(inner.len() >= 1 && inner.take(1) == open)) by {
        if inner.take(1) == open {
            assert(inner.take(1)[0] == inner[0]);
        }
    }
    copies_at_the_end_are_taken_off(list, close);
    assert(!(list.len() >= 1 && list.skip(list.len() - 1) == close)) by {
        if list.len() >= 1 && list.skip(list.len() - 1) == close {
            assert(list.skip(list.len() - 1)[0] == list.last());
        }
    }
    assert(tags_of(all) =~= split_of(list, ',').map_values(|part: Seq<char>| trim_of(part)));
}

/// A block without an empty line in it, once trimmed, holds no entry, and so does
/// one whose head names no key.
pub proof fn blocks_need_a_key_and_a_text(text: Seq<char>)
    ensures
        !occurs(trim_of(text), seq!['\n', '\n']) && !has_start(
            trim_of(text),
            seq!['-', '-', '-', '\n'],
        ) && !ends(trim_of(text), seq!['\n', '-', '-', '-']) ==> parsed_block(text) is None,
{
    reveal_strlit("---\n");
    reveal_strlit("\n---");
    reveal_strlit("\n\n");
    assert("---\n"@ =~= seq!['-', '-', '-', '\n']);
    assert("\n---"@ =~= seq!['\n', '-', '-', '-']);
    assert("\n\n"@ =~= seq!['\n', '\n']);
    let t = trim_of(text);
    parts_stand_at_places(t, "---\n"@);
    crate::text::lemma_find(t, "\n\n"@);
}

/// Lines without a line `---` hold no block: what follows the last one is left.
pub proof fn unfinished_blocks_are_left(lines: Seq<Seq<char>>)
    requires
        forall|i: int| 0 <= i < lines.len() ==> trim_of(#[trigger] lines[i]) != seq!['-', '-', '-'],
    ensures
        archive_of(lines) == Seq::<Block>::empty(),
{
    lemma_unfinished(lines, Seq::empty());
    assert(readable(Seq::empty()) =~= Seq::<Block>::empty());
}

proof fn lemma_unfinished(lines: Seq<Seq<char>>, current: Seq<char>)
    requires
        forall|i: int| 0 <= i < lines.len() ==> trim_of(#[trigger] lines[i]) != seq!['-', '-', '-'],
    ensures
        blocks_from(lines, current) == Seq::<Seq<char>>::empty(),
    decreases lines.len(),
{
    reveal_strlit("---");
    assert("---"@ =~= seq!['-', '-', '-']);
    if lines.len() > 0 {
        let rest = lines.skip(1);
        assert(trim_of(lines[0]) != seq!['-', '-', '-']);
        assert forall|i: int| 0 <= i < rest.len() implies trim_of(#[trigger] rest[i]) != seq![
            '-',
            '-',
            '-',
        ] by {
            assert(rest[i] == lines[i + 1]);
        }
        lemma_unfinished(rest, current + lines[0] + "\n"@);
    }
}

proof fn lemma_readable_concat(a: Seq<Seq<char>>, b: Seq<Seq<char>>)
    ensures
        readable(a + b) == readable(a) + readable(b),
    decreases a.len(),
{
    if a.len() == 0 {
        assert(a + b =~= b);
        assert(readable(a) + readable(b) =~= readable(b));
    } else {
        lemma_readable_concat(a.skip(1), b);
        assert((a + b).skip(1) =~= a.skip(1) + b);
        assert((a + b)[0] == a[0]);
        assert(readable(a + b) =~= readable(a) + readable(b));
    }
}

proof fn lemma_blocks_concat(
    a: Seq<Seq<char>>,
    line: Seq<char>,
    b: Seq<Seq<char>>,
    current: Seq<char>,
)
    requires
        trim_of(line) == seq!['-', '-', '-'],
    ensures
        blocks_from(a.push(line) + b, current) == blocks_from(a.push(line), current) + blocks_from(
            b,
            Seq::empty(),
        ),
    decreases a.len(),
{
    reveal_strlit("---");
    assert("---"@ =~= seq!['-', '-', '-']);
    let all = a.push(line) + b;
    let front = a.push(line);
    let after = blocks_from(b, Seq::empty());
    if a.len() == 0 {
        assert(all.skip(1) =~= b);
        assert(front.skip(1) =~= Seq::empty());
        assert(all[0] == line && front[0] == line);
        assert(blocks_from(front.skip(1), Seq::empty()) =~= Seq::<Seq<char>>::empty());
        assert(blocks_from(all, current) =~= blocks_from(front, current) + after);
    } else {
        let rest = a.skip(1);
        assert(all.skip(1) =~= rest.push(line) + b);
        assert(front.skip(1) =~= rest.push(line));
        assert(all[0] == a[0] && front[0] == a[0]);
        lemma_blocks_concat(rest, line, b, Seq::empty());
        lemma_blocks_concat(rest, line, b, current + a[0] + "\n"@);
        assert(blocks_from(all, current) =~= blocks_from(front, current) + after);
    }
}

/// A line `---` sets blocks apart: what stands before it and what follows it are
/// read on their own.
pub proof fn dashes_set_blocks_apart(a: Seq<Seq<char>>, line: Seq<char>, b: Seq<Seq<char>>)
    requires
        trim_of(line) == seq!['-', '-', '-'],
    ensures
        archive_of(a.push(line) + b) == archive_of(a.push(line)) + archive_of(b),
{
    lemma_blocks_concat(a, line, b, Seq::empty());
    lemma_readable_concat(
        blocks_from(a.push(line), Seq::empty()),
        blocks_from(b, Seq::empty()),
    );
}

/// The lines before a line `---` are one block: the entry that they hold, or
/// none where they hold none.
pub proof fn lines_before_dashes_are_a_block(lines: Seq<Seq<char>>, line: Seq<char>)
    requires
        lines.len() > 0,
        forall|i: int| 0 <= i < lines.len() ==> trim_of(#[trigger] lines[i]) != seq!['-', '-', '-'],
        trim_of(line) == seq!['-', '-', '-'],
    ensures
        archive_of(lines.push(line)) == match parsed_block(
            join_of(lines, seq!['\n']) + seq!['\n'],
        ) {
            Some(block) => seq![block],
            None => Seq::empty(),
        },
{
    lemma_one_block(lines, line, Seq::empty());
    let text = Seq::<char>::empty() + join_of(lines, seq!['\n']) + seq!['\n'];
    assert(text =~= join_of(lines, seq!['\n']) + seq!['\n']);
    let blocks = seq![text];
    assert(blocks.skip(1) =~= Seq::empty());
    assert(readable(blocks.skip(1)) =~= Seq::<Block>::empty());
    assert(blocks_from(lines.push(line), Seq::empty()) =~= blocks);
    match parsed_block(text) {
        Some(block) => {
            assert(readable(blocks) =~= seq![block]);
        },
        None => {},
    }
}

proof fn lemma_one_block(lines: Seq<Seq<char>>, line: Seq<char>, current: Seq<char>)
    requires
        lines.len() > 0,
        forall|i: int| 0 <= i < lines.len() ==> trim_of(#[trigger] lines[i]) != seq!['-', '-', '-'],
        trim_of(line) == seq!['-', '-', '-'],
    ensures
        blocks_from(lines.push(line), current) == seq![
            current + join_of(lines, seq!['\n']) + seq!['\n'],
        ],
    decreases lines.len(),
{
    reveal_strlit("---");
    reveal_strlit("\n");
    assert("---"@ =~= seq!['-', '-', '-']);
    assert("\n"@ =~= seq!['\n']);
    let all = lines.push(line);
    let rest = lines.skip(1);
    assert(trim_of(lines[0]) != seq!['-', '-', '-']);
    assert(all[0] == lines[0]);
    assert(all.skip(1) =~= rest.push(line));
    let next = current + lines[0] + "\n"@;
    if rest.len() > 0 {
        assert forall|i: int| 0 <= i < rest.len() implies trim_of(#[trigger] rest[i]) != seq![
            '-',
            '-',
            '-',
        ] by {
            assert(rest[i] == lines[i + 1]);
        }
        lemma_one_block(rest, line, next);
        crate::text::lemma_join_front(lines, seq!['\n']);
        assert(next + join_of(rest, seq!['\n']) + seq!['\n'] =~= current + join_of(
            lines,
            seq!['\n'],
        ) + seq!['\n']);
    } else {
        assert(rest.push(line)[0] == line);
        assert(rest.push(line).skip(1) =~= Seq::empty());
        assert(blocks_from(rest.push(line).skip(1), Seq::empty()) =~= Seq::<Seq<char>>::empty());
        assert(join_of(lines, seq!['\n']) == lines[0]);
        assert(blocks_from(rest.push(line), next) =~= seq![next]);
        assert(next =~= current + join_of(lines, seq!['\n']) + seq!['\n']);
    }
}

/// An entry is archived with the date and time of its creation, and the entries
/// of an archive follow each other.
pub proof fn archives_are_blocks_in_order(
    entry: EntryModel,
    items: Seq<(EntryModel, Seq<char>)>,
    entries: Seq<EntryModel>,
    i: int,
)
    requires
        0 <= i < entries.len(),
    ensures
        markdown_of(entry) == block_text(
            entry,
            rfc3339_of(entry.created_at.secs, entry.created_at.nanos),
        ),
        stamped(entries).len() == entries.len(),
        stamped(entries)[i] == (
            entries[i],
            rfc3339_of(entries[i].created_at.secs, entries[i].created_at.nanos),
        ),
        archive_text(Seq::empty()) == Seq::<char>::empty(),
        items.len() > 0 ==> archive_text(items) == block_text(items[0].0, items[0].1)
            + archive_text(items.skip(1)),
{
}

/// The entries that are read from an archive are those of its blocks, one by one.
pub proof fn each_block_becomes_an_entry(
    entries: Seq<EntryModel>,
    blocks: Seq<Block>,
    date: Seq<char>,
)
    requires
        all_made_from(entries, blocks),
    ensures
        entries.len() == blocks.len(),
        forall|i: int|
            0 <= i < entries.len() ==> {
                &&& (#[trigger] entries[i]).key == blocks[i].key
                &&& entries[i].value == blocks[i].value
                &&& entries[i].importance == blocks[i].importance
                &&& entries[i].source == blocks[i].source
                &&& entries[i].tags == blocks[i].tags
            },
        archive_name_of(date) == date + seq!['.', 'm', 'd'],
{
    reveal_strlit(".md");
    assert(".md"@ =~= seq!['.', 'm', 'd']);
}

/// Lines `---` around a block do not change what it holds.
pub proof fn dashes_around_a_block_do_not_count(text: Seq<char>)
    requires
        text.len() > 0,
        !is_space(text[0]),
        !is_space(text.last()),
    ensures
        parsed_block(seq!['-', '-', '-', '\n'] + text) == parsed_block(text),
        !has_start(text, seq!['-', '-', '-', '\n']) && text != seq!['-', '-', '-']
            ==> parsed_block(text + seq!['\n', '-', '-', '-']) == parsed_block(text),
{
    reveal_strlit("---\n");
    reveal_strlit("\n---");
    let before = seq!['-', '-', '-', '\n'];
    let after = seq!['\n', '-', '-', '-'];
    assert("---\n"@ =~= before);
    assert("\n---"@ =~= after);
    let a = before + text;
    assert(a[0] == '-' && a.last() == text.last());
    crate::text::lemma_trim_trimmed(a);
    crate::text::lemma_trim_trimmed(text);
    crate::laws::text::copies_at_the_start_are_taken_off(before, text);
    if !has_start(text, before) && text != seq!['-', '-', '-'] {
        let b = text + after;
        assert(b[0] == text[0] && b.last() == '-');
        crate::text::lemma_trim_trimmed(b);
        crate::laws::text::copies_at_the_start_are_taken_off(before, b);
        assert(!(4 <= b.len() && b.take(4) == before)) by {
            if b.take(4) == before {
                assert forall|k: int| 0 <= k < 4 implies b[k] == before[k] by {
                    assert(b.take(4)[k] == b[k]);
                }
                if text.len() >= 4 {
                    assert(text.take(4) =~= before);
                } else if text.len() == 3 {
                    assert(text =~= seq!['-', '-', '-']);
                } else {
                    assert(b[text.len() as int] == '\n');
                }
            }
        }
        copies_at_the_end_are_taken_off(text, after);
    }
}

/// A block is a head, an empty line and a text: it holds what the lines of its
/// head say and the text without white space at its ends, and nothing where the
/// head names no key.
pub proof fn blocks_are_a_head_and_a_text(head: Seq<char>, body: Seq<char>)
    requires
        ({
            let text = head + seq!['\n', '\n'] + body;
            &&& !is_space(text[0]) && !is_space(text.last())
            &&& !has_start(text, seq!['-', '-', '-', '\n'])
            &&& !(text.len() >= 4 && text.skip(text.len() - 4) == seq!['\n', '-', '-', '-'])
        }),
        forall|i: int| 0 <= i < head.len() - 1 ==> !(#[trigger] head[i] == '\n' && head[i + 1] == '\n'),
        head.len() > 0 && head.last() != '\n',
    ensures
        ({
            let said = head_of(lines_of(head));
            let block = parsed_block(head + seq!['\n', '\n'] + body);
            &&& said.key is None ==> block is None
            &&& said.key is Some ==> block == Some(
                Block {
                    key: said.key->0,
                    value: trim_of(body),
                    importance: said.importance,
                    source: said.source,
                    tags: said.tags,
                },
            )
        }),
{
    reveal_strlit("---\n");
    reveal_strlit("\n---");
    reveal_strlit("\n\n");
    let before = seq!['-', '-', '-', '\n'];
    let after = seq!['\n', '-', '-', '-'];
    let gap = seq!['\n', '\n'];
    assert("---\n"@ =~= before);
    assert("\n---"@ =~= after);
    assert("\n\n"@ =~= gap);
    let text = head + gap + body;
    crate::text::lemma_trim_trimmed(text);
    crate::laws::text::copies_at_the_start_are_taken_off(before, text);
    copies_at_the_end_are_taken_off(text, after);
    assert(bare_block(text) == text);
    let n = head.len() as int;
    assert(text.subrange(n, n + 2) =~= gap);
    assert(stands_at(text, n, gap));
    assert forall|j: int| 0 <= j < n implies !stands_at(text, j, gap) by {
        if stands_at(text, j, gap) {
            assert(text.subrange(j, j + 2)[0] == text[j]);
            assert(text.subrange(j, j + 2)[1] == text[j + 1]);
            assert(text[j] == head[j]);
            if j + 1 < n {
                assert(text[j + 1] == head[j + 1]);
                assert(!(head[j] == '\n' && head[j + 1] == '\n'));
            } else {
                assert(head[j] == head.last());
            }
        }
    }
    crate::text::lemma_find_is(text, gap, n);
    assert(text.take(n) =~= head);
    assert(text.skip(n + 2) =~= body);
}

} // verus!
