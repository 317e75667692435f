//! What is archived can be read back.

use crate::clock::is_stamp_char;
use crate::common::{importance_survives_its_name, EntryModel, Importance};
use crate::l3::{
    archive_of, bare_block, block_of, block_text, blocks_from, ends_block, head_lines, head_of,
    head_step, parsed_block, readable, trims_of, Block, Head,
};
use crate::text::{
    chomp, ends, find_of, first_at, is_space, is_trimmed, join_of, lemma_find_is, lemma_first_at,
    lemma_join_front, lemma_lines_concat, lemma_lines_front, lemma_lines_single, lemma_split_front,
    lemma_trim_back, lemma_trim_front, lemma_trim_trimmed, lines_of, split_of, stands_at, starts,
    trim_end_of, trim_of, trim_start_of, without_prefix, without_prefixes, without_suffixes,
};
use vstd::prelude::*;

verus! {

/// Whether a text is a time stamp: digits, signs, `:`, `.` and `T`.
pub open spec fn is_stamp(stamp: Seq<char>) -> bool {
    forall|i: int| 0 <= i < stamp.len() ==> is_stamp_char(#[trigger] stamp[i])
}

/// Whether a text is one line without white space at its ends.
pub open spec fn is_field(s: Seq<char>) -> bool {
    is_trimmed(s) && !s.contains('\n')
}

/// Whether the parts of an entry can be told apart in a block: its key is not
/// empty; key, source and tags are single lines without white space at their
/// ends; no tag holds a comma; the list of tags neither starts with `[` nor
/// ends with `]`; and the text has no white space at its ends.
pub open spec fn fits_block(entry: EntryModel) -> bool {
    let list = join_of(entry.tags, ", "@);
    &&& entry.key.len() > 0
    &&& is_field(entry.key)
    &&& is_field(entry.source)
    &&& forall|i: int|
        0 <= i < entry.tags.len() ==> is_field(#[trigger] entry.tags[i]) && !entry.tags[i].contains(
            ',',
        )
    &&& list.len() > 0 ==> list[0] != '[' && list.last() != ']'
    &&& is_trimmed(entry.value)
}

proof fn lemma_prefix(p: Seq<char>, rest: Seq<char>)
    ensures
        starts(p + rest, p),
        without_prefix(p + rest, p) == Some(rest),
{
    let s = p + rest;
    assert(s.subrange(0, p.len() as int) =~= p);
    assert(s.skip(p.len() as int) =~= rest);
}

proof fn lemma_no_prefix(s: Seq<char>, p: Seq<char>, i: int)
    requires
        0 <= i < p.len(),
        i < s.len() ==> s[i] != p[i],
    ensures
        without_prefix(s, p) is None,
        !starts(s, p),
{
    if starts(s, p) {
        assert(s.subrange(0, p.len() as int)[i] == s[i]);
    }
}

proof fn lemma_trimmed_concat(p: Seq<char>, rest: Seq<char>)
    requires
        p.len() > 0,
        !is_space(p[0]),
        rest.len() > 0,
        !is_space(rest.last()),
    ensures
        trim_of(p + rest) == p + rest,
{
    let s = p + rest;
    assert(s[0] == p[0]);
    assert(s.last() == rest.last());
    lemma_trim_trimmed(s);
}

proof fn lemma_trim_space(s: Seq<char>)
    requires
        is_trimmed(s),
    ensures
        trim_of(seq![' '] + s) == s,
{
    lemma_trim_front(' ', s);
    lemma_trim_trimmed(s);
}

proof fn lemma_key_line(head: Head, key: Seq<char>)
    requires
        key.len() > 0,
        is_field(key),
    ensures
        head_step(head, "## "@ + key) == (Head { key: Some(key), ..head }),
{
    reveal_strlit("## ");
    lemma_trimmed_concat("## "@, key);
    lemma_prefix("## "@, key);
    lemma_trim_trimmed(key);
}

proof fn lemma_importance_line(head: Head, importance: Importance)
    ensures
        head_step(head, "**重要性**: "@ + importance.title_of()) == (Head { importance, ..head }),
{
    reveal_strlit("## ");
    reveal_strlit("**重要性**:");
    reveal_strlit("**重要性**: ");
    reveal_strlit("Low");
    reveal_strlit("Normal");
    reveal_strlit("High");
    reveal_strlit("Critical");
    let p = "**重要性**:"@;
    let title = importance.title_of();
    let line = "**重要性**: "@ + title;
    assert(title.len() > 0 && !is_space(title.last()) && !is_space(title[0]));
    lemma_trimmed_concat("**重要性**: "@, title);
    lemma_no_prefix(line, "## "@, 0);
    assert(line =~= p + (seq![' '] + title));
    lemma_prefix(p, seq![' '] + title);
    lemma_trim_space(title);
    importance_survives_its_name(importance);
}

proof fn lemma_source_line(head: Head, source: Seq<char>)
    requires
        is_field(source),
    ensures
        head_step(head, "**来源**: "@ + source) == (Head { source, ..head }),
{
    reveal_strlit("## ");
    reveal_strlit("**重要性**:");
    reveal_strlit("**来源**:");
    reveal_strlit("**来源**: ");
    let p = "**来源**:"@;
    let line = "**来源**: "@ + source;
    if source.len() > 0 {
        lemma_trimmed_concat("**来源**: "@, source);
        assert(line =~= p + (seq![' '] + source));
        lemma_prefix(p, seq![' '] + source);
        lemma_no_prefix(line, "## "@, 0);
        lemma_no_prefix(line, "**重要性**:"@, 2);
        lemma_trim_space(source);
    } else {
        assert(line =~= p.push(' '));
        lemma_trim_back(p, ' ');
        lemma_trim_trimmed(p);
        lemma_no_prefix(p, "## "@, 0);
        lemma_no_prefix(p, "**重要性**:"@, 2);
        assert(p =~= p + source);
        lemma_prefix(p, source);
        lemma_trim_trimmed(source);
    }
}

/// Splitting a list of tags, with a blank before it or not, and trimming gives
/// the tags.
proof fn lemma_split_tags(tags: Seq<Seq<char>>, blank: bool)
    requires
        tags.len() > 0,
        forall|i: int|
            0 <= i < tags.len() ==> is_trimmed(#[trigger] tags[i]) && !tags[i].contains(','),
    ensures
        trims_of(
            split_of(
                (if blank {
                    seq![' ']
                } else {
                    Seq::<char>::empty()
                }) + join_of(tags, ", "@),
                ',',
            ),
        ) == tags,
    decreases tags.len(),
{
    reveal_strlit(", ");
    let w = if blank {
        seq![' ']
    } else {
        Seq::<char>::empty()
    };
    let first = w + tags[0];
    assert(!first.contains(',')) by {
        if first.contains(',') {
            let k = first.index_of(',');
            if k >= w.len() {
                assert(tags[0][k - w.len()] == ',');
            }
        }
    }
    assert(trim_of(first) == tags[0]) by {
        if blank {
            lemma_trim_space(tags[0]);
        } else {
            assert(first =~= tags[0]);
            lemma_trim_trimmed(tags[0]);
        }
    }
    if tags.len() == 1 {
        lemma_first_at(first, ',');
        assert(split_of(first, ',') =~= seq![first]);
        assert(trims_of(seq![first]) =~= tags);
    } else {
        let rest = tags.skip(1);
        assert forall|i: int| 0 <= i < rest.len() implies is_trimmed(#[trigger] rest[i])
            && !rest[i].contains(',') by {
            assert(rest[i] == tags[i + 1]);
        }
        lemma_split_tags(rest, true);
        lemma_join_front(tags, ", "@);
        let tail = seq![' '] + join_of(rest, ", "@);
        assert(w + join_of(tags, ", "@) =~= first + seq![','] + tail);
        lemma_split_front(first, ',', tail);
        let all = split_of(w + join_of(tags, ", "@), ',');
        let after = split_of(tail, ',');
        assert(all == seq![first] + after);
        assert(trims_of(all) =~= seq![trim_of(first)] + trims_of(after));
        assert(tags =~= seq![tags[0]] + rest);
    }
}

proof fn lemma_brackets(list: Seq<char>)
    requires
        list.len() > 0 ==> list[0] != '[' && list.last() != ']',
    ensures
        without_suffixes(without_prefixes("["@ + list + "]"@, "["@), "]"@) == list,
{
    reveal_strlit("[");
    reveal_strlit("]");
    let open = "["@;
    let close = "]"@;
    let s = open + list + close;
    let t = list + close;
    assert(s =~= open + t);
    lemma_prefix(open, t);
    assert(s.skip(1) =~= t);
    assert(without_prefixes(s, open) == without_prefixes(t, open));
    assert(t[0] != '[');
    lemma_no_prefix(t, open, 0);
    assert(without_prefixes(t, open) == t);
    assert(t.subrange(t.len() - 1, t.len() as int) =~= close);
    assert(t.take(t.len() - 1) =~= list);
    assert(without_suffixes(t, close) == without_suffixes(list, close));
    if ends(list, close) {
        assert(list.subrange(list.len() - 1, list.len() as int)[0] == list.last());
    }
}

proof fn lemma_tags_line(head: Head, tags: Seq<Seq<char>>)
    requires
        forall|i: int|
            0 <= i < tags.len() ==> is_field(#[trigger] tags[i]) && !tags[i].contains(','),
        join_of(tags, ", "@).len() > 0 ==> join_of(tags, ", "@)[0] != '[' && join_of(
            tags,
            ", "@,
        ).last() != ']',
    ensures
        head_step(head, "**标签**: ["@ + join_of(tags, ", "@) + "]"@) == (Head {
            tags: if tags.len() == 0 {
                seq![Seq::<char>::empty()]
            } else {
                tags
            },
            ..head
        }),
{
    reveal_strlit("## ");
    reveal_strlit("**重要性**:");
    reveal_strlit("**来源**:");
    reveal_strlit("**标签**:");
    reveal_strlit("**标签**: [");
    reveal_strlit("[");
    reveal_strlit("]");
    let p = "**标签**:"@;
    let list = join_of(tags, ", "@);
    let line = "**标签**: ["@ + list + "]"@;
    let inner = "["@ + list + "]"@;
    assert(line =~= "**标签**: ["@ + (list + "]"@));
    lemma_trimmed_concat("**标签**: ["@, list + "]"@);
    assert(line =~= p + (seq![' '] + inner));
    lemma_prefix(p, seq![' '] + inner);
    lemma_no_prefix(line, "## "@, 0);
    lemma_no_prefix(line, "**重要性**:"@, 2);
    lemma_no_prefix(line, "**来源**:"@, 2);
    assert(is_trimmed(inner));
    lemma_trim_space(inner);
    lemma_brackets(list);
    assert(Seq::<char>::empty() + list =~= list);
    if tags.len() == 0 {
        assert(list =~= Seq::empty());
        lemma_first_at(list, ',');
        assert(split_of(list, ',') =~= seq![list]);
        lemma_trim_trimmed(list);
        assert(trims_of(seq![list]) =~= seq![Seq::<char>::empty()]);
    } else {
        lemma_split_tags(tags, false);
    }
}

proof fn lemma_stamp_line(head: Head, stamp: Seq<char>)
    requires
        is_stamp(stamp),
    ensures
        head_step(head, "**创建时间**: "@ + stamp) == head,
{
    reveal_strlit("## ");
    reveal_strlit("**重要性**:");
    reveal_strlit("**来源**:");
    reveal_strlit("**标签**:");
    reveal_strlit("**创建时间**: ");
    let p = "**创建时间**: "@;
    let line = p + stamp;
    let t = trim_of(line);
    assert(t.len() >= 3 && t[0] == '*' && t[2] == '创') by {
        if stamp.len() > 0 {
            assert(is_stamp_char(stamp[stamp.len() - 1]));
            lemma_trimmed_concat(p, stamp);
        } else {
            let q = p.drop_last();
            assert(line =~= q.push(' '));
            lemma_trim_back(q, ' ');
            lemma_trim_trimmed(q);
        }
    }
    lemma_no_prefix(t, "## "@, 0);
    lemma_no_prefix(t, "**重要性**:"@, 2);
    lemma_no_prefix(t, "**来源**:"@, 2);
    lemma_no_prefix(t, "**标签**:"@, 2);
}

proof fn lemma_head(entry: EntryModel, stamp: Seq<char>)
    requires
        fits_block(entry),
        is_stamp(stamp),
    ensures
        head_of(head_lines(entry, stamp)) == (Head {
            key: Some(entry.key),
            importance: entry.importance,
            source: entry.source,
            tags: block_of(entry).tags,
        }),
{
    let h = head_lines(entry, stamp);
    let h4 = h.drop_last();
    let h3 = h4.drop_last();
    let h2 = h3.drop_last();
    let h1 = h2.drop_last();
    assert(h1.drop_last() =~= Seq::empty());
    lemma_key_line(head_of(h1.drop_last()), entry.key);
    lemma_importance_line(head_of(h1), entry.importance);
    lemma_source_line(head_of(h2), entry.source);
    lemma_tags_line(head_of(h3), entry.tags);
    lemma_stamp_line(head_of(h4), stamp);
}

/// Whether a line of a head is not empty and holds no line break.
spec fn is_head_line(line: Seq<char>) -> bool {
    line.len() > 0 && !line.contains('\n') && chomp(line) == line
}

/// Whether no line feed follows a carriage return.
pub open spec fn no_crlf(s: Seq<char>) -> bool {
    forall|k: int| 0 <= k < s.len() - 1 ==> !(#[trigger] s[k] == '\r' && s[k + 1] == '\n')
}

/// Whether no two line feeds follow each other.
spec fn no_gap(s: Seq<char>) -> bool {
    forall|k: int| 0 <= k < s.len() - 1 ==> !(#[trigger] s[k] == '\n' && s[k + 1] == '\n')
}

proof fn lemma_not_in_concat(a: Seq<char>, b: Seq<char>, c: char)
    requires
        !a.contains(c),
        !b.contains(c),
    ensures
        !(a + b).contains(c),
{
    let s = a + b;
    if s.contains(c) {
        let k = s.index_of(c);
        if k < a.len() {
            assert(a[k] == c);
        } else {
            assert(b[k - a.len()] == c);
        }
    }
}

proof fn lemma_join_no_newline(parts: Seq<Seq<char>>, sep: Seq<char>)
    requires
        !sep.contains('\n'),
        forall|i: int| 0 <= i < parts.len() ==> !(#[trigger] parts[i]).contains('\n'),
    ensures
        !join_of(parts, sep).contains('\n'),
    decreases parts.len(),
{
    if parts.len() == 1 {
        assert(!parts[0].contains('\n'));
    } else if parts.len() > 1 {
        let rest = parts.drop_last();
        assert forall|i: int| 0 <= i < rest.len() implies !(#[trigger] rest[i]).contains('\n') by {
            assert(rest[i] == parts[i]);
        }
        lemma_join_no_newline(rest, sep);
        lemma_not_in_concat(join_of(rest, sep), sep, '\n');
        assert(!parts[parts.len() - 1].contains('\n'));
        lemma_not_in_concat(join_of(rest, sep) + sep, parts.last(), '\n');
    }
}

proof fn lemma_head_lines(entry: EntryModel, stamp: Seq<char>)
    requires
        fits_block(entry),
        is_stamp(stamp),
    ensures
        forall|i: int| 0 <= i < 5 ==> is_head_line(#[trigger] head_lines(entry, stamp)[i]),
        head_lines(entry, stamp)[0][0] == '#',
        head_lines(entry, stamp).len() == 5,
{
    reveal_strlit("## ");
    reveal_strlit("**重要性**: ");
    reveal_strlit("**来源**: ");
    reveal_strlit("**标签**: [");
    reveal_strlit("]");
    reveal_strlit(", ");
    reveal_strlit("**创建时间**: ");
    reveal_strlit("Low");
    reveal_strlit("Normal");
    reveal_strlit("High");
    reveal_strlit("Critical");
    let h = head_lines(entry, stamp);
    lemma_not_in_concat("## "@, entry.key, '\n');
    lemma_not_in_concat("**重要性**: "@, entry.importance.title_of(), '\n');
    lemma_not_in_concat("**来源**: "@, entry.source, '\n');
    assert forall|i: int| 0 <= i < entry.tags.len() implies !(#[trigger] entry.tags[i]).contains(
        '\n',
    ) by {
        assert(is_field(entry.tags[i]));
    }
    lemma_join_no_newline(entry.tags, ", "@);
    lemma_not_in_concat("**标签**: ["@, join_of(entry.tags, ", "@), '\n');
    lemma_not_in_concat("**标签**: ["@ + join_of(entry.tags, ", "@), "]"@, '\n');
    assert(!stamp.contains('\n')) by {
        if stamp.contains('\n') {
            assert(is_stamp_char(stamp[stamp.index_of('\n')]));
        }
    }
    lemma_not_in_concat("**创建时间**: "@, stamp, '\n');
    assert(h[0].last() == entry.key.last());
    assert(h[1].last() == entry.importance.title_of().last());
    assert(h[2].last() != '\r') by {
        if entry.source.len() > 0 {
            assert(h[2].last() == entry.source.last());
        }
    }
    assert(h[3].last() == ']');
    assert(h[4].last() != '\r') by {
        if stamp.len() > 0 {
            assert(is_stamp_char(stamp[stamp.len() - 1]));
            assert(h[4].last() == stamp.last());
        }
    }
    assert(is_head_line(h[0]));
    assert(is_head_line(h[1]));
    assert(is_head_line(h[2]));
    assert(is_head_line(h[3]));
    assert(is_head_line(h[4]));
}

proof fn lemma_joined_head(parts: Seq<Seq<char>>)
    requires
        parts.len() > 0,
        forall|i: int| 0 <= i < parts.len() ==> is_head_line(#[trigger] parts[i]),
    ensures
        join_of(parts, "\n"@).len() > 0,
        join_of(parts, "\n"@)[0] == parts[0][0],
        join_of(parts, "\n"@).last() != '\n',
        join_of(parts, "\n"@).last() != '\r',
        no_gap(join_of(parts, "\n"@)),
        no_crlf(join_of(parts, "\n"@)),
    decreases parts.len(),
{
    reveal_strlit("\n");
    let j = join_of(parts, "\n"@);
    let last = parts.last();
    assert(is_head_line(parts[parts.len() - 1]));
    assert forall|k: int| 0 <= k < last.len() implies #[trigger] last[k] != '\n' by {
        if last[k] == '\n' {
            assert(last.contains('\n'));
        }
    }
    if parts.len() == 1 {
        assert(j == parts[0]);
    } else {
        let rest = parts.drop_last();
        assert forall|i: int| 0 <= i < rest.len() implies is_head_line(#[trigger] rest[i]) by {
            assert(rest[i] == parts[i]);
        }
        lemma_joined_head(rest);
        let r = join_of(rest, "\n"@);
        assert(j == r + "\n"@ + last);
        assert(j.last() == last.last());
        assert forall|k: int| 0 <= k < j.len() - 1 implies !(#[trigger] j[k] == '\r' && j[k + 1]
            == '\n') by {
            if k + 1 < r.len() {
                assert(r[k] == j[k]);
                assert(r[k + 1] == j[k + 1]);
            } else if k + 1 == r.len() {
                assert(j[k] == r.last());
            } else {
                assert(j[k + 1] == last[k + 1 - r.len() - 1]);
            }
        }
        assert forall|k: int| 0 <= k < j.len() - 1 implies !(#[trigger] j[k] == '\n' && j[k + 1]
            == '\n') by {
            if k + 1 < r.len() {
                assert(r[k] == j[k]);
                assert(r[k + 1] == j[k + 1]);
            } else if k + 1 == r.len() {
                assert(j[k] == r.last());
            } else {
                assert(j[k + 1] == last[k + 1 - r.len() - 1]);
            }
        }
    }
}

proof fn lemma_lines_join(parts: Seq<Seq<char>>)
    requires
        parts.len() > 0,
        forall|i: int| 0 <= i < parts.len() ==> is_head_line(#[trigger] parts[i]),
    ensures
        lines_of(join_of(parts, "\n"@)) == parts,
    decreases parts.len(),
{
    reveal_strlit("\n");
    assert(is_head_line(parts[0]));
    if parts.len() == 1 {
        lemma_lines_single(parts[0]);
        assert(seq![parts[0]] =~= parts);
    } else {
        let rest = parts.skip(1);
        assert forall|i: int| 0 <= i < rest.len() implies is_head_line(#[trigger] rest[i]) by {
            assert(rest[i] == parts[i + 1]);
        }
        lemma_lines_join(rest);
        lemma_join_front(parts, "\n"@);
        assert("\n"@ =~= seq!['\n']);
        lemma_lines_front(parts[0], join_of(rest, "\n"@));
        assert(seq![parts[0]] + rest =~= parts);
    }
}

/// The gap after a head is the first one.
proof fn lemma_gap(head: Seq<char>, tail: Seq<char>)
    requires
        head.len() > 0,
        head.last() != '\n',
        no_gap(head),
    ensures
        find_of(head + "\n\n"@ + tail, "\n\n"@) == Some(head.len() as int),
        (head + "\n\n"@ + tail).take(head.len() as int) == head,
        (head + "\n\n"@ + tail).skip(head.len() as int + 2) == tail,
{
    reveal_strlit("\n\n");
    let gap = "\n\n"@;
    let s = head + gap + tail;
    assert(s.subrange(head.len() as int, head.len() as int + 2) =~= gap);
    assert forall|j: int| 0 <= j < head.len() implies !stands_at(s, j, gap) by {
        if stands_at(s, j, gap) {
            assert(s.subrange(j, j + 2)[0] == s[j]);
            assert(s.subrange(j, j + 2)[1] == s[j + 1]);
            if j + 1 < head.len() {
                assert(head[j] == s[j] && head[j + 1] == s[j + 1]);
            } else {
                assert(s[j] == head.last());
            }
        }
    }
    lemma_find_is(s, gap, head.len() as int);
    assert(s.take(head.len() as int) =~= head);
    assert(s.skip(head.len() as int + 2) =~= tail);
}

/// A block of an entry whose parts can be told apart is read back: key, text,
/// importance, source and tags come out as they went in, except that no tags
/// come back as one empty tag.
pub proof fn block_is_read_back(entry: EntryModel, stamp: Seq<char>)
    requires
        fits_block(entry),
        is_stamp(stamp),
    ensures
        parsed_block(block_text(entry, stamp)) == Some(block_of(entry)),
{
    reveal_strlit("\n\n");
    reveal_strlit("\n\n---\n");
    reveal_strlit("---\n");
    reveal_strlit("\n---");
    let h = head_lines(entry, stamp);
    let head = join_of(h, "\n"@);
    lemma_head_lines(entry, stamp);
    lemma_joined_head(h);
    lemma_lines_join(h);
    lemma_head(entry, stamp);

    let text = block_text(entry, stamp);
    let t = text.drop_last();
    let u = head + "\n\n"@ + (entry.value + seq!['\n']);
    assert(text =~= t.push('\n'));
    assert(t =~= u + "\n---"@);
    assert(t[0] == head[0]);
    lemma_trim_back(t, '\n');
    lemma_trim_trimmed(t);
    lemma_no_prefix(t, "---\n"@, 0);
    assert(without_prefixes(t, "---\n"@) == t);
    assert(t.subrange(t.len() - 4, t.len() as int) =~= "\n---"@);
    assert(t.take(t.len() - 4) =~= u);
    assert(without_suffixes(t, "\n---"@) == without_suffixes(u, "\n---"@));
    assert(u.last() == '\n');
    if ends(u, "\n---"@) {
        assert(u.subrange(u.len() - 4, u.len() as int)[3] == u.last());
    }
    assert(bare_block(text) == u);
    lemma_gap(head, entry.value + seq!['\n']);
    assert(entry.value + seq!['\n'] =~= entry.value.push('\n'));
    lemma_trim_back(entry.value, '\n');
    lemma_trim_trimmed(entry.value);
}

/// Whether an entry can be told apart from its neighbours in an archive: its
/// parts can be told apart in a block, its text is not empty, none of the lines
/// of its text is `---`, and they end with a line feed alone.
pub open spec fn fits_archive(entry: EntryModel) -> bool {
    &&& fits_block(entry)
    &&& entry.value.len() > 0
    &&& no_crlf(entry.value)
    &&& forall|i: int|
        0 <= i < lines_of(entry.value).len() ==> !ends_block(#[trigger] lines_of(entry.value)[i])
}

/// The lines, each with a line feed after it.
spec fn unlines(lines: Seq<Seq<char>>) -> Seq<char>
    decreases lines.len(),
{
    if lines.len() == 0 {
        Seq::empty()
    } else {
        lines[0] + "\n"@ + unlines(lines.skip(1))
    }
}

spec fn none_ends_block(lines: Seq<Seq<char>>) -> bool {
    forall|i: int| 0 <= i < lines.len() ==> !ends_block(#[trigger] lines[i])
}

proof fn lemma_unlines(s: Seq<char>)
    requires
        s.len() == 0 || s.last() == '\n',
        no_crlf(s),
    ensures
        unlines(lines_of(s)) == s,
    decreases s.len(),
{
    reveal_strlit("\n");
    if s.len() > 0 {
        lemma_first_at(s, '\n');
        assert(s.contains('\n')) by {
            assert(s[s.len() - 1] == '\n');
        }
        let i = first_at(s, '\n');
        let line = s.take(i);
        let rest = s.skip(i + 1);
        assert(!line.contains('\n'));
        assert(s =~= line + seq!['\n'] + rest);
        lemma_lines_front(line, rest);
        assert(chomp(line) == line) by {
            if line.len() > 0 && line.last() == '\r' {
                assert(s[i - 1] == '\r');
                assert(s[i - 1 + 1] == '\n');
            }
        }
        if rest.len() > 0 {
            assert(rest.last() == s.last());
        }
        assert(no_crlf(rest)) by {
            assert forall|k: int| 0 <= k < rest.len() - 1 implies !(#[trigger] rest[k] == '\r'
                && rest[k + 1] == '\n') by {
                assert(rest[k] == s[k + i + 1]);
                assert(rest[k + 1] == s[k + i + 1 + 1]);
            }
        }
        lemma_unlines(rest);
        let all = lines_of(s);
        assert(all[0] == line);
        assert(all.skip(1) =~= lines_of(rest));
    }
}

proof fn lemma_blocks_skip(lines: Seq<Seq<char>>, more: Seq<Seq<char>>, current: Seq<char>)
    requires
        none_ends_block(lines),
    ensures
        blocks_from(lines + more, current) == blocks_from(more, current + unlines(lines)),
    decreases lines.len(),
{
    if lines.len() == 0 {
        assert(lines + more =~= more);
        assert(current + unlines(lines) =~= current);
    } else {
        let rest = lines.skip(1);
        assert(none_ends_block(rest)) by {
            assert forall|i: int| 0 <= i < rest.len() implies !ends_block(#[trigger] rest[i]) by {
                assert(rest[i] == lines[i + 1]);
            }
        }
        let all = lines + more;
        assert(all[0] == lines[0]);
        assert(all.skip(1) =~= rest + more);
        let next = current + lines[0] + "\n"@;
        lemma_blocks_skip(rest, more, next);
        assert(next + unlines(rest) =~= current + unlines(lines));
    }
}

/// A line feed at the end of a text that does not end in a line break ends its
/// last line.
proof fn lemma_lines_ended(s: Seq<char>)
    requires
        s.len() > 0,
        s.last() != '\n',
        s.last() != '\r',
    ensures
        lines_of(s + seq!['\n']) == lines_of(s),
    decreases s.len(),
{
    lemma_first_at(s, '\n');
    let i = first_at(s, '\n');
    if i < s.len() {
        let line = s.take(i);
        let rest = s.skip(i + 1);
        assert(!line.contains('\n'));
        assert(s =~= line + seq!['\n'] + rest);
        assert(s + seq!['\n'] =~= line + seq!['\n'] + (rest + seq!['\n']));
        assert(rest.len() > 0) by {
            if rest.len() == 0 {
                assert(s.last() == s[i]);
            }
        }
        assert(rest.last() == s.last());
        lemma_lines_front(line, rest);
        lemma_lines_front(line, rest + seq!['\n']);
        lemma_lines_ended(rest);
    } else {
        assert(!s.contains('\n'));
        assert(s + seq!['\n'] =~= s + seq!['\n'] + Seq::<char>::empty());
        lemma_lines_front(s, Seq::empty());
        lemma_lines_single(s);
        assert(seq![s] + Seq::<Seq<char>>::empty() =~= seq![s]);
    }
}

proof fn lemma_trim_end_keeps_start(s: Seq<char>)
    requires
        s.len() > 0,
        !is_space(s[0]),
    ensures
        trim_end_of(s).len() > 0,
        trim_end_of(s)[0] == s[0],
    decreases s.len(),
{
    if is_space(s.last()) {
        assert(s.len() > 1);
        assert(s.drop_last()[0] == s[0]);
        lemma_trim_end_keeps_start(s.drop_last());
    }
}

proof fn lemma_not_end(line: Seq<char>)
    requires
        line.len() > 0 ==> !is_space(line[0]) && line[0] != '-',
    ensures
        !ends_block(line),
{
    reveal_strlit("---");
    if line.len() > 0 {
        lemma_trim_end_keeps_start(line);
        assert(trim_start_of(line) == line);
    }
}

/// The text of a block before its last line.
spec fn block_body(entry: EntryModel, stamp: Seq<char>) -> Seq<char> {
    join_of(head_lines(entry, stamp), "\n"@) + "\n\n"@ + entry.value + "\n\n"@
}

proof fn lemma_body_lines(entry: EntryModel, stamp: Seq<char>)
    requires
        fits_archive(entry),
        is_stamp(stamp),
    ensures
        none_ends_block(lines_of(block_body(entry, stamp))),
        unlines(lines_of(block_body(entry, stamp))) == block_body(entry, stamp),
        block_body(entry, stamp).len() > 0,
        block_body(entry, stamp).last() == '\n',
{
    reveal_strlit("\n\n");
    reveal_strlit("## ");
    reveal_strlit("**重要性**: ");
    reveal_strlit("**来源**: ");
    reveal_strlit("**标签**: [");
    reveal_strlit("**创建时间**: ");
    let h = head_lines(entry, stamp);
    let head = join_of(h, "\n"@);
    let nl = seq!['\n'];
    let body = block_body(entry, stamp);
    lemma_head_lines(entry, stamp);
    lemma_joined_head(h);
    lemma_lines_join(h);
    lemma_lines_ended(head);
    lemma_lines_ended(entry.value);
    let a = head + nl;
    let b = entry.value + nl;
    assert(body =~= a + (nl + (b + nl)));
    lemma_lines_concat(a, nl + (b + nl));
    lemma_lines_concat(nl, b + nl);
    lemma_lines_concat(b, nl);
    assert(nl =~= Seq::<char>::empty() + nl + Seq::<char>::empty());
    lemma_lines_front(Seq::empty(), Seq::empty());
    let blank = lines_of(nl);
    assert(blank =~= seq![Seq::<char>::empty()]);
    let all = lines_of(body);
    let values = lines_of(entry.value);
    assert(all =~= h + (blank + (values + blank)));
    assert forall|i: int| 0 <= i < all.len() implies !ends_block(#[trigger] all[i]) by {
        if i < 5 {
            assert(all[i] == h[i]);
            assert(is_head_line(h[i]));
            assert(h[0][0] == '#' && h[1][0] == '*' && h[2][0] == '*' && h[3][0] == '*'
                && h[4][0] == '*');
            lemma_not_end(all[i]);
        } else if i == 5 {
            assert(all[i] =~= Seq::<char>::empty());
            lemma_not_end(all[i]);
        } else if i < 6 + values.len() {
            assert(all[i] == values[i - 6]);
        } else {
            assert(all[i] =~= Seq::<char>::empty());
            lemma_not_end(all[i]);
        }
    }
    assert(no_crlf(body)) by {
        assert forall|k: int| 0 <= k < body.len() - 1 implies !(#[trigger] body[k] == '\r'
            && body[k + 1] == '\n') by {
            let n = head.len();
            let m = n + 2 + entry.value.len();
            if k < n {
                assert(body[k] == head[k]);
                if k + 1 < n {
                    assert(body[k + 1] == head[k + 1]);
                } else {
                    assert(body[k] == head.last());
                }
            } else if n + 2 <= k < m {
                let v = k - n - 2;
                assert(body[k] == entry.value[v]);
                if k + 1 < m {
                    assert(body[k + 1] == entry.value[v + 1]);
                } else {
                    assert(body[k] == entry.value.last());
                }
            }
        }
    }
    lemma_unlines(body);
}

proof fn lemma_body_is_read_back(entry: EntryModel, stamp: Seq<char>)
    requires
        fits_archive(entry),
        is_stamp(stamp),
    ensures
        parsed_block(block_body(entry, stamp)) == Some(block_of(entry)),
{
    reveal_strlit("\n\n");
    reveal_strlit("---\n");
    reveal_strlit("\n---");
    reveal_strlit("---");
    let h = head_lines(entry, stamp);
    let head = join_of(h, "\n"@);
    lemma_head_lines(entry, stamp);
    lemma_joined_head(h);
    lemma_lines_join(h);
    lemma_head(entry, stamp);
    let v = entry.value;
    let text = block_body(entry, stamp);
    let t = head + "\n\n"@ + v;
    assert(text =~= t.push('\n').push('\n'));
    assert(t[0] == head[0]);
    assert(t.last() == v.last());
    lemma_trim_back(t.push('\n'), '\n');
    lemma_trim_back(t, '\n');
    lemma_trim_trimmed(t);
    lemma_no_prefix(t, "---\n"@, 0);
    assert(without_prefixes(t, "---\n"@) == t);
    let end = "\n---"@;
    if ends(t, end) {
        let k = t.len() - 4;
        let tail = t.subrange(k, t.len() as int);
        assert(tail[0] == t[k] && tail[1] == t[k + 1] && tail[2] == t[k + 2] && tail[3] == t[k
            + 3]);
        let lines = lines_of(v);
        if v.len() < 3 {
            assert(t[head.len() as int + 1] == '\n');
        } else if v.len() == 3 {
            assert(v =~= "---"@);
            assert(!v.contains('\n'));
            lemma_lines_single(v);
            lemma_trim_trimmed(v);
            assert(ends_block(lines[0]));
        } else {
            let w = v.take(v.len() - 4);
            let dashes = "---"@;
            assert(v =~= (w + seq!['\n']) + dashes) by {
                assert(v[v.len() - 4] == t[k]);
                assert(v[v.len() - 3] == t[k + 1]);
                assert(v[v.len() - 2] == t[k + 2]);
                assert(v[v.len() - 1] == t[k + 3]);
            }
            lemma_lines_concat(w + seq!['\n'], dashes);
            assert(!dashes.contains('\n'));
            lemma_lines_single(dashes);
            lemma_trim_trimmed(dashes);
            assert(lines[lines.len() - 1] == dashes);
            assert(ends_block(lines[lines.len() - 1]));
        }
    }
    assert(bare_block(text) == t);
    lemma_gap(head, v);
    lemma_trim_trimmed(v);
}

/// The blocks of entries, each with its time stamp, one after the other.
pub open spec fn archive_text(items: Seq<(EntryModel, Seq<char>)>) -> Seq<char>
    decreases items.len(),
{
    if items.len() == 0 {
        Seq::empty()
    } else {
        block_text(items[0].0, items[0].1) + archive_text(items.skip(1))
    }
}

/// What the blocks of entries keep of them.
pub open spec fn kept_of(items: Seq<(EntryModel, Seq<char>)>) -> Seq<Block> {
    Seq::new(items.len(), |i: int| block_of(items[i].0))
}

/// An archive of entries that can be told apart is read back: each entry comes
/// out as it went in, in order.
pub proof fn archive_is_read_back(items: Seq<(EntryModel, Seq<char>)>)
    requires
        forall|i: int|
            0 <= i < items.len() ==> fits_archive((#[trigger] items[i]).0) && is_stamp(items[i].1),
    ensures
        archive_of(lines_of(archive_text(items))) == kept_of(items),
    decreases items.len(),
{
    if items.len() == 0 {
        assert(kept_of(items) =~= Seq::empty());
        assert(blocks_from(Seq::empty(), Seq::empty()) =~= Seq::empty());
        assert(readable(Seq::empty()) =~= Seq::empty());
    } else {
        let rest = items.skip(1);
        assert forall|i: int| 0 <= i < rest.len() implies fits_archive((#[trigger] rest[i]).0)
            && is_stamp(rest[i].1) by {
            assert(rest[i] == items[i + 1]);
        }
        archive_is_read_back(rest);
        block_extends_archive(items[0].0, items[0].1, archive_text(rest));
        assert(kept_of(items) =~= seq![block_of(items[0].0)] + kept_of(rest));
    }
}

/// A block at the start of an archive is read back before what follows it.
pub proof fn block_extends_archive(entry: EntryModel, stamp: Seq<char>, more: Seq<char>)
    requires
        fits_archive(entry),
        is_stamp(stamp),
    ensures
        archive_of(lines_of(block_text(entry, stamp) + more)) == seq![block_of(entry)]
            + archive_of(lines_of(more)),
{
    reveal_strlit("\n\n");
    reveal_strlit("\n\n---\n");
    reveal_strlit("---");
    let body = block_body(entry, stamp);
    let dashes = "---"@;
    lemma_body_lines(entry, stamp);
    lemma_body_is_read_back(entry, stamp);
    let tail = dashes + seq!['\n'] + more;
    assert(block_text(entry, stamp) + more =~= body + tail);
    lemma_lines_concat(body, tail);
    assert(!dashes.contains('\n'));
    lemma_lines_front(dashes, more);
    assert(chomp(dashes) == dashes);
    let after = lines_of(tail);
    assert(after[0] == dashes);
    assert(after.skip(1) =~= lines_of(more));
    lemma_trim_trimmed(dashes);
    lemma_blocks_skip(lines_of(body), after, Seq::empty());
    assert(Seq::<char>::empty() + unlines(lines_of(body)) =~= body);
    let blocks = blocks_from(lines_of(body) + after, Seq::empty());
    assert(blocks == seq![body] + blocks_from(lines_of(more), Seq::empty()));
    assert(blocks[0] == body);
    assert(blocks.skip(1) =~= blocks_from(lines_of(more), Seq::empty()));
}

} // verus!
