//! What reading old notes promises.

use crate::common::{EntryModel, Importance, Layer};
use crate::laws::text::{
    joined_texts_are_split_again, parts_stand_at_places, trimming_takes_off_white_space,
};
use crate::notes::{
    are_log_lines, closed_sections, item_text, log_lines, read_line, reading_of, sections_of,
    slug_of, Reading, Section,
};
use crate::text::{
    all_chars, first_of, is_space, lemma_words_chars, lowercase, occurs, split_of, stands_at,
    starts, trim_of, without_prefixes, words_of,
};
use vstd::prelude::*;

verus! {

/// Every line of a daily log that is longer than ten bytes and does not begin
/// with `#`, white space at its ends left out, is kept; and nothing else is.
pub proof fn long_lines_of_a_log_are_kept(lines: Seq<Seq<char>>)
    ensures
        forall|i: int|
            0 <= i < lines.len() ==> {
                let t = trim_of(#[trigger] lines[i]);
                vstd::utf8::encode_utf8(t).len() > 10 && t[0] != '#' ==> log_lines(lines).contains(
                    t,
                )
            },
        forall|k: int|
            0 <= k < log_lines(lines).len() ==> {
                let t = #[trigger] log_lines(lines)[k];
                &&& vstd::utf8::encode_utf8(t).len() > 10
                &&& t.len() == 0 || t[0] != '#'
                &&& exists|i: int| 0 <= i < lines.len() && t == trim_of(#[trigger] lines[i])
            },
        log_lines(lines) == lines.map_values(|l: Seq<char>| trim_of(l)).filter(
            |t: Seq<char>| vstd::utf8::encode_utf8(t).len() > 10 && !(t.len() > 0 && t[0] == '#'),
        ),
    decreases lines.len(),
{
    reveal_strlit("#");
    reveal(Seq::filter);
    let kept = log_lines(lines);
    let cut = |l: Seq<char>| trim_of(l);
    let counts = |t: Seq<char>|
        vstd::utf8::encode_utf8(t).len() > 10 && !(t.len() > 0 && t[0] == '#');
    if lines.len() > 0 {
        let rest = lines.drop_last();
        let before = log_lines(rest);
        let last = trim_of(lines[lines.len() - 1]);
        long_lines_of_a_log_are_kept(rest);
        lemma_starts_with_mark(last);
        assert forall|i: int| 0 <= i < lines.len() implies ({
            let t = trim_of(#[trigger] lines[i]);
            vstd::utf8::encode_utf8(t).len() > 10 && t[0] != '#' ==> kept.contains(t)
        }) by {
            let t = trim_of(lines[i]);
            if vstd::utf8::encode_utf8(t).len() > 10 && t[0] != '#' {
                if i < rest.len() {
                    assert(rest[i] == lines[i]);
                    let k = before.index_of(t);
                    assert(kept[k] == t);
                } else {
                    assert(kept[kept.len() - 1] == t);
                }
            }
        }
        assert forall|k: int| 0 <= k < kept.len() implies ({
            let t = #[trigger] kept[k];
            &&& vstd::utf8::encode_utf8(t).len() > 10
            &&& t.len() == 0 || t[0] != '#'
            &&& exists|i: int| 0 <= i < lines.len() && t == trim_of(#[trigger] lines[i])
        }) by {
            if k < before.len() {
                assert(kept[k] == before[k]);
                let i = choose|i: int| 0 <= i < rest.len() && before[k] == trim_of(#[trigger] rest[i]);
                assert(lines[i] == rest[i]);
            } else {
                assert(kept[k] == trim_of(lines[lines.len() - 1]));
            }
        }
        let trimmed = lines.map_values(cut);
        assert(trimmed.drop_last() =~= rest.map_values(cut));
        assert(trimmed.last() == last);
        assert(kept =~= trimmed.filter(counts));
    } else {
        assert(kept =~= lines.map_values(cut).filter(counts));
    }
}

proof fn lemma_starts_with_mark(t: Seq<char>)
    ensures
        starts(t, "#"@) <==> t.len() > 0 && t[0] == '#',
{
    reveal_strlit("#");
    parts_stand_at_places(t, "#"@);
    if t.len() > 0 {
        assert(t.take(1)[0] == t[0]);
        if t[0] == '#' {
            assert(t.take(1) =~= "#"@);
        }
        if t.take(1) == "#"@ {
            assert("#"@[0] == '#');
        }
    }
}

/// Every line of a daily log that is longer than ten bytes and does not begin
/// with `#` is the text of an entry, under the key of the day.
pub proof fn long_lines_of_a_log_become_entries(
    entries: Seq<EntryModel>,
    lines: Seq<Seq<char>>,
    day: Seq<char>,
    source: Seq<char>,
    i: int,
)
    requires
        are_log_lines(entries, log_lines(lines), day, source),
        0 <= i < lines.len(),
        vstd::utf8::encode_utf8(trim_of(lines[i])).len() > 10,
        trim_of(lines[i])[0] != '#',
    ensures
        exists|k: int|
            {
                &&& 0 <= k < entries.len()
                &&& (#[trigger] entries[k]).value == trim_of(lines[i])
                &&& entries[k].key == "memory:daily:"@ + day && entries[k].source == source
                &&& entries[k].importance == Importance::Normal
                &&& entries[k].tags == seq!["memory"@, "daily"@]
                &&& entries[k].layer == Layer::Private && entries[k].expires_at is None
            },
{
    long_lines_of_a_log_are_kept(lines);
    assert(log_lines(lines).contains(trim_of(lines[i])));
    let k = log_lines(lines).index_of(trim_of(lines[i]));
    assert(entries[k].value == trim_of(lines[i]));
}

/// One more line of `MEMORY.md`: a line that begins with `## ` begins a section;
/// any other line that begins with `#`, and an empty one, is passed over; every
/// other line adds its text, without the mark of a list, to the section.
pub proof fn one_more_line(r: Reading, line: Seq<char>)
    ensures
        ({
            let t = trim_of(line);
            let heading = t.len() >= 3 && t.take(3) == seq!['#', '#', ' '];
            let next = read_line(r, line);
            &&& heading ==> next.content.len() == 0 && next.section == without_prefixes(
                t,
                seq!['#', '#', ' '],
            ) && next.done == closed_sections(r)
            &&& !heading ==> next.section == r.section && next.done == r.done
            &&& !heading && (t.len() == 0 || t[0] == '#') ==> next.content == r.content
            &&& t.len() > 0 && t[0] != '#' && t[0] != '-' ==> next.content == r.content + t
                + seq!['\n']
            &&& t.len() > 0 && t[0] == '-' ==> next.content == r.content + item_text(t)
                + seq!['\n']
        }),
{
    reveal_strlit("## ");
    reveal_strlit("- **");
    reveal_strlit("- ");
    reveal_strlit("#");
    reveal_strlit("\n");
    let t = trim_of(line);
    let hashes = seq!['#', '#', ' '];
    assert("## "@ =~= hashes);
    assert("\n"@ =~= seq!['\n']);
    parts_stand_at_places(t, "## "@);
    parts_stand_at_places(t, "- **"@);
    parts_stand_at_places(t, "- "@);
    lemma_starts_with_mark(t);
    if t.len() > 0 {
        if starts(t, "## "@) {
            assert(t.take(3)[0] == t[0]);
        }
        if starts(t, "- **"@) {
            assert(t.take(4)[0] == t[0]);
        }
        if starts(t, "- "@) {
            assert(t.take(2)[0] == t[0]);
        }
        if t[0] == '-' && !starts(t, "- **"@) && !starts(t, "- "@) {
            lemma_no_mark(t);
        }
    }
}

proof fn lemma_no_mark(t: Seq<char>)
    requires
        !starts(t, "- **"@),
        !starts(t, "- "@),
    ensures
        item_text(t) == t,
{
}

/// The mark of a list item is `- ` or `- **`; what follows it stays.
pub proof fn marks_of_lists_are_taken_off(u: Seq<char>)
    requires
        u.len() > 0,
        u[0] != '-',
    ensures
        item_text(u) == u,
        item_text(seq!['-', ' ', '*', '*'] + u) == u,
        u[0] != '*' ==> item_text(seq!['-', ' '] + u) == u,
{
    lemma_unmarked(u);
    lemma_bold_mark(u);
    if u[0] != '*' {
        lemma_plain_mark(u);
    }
}

proof fn lemma_unmarked(u: Seq<char>)
    requires
        u.len() > 0,
        u[0] != '-',
    ensures
        item_text(u) == u,
        without_prefixes(u, "- **"@) == u,
        without_prefixes(u, "- "@) == u,
{
    reveal_strlit("- **");
    reveal_strlit("- ");
    if starts(u, "- **"@) {
        assert(u.subrange(0, 4)[0] == u[0]);
    }
    if starts(u, "- "@) {
        assert(u.subrange(0, 2)[0] == u[0]);
    }
}

/// A part that does not begin or end with white space stays when what it stands
/// in is trimmed.
proof fn lemma_trim_keeps(a: Seq<char>, x: Seq<char>, b: Seq<char>)
    requires
        x.len() > 0,
        !is_space(x[0]),
        !is_space(x.last()),
    ensures
        occurs(trim_of(a + x + b), x),
        trim_of(a + x + b).len() > 0,
{
    let s = a + x + b;
    trimming_takes_off_white_space(s);
    let (i, j) = choose|i: int, j: int|
        {
            &&& 0 <= i <= j <= s.len()
            &&& trim_of(s) == #[trigger] s.subrange(i, j)
            &&& forall|k: int| 0 <= k < i || j <= k < s.len() ==> is_space(#[trigger] s[k])
            &&& i < j ==> !is_space(s[i]) && !is_space(s[j - 1])
        };
    let from = a.len() as int;
    let to = from + x.len() - 1;
    assert(s[from] == x[0]);
    assert(s[to] == x.last());
    assert(i <= from);
    assert(to < j);
    let t = trim_of(s);
    assert(t.subrange(from - i, from - i + x.len()) =~= x);
    assert(stands_at(t, from - i, x));
}

/// Whether a reading holds a text of a section: in the section that it is in, or
/// in one before.
spec fn holds(r: Reading, name: Seq<char>, x: Seq<char>) -> bool {
    ||| r.section == name && exists|a: Seq<char>, b: Seq<char>| r.content == #[trigger] (a + x + b)
    ||| exists|k: int|
        0 <= k < r.done.len() && (#[trigger] r.done[k]).name == name && occurs(r.done[k].text, x)
}

proof fn lemma_still_holds(r: Reading, line: Seq<char>, name: Seq<char>, x: Seq<char>)
    requires
        holds(r, name, x),
        x.len() > 0,
        !is_space(x[0]),
        !is_space(x.last()),
    ensures
        holds(read_line(r, line), name, x),
{
    let next = read_line(r, line);
    one_more_line(r, line);
    if r.section == name && exists|a: Seq<char>, b: Seq<char>| r.content == #[trigger] (a + x + b) {
        let (a, b) = choose|a: Seq<char>, b: Seq<char>| r.content == #[trigger] (a + x + b);
        lemma_trim_keeps(a, x, b);
        let t = trim_of(line);
        if !(t.len() >= 3 && t.take(3) == seq!['#', '#', ' ']) {
            let more = next.content.skip(r.content.len() as int);
            assert(next.content =~= a + x + (b + more));
        } else {
            let k = r.done.len() as int;
            assert(next.done == closed_sections(r));
            assert(next.done[k].name == name);
        }
    } else {
        let k = choose|k: int|
            0 <= k < r.done.len() && (#[trigger] r.done[k]).name == name && occurs(
                r.done[k].text,
                x,
            );
        assert(next.done[k] == r.done[k]);
    }
}

proof fn lemma_holds_to_the_end(lines: Seq<Seq<char>>, n: int, name: Seq<char>, x: Seq<char>)
    requires
        0 <= n <= lines.len(),
        holds(reading_of(lines.take(n)), name, x),
        x.len() > 0,
        !is_space(x[0]),
        !is_space(x.last()),
    ensures
        holds(reading_of(lines), name, x),
    decreases lines.len() - n,
{
    if n < lines.len() {
        assert(lines.take(n + 1).drop_last() =~= lines.take(n));
        lemma_still_holds(reading_of(lines.take(n)), lines[n], name, x);
        lemma_holds_to_the_end(lines, n + 1, name, x);
    } else {
        assert(lines.take(n) =~= lines);
    }
}

proof fn lemma_section_is(lines: Seq<Seq<char>>, h: int, i: int)
    requires
        0 <= h <= i <= lines.len(),
        forall|k: int|
            h <= k < i ==> {
                let t = trim_of(#[trigger] lines[k]);
                !(t.len() >= 3 && t.take(3) == seq!['#', '#', ' '])
            },
    ensures
        reading_of(lines.take(i)).section == reading_of(lines.take(h)).section,
    decreases i - h,
{
    if h < i {
        lemma_section_is(lines, h, i - 1);
        assert(lines.take(i).drop_last() =~= lines.take(i - 1));
        assert(lines.take(i).last() == lines[i - 1]);
        one_more_line(reading_of(lines.take(i - 1)), lines[i - 1]);
    }
}

/// The text that a line adds to a section: that of a list item without its mark,
/// or the line itself.
proof fn lemma_added(lines: Seq<Seq<char>>, i: int, name: Seq<char>, x: Seq<char>)
    requires
        0 <= i < lines.len(),
        reading_of(lines.take(i)).section == name,
        read_line(reading_of(lines.take(i)), lines[i]).section == name,
        read_line(reading_of(lines.take(i)), lines[i]).content == reading_of(lines.take(i)).content
            + x + seq!['\n'],
        x.len() > 0,
        !is_space(x[0]),
        !is_space(x.last()),
    ensures
        exists|k: int|
            {
                &&& 0 <= k < sections_of(lines).len()
                &&& (#[trigger] sections_of(lines)[k]).name == name
                &&& occurs(sections_of(lines)[k].text, x)
            },
{
    let before = reading_of(lines.take(i));
    assert(lines.take(i + 1).drop_last() =~= lines.take(i));
    assert(lines.take(i + 1).last() == lines[i]);
    let after = reading_of(lines.take(i + 1));
    assert(after.content == before.content + x + seq!['\n']);
    assert(holds(after, name, x));
    lemma_holds_to_the_end(lines, i + 1, name, x);
    let end = reading_of(lines);
    let sections = sections_of(lines);
    if end.section == name && exists|a: Seq<char>, b: Seq<char>| end.content == #[trigger] (a + x
        + b) {
        let (a, b) = choose|a: Seq<char>, b: Seq<char>| end.content == #[trigger] (a + x + b);
        lemma_trim_keeps(a, x, b);
        assert(sections[end.done.len() as int].name == name);
    } else {
        let k = choose|k: int|
            0 <= k < end.done.len() && (#[trigger] end.done[k]).name == name && occurs(
                end.done[k].text,
                x,
            );
        assert(sections[k] == end.done[k]);
    }
}

proof fn lemma_heading(lines: Seq<Seq<char>>, h: int, i: int, name: Seq<char>)
    requires
        0 <= h < i <= lines.len(),
        trim_of(lines[h]) == seq!['#', '#', ' '] + name,
        name.len() > 0 && name[0] != '#',
        forall|k: int|
            h < k < i ==> {
                let t = trim_of(#[trigger] lines[k]);
                !(t.len() >= 3 && t.take(3) == seq!['#', '#', ' '])
            },
    ensures
        reading_of(lines.take(i)).section == name,
{
    let mark = seq!['#', '#', ' '];
    assert(lines.take(h + 1).drop_last() =~= lines.take(h));
    assert(lines.take(h + 1).last() == lines[h]);
    one_more_line(reading_of(lines.take(h)), lines[h]);
    assert(trim_of(lines[h]).take(3) =~= mark);
    crate::laws::text::copies_at_the_start_are_taken_off(mark, name);
    assert(without_prefixes(name, mark) == name) by {
        if name.len() >= 3 && name.take(3) == mark {
            assert(name.take(3)[0] == name[0]);
        }
    }
    lemma_section_is(lines, h + 1, i);
}

/// Every line of `MEMORY.md` that is not empty and begins neither with `#` nor
/// with the mark of a list stands in the text of a section, and that section has
/// the name of the last heading before the line.
pub proof fn lines_of_a_section_are_kept(lines: Seq<Seq<char>>, h: int, i: int, name: Seq<char>)
    requires
        0 <= h < i < lines.len(),
        trim_of(lines[h]) == seq!['#', '#', ' '] + name,
        name.len() > 0 && name[0] != '#',
        forall|k: int|
            h < k < i ==> {
                let t = trim_of(#[trigger] lines[k]);
                !(t.len() >= 3 && t.take(3) == seq!['#', '#', ' '])
            },
        ({
            let t = trim_of(lines[i]);
            t.len() > 0 && t[0] != '#' && t[0] != '-'
        }),
    ensures
        exists|k: int|
            {
                &&& 0 <= k < sections_of(lines).len()
                &&& (#[trigger] sections_of(lines)[k]).name == name
                &&& occurs(sections_of(lines)[k].text, trim_of(lines[i]))
            },
{
    lemma_heading(lines, h, i, name);
    lemma_plain_line(lines, i);
}

proof fn lemma_plain_line(lines: Seq<Seq<char>>, i: int)
    requires
        0 <= i < lines.len(),
        ({
            let t = trim_of(lines[i]);
            t.len() > 0 && t[0] != '#' && t[0] != '-'
        }),
    ensures
        exists|k: int|
            {
                &&& 0 <= k < sections_of(lines).len()
                &&& (#[trigger] sections_of(lines)[k]).name == reading_of(lines.take(i)).section
                &&& occurs(sections_of(lines)[k].text, trim_of(lines[i]))
            },
{
    let x = trim_of(lines[i]);
    let before = reading_of(lines.take(i));
    one_more_line(before, lines[i]);
    lemma_trimmed_ends(lines[i]);
    assert(!(x.len() >= 3 && x.take(3) == seq!['#', '#', ' '])) by {
        if x.len() >= 3 && x.take(3) == seq!['#', '#', ' '] {
            assert(x.take(3)[0] == x[0]);
        }
    }
    lemma_added(lines, i, before.section, x);
}

/// Every list item of `MEMORY.md` stands in the text of a section without its
/// mark, `- ` or `- **`, and that section has the name of the last heading before
/// the item.
pub proof fn list_items_of_a_section_are_kept(
    lines: Seq<Seq<char>>,
    h: int,
    i: int,
    name: Seq<char>,
    item: Seq<char>,
)
    requires
        0 <= h < i < lines.len(),
        trim_of(lines[h]) == seq!['#', '#', ' '] + name,
        name.len() > 0 && name[0] != '#',
        forall|k: int|
            h < k < i ==> {
                let t = trim_of(#[trigger] lines[k]);
                !(t.len() >= 3 && t.take(3) == seq!['#', '#', ' '])
            },
        item.len() > 0 && !is_space(item[0]) && item[0] != '-' && item[0] != '*',
        trim_of(lines[i]) == seq!['-', ' '] + item || trim_of(lines[i]) == seq!['-', ' ', '*', '*']
            + item,
    ensures
        exists|k: int|
            {
                &&& 0 <= k < sections_of(lines).len()
                &&& (#[trigger] sections_of(lines)[k]).name == name
                &&& occurs(sections_of(lines)[k].text, item)
            },
{
    lemma_heading(lines, h, i, name);
    let t = trim_of(lines[i]);
    let before = reading_of(lines.take(i));
    one_more_line(before, lines[i]);
    lemma_trimmed_ends(lines[i]);
    assert(t.last() == item.last());
    assert(t[0] == '-');
    assert(!(t.len() >= 3 && t.take(3) == seq!['#', '#', ' '])) by {
        if t.len() >= 3 && t.take(3) == seq!['#', '#', ' '] {
            assert(t.take(3)[0] == t[0]);
        }
    }
    marks_of_lists_are_taken_off(item);
    assert(item_text(t) == item);
    lemma_added(lines, i, name, item);
}

proof fn lemma_plain_mark(u: Seq<char>)
    requires
        u.len() > 0,
        u[0] != '-',
        u[0] != '*',
    ensures
        item_text(seq!['-', ' '] + u) == u,
{
    reveal_strlit("- **");
    reveal_strlit("- ");
    let bold = "- **"@;
    let plain = "- "@;
    assert(plain =~= seq!['-', ' ']);
    let t = plain + u;
    lemma_unmarked(u);
    assert(!starts(t, bold)) by {
        if starts(t, bold) {
            assert(t.subrange(0, 4)[2] == t[2]);
            assert(t[2] == u[0]);
        }
    }
    assert(t.skip(2) =~= u);
    assert(t.subrange(0, 2) =~= plain);
    assert(without_prefixes(t, bold) == t);
    assert(without_prefixes(t, plain) == without_prefixes(u, plain));
}

proof fn lemma_bold_mark(u: Seq<char>)
    requires
        u.len() > 0,
        u[0] != '-',
    ensures
        item_text(seq!['-', ' ', '*', '*'] + u) == u,
{
    reveal_strlit("- **");
    let bold = "- **"@;
    assert(bold =~= seq!['-', ' ', '*', '*']);
    let t = bold + u;
    lemma_unmarked(u);
    assert(t.skip(4) =~= u);
    assert(t.subrange(0, 4) =~= bold);
    assert(without_prefixes(t, bold) == without_prefixes(u, bold));
}

/// Reading begins in a section without a name, with no text and none before it;
/// lines are read in order; and in the end the section that is being read is
/// kept where it has a text besides white space.
pub proof fn sections_are_read_line_by_line(lines: Seq<Seq<char>>, line: Seq<char>, r: Reading)
    ensures
        reading_of(Seq::empty()) == (Reading {
            section: Seq::empty(),
            content: Seq::empty(),
            done: Seq::empty(),
        }),
        reading_of(lines.push(line)) == read_line(reading_of(lines), line),
        sections_of(lines) == closed_sections(reading_of(lines)),
        trim_of(r.content).len() > 0 ==> closed_sections(r) == r.done.push(
            Section { name: r.section, text: trim_of(r.content) },
        ),
        trim_of(r.content).len() == 0 ==> closed_sections(r) == r.done,
{
    assert(lines.push(line).drop_last() =~= lines);
}

/// Lines before the first heading stand in a section without a name.
pub proof fn lines_before_any_heading_are_kept(lines: Seq<Seq<char>>, i: int)
    requires
        0 <= i < lines.len(),
        forall|k: int|
            0 <= k < i ==> {
                let t = trim_of(#[trigger] lines[k]);
                !(t.len() >= 3 && t.take(3) == seq!['#', '#', ' '])
            },
        ({
            let t = trim_of(lines[i]);
            t.len() > 0 && t[0] != '#' && t[0] != '-'
        }),
    ensures
        exists|k: int|
            {
                &&& 0 <= k < sections_of(lines).len()
                &&& (#[trigger] sections_of(lines)[k]).name.len() == 0
                &&& occurs(sections_of(lines)[k].text, trim_of(lines[i]))
            },
{
    lemma_section_is(lines, 0, i);
    assert(lines.take(0) =~= Seq::empty());
    lemma_plain_line(lines, i);
}

proof fn lemma_trimmed_ends(s: Seq<char>)
    ensures
        trim_of(s).len() > 0 ==> !is_space(trim_of(s)[0]) && !is_space(trim_of(s).last()),
{
    trimming_takes_off_white_space(s);
    let (i, j) = choose|i: int, j: int|
        {
            &&& 0 <= i <= j <= s.len()
            &&& trim_of(s) == #[trigger] s.subrange(i, j)
            &&& forall|k: int| 0 <= k < i || j <= k < s.len() ==> is_space(#[trigger] s[k])
            &&& i < j ==> !is_space(s[i]) && !is_space(s[j - 1])
        };
    if i < j {
        assert(trim_of(s)[0] == s[i]);
        assert(trim_of(s).last() == s[j - 1]);
    }
}

/// The parts of a slug between its hyphens are the first five words of the text
/// in small letters, where the words hold no hyphen.
pub proof fn slug_names_the_first_words(s: Seq<char>)
    requires
        !lowercase(s).contains('-'),
        words_of(lowercase(s)).len() > 0,
    ensures
        split_of(slug_of(s), '-') == (if words_of(lowercase(s)).len() <= 5 {
            words_of(lowercase(s))
        } else {
            words_of(lowercase(s)).take(5)
        }),
{
    reveal_strlit("-");
    let t = lowercase(s);
    let all = words_of(t);
    let five = first_of(all, 5);
    let no_hyphen = |c: char| c != '-';
    assert forall|i: int| 0 <= i < t.len() implies no_hyphen(#[trigger] t[i]) by {
        if t[i] == '-' {
            assert(t.contains('-'));
        }
    }
    lemma_words_chars(t, no_hyphen);
    assert forall|i: int| 0 <= i < five.len() implies !(#[trigger] five[i]).contains('-') by {
        assert(five[i] == all[i]);
        assert(all_chars(all[i], no_hyphen));
        if five[i].contains('-') {
            let k = five[i].index_of('-');
            assert(no_hyphen(all[i][k]));
        }
    }
    assert("-"@ =~= seq!['-']);
    joined_texts_are_split_again(five, '-');
}

} // verus!
