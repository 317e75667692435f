//! Reading notes that were kept in Markdown files.
//!
//! `MEMORY.md` has sections with lists; every section with a text becomes one
//! entry. A daily log has lines; every line that is long enough becomes one
//! entry.

use crate::clock::Moment;
use crate::common::{entries_of, Entry, EntryModel, Importance, Layer};
use crate::ident::{is_uuid, new_id};
use crate::text::{
    all_chars, ascii_lower, chars_of, copy_of, ends, ends_with, first_of, join, join_of,
    lemma_join_chars, lemma_one_word, lemma_words_chars, lines, lowercase, not_space, pieces,
    starts, starts_with, string_of, texts, trim, trim_of, trim_start_matches, without_prefixes,
    words, words_of,
};
use vstd::prelude::*;
use vstd::string::*;

verus! {

broadcast use vstd::slice::group_slice_axioms;

/// A section of `MEMORY.md` with its text.
#[verifier::ext_equal]
pub struct Section {
    pub name: Seq<char>,
    pub text: Seq<char>,
}

/// Where the reading of `MEMORY.md` stands.
#[verifier::ext_equal]
pub struct Reading {
    /// The section that the next line belongs to.
    pub section: Seq<char>,
    /// Its text so far.
    pub content: Seq<char>,
    /// The sections before it that have a text.
    pub done: Seq<Section>,
}

/// The sections with a text, the current one with them.
pub open spec fn closed_sections(r: Reading) -> Seq<Section> {
    if trim_of(r.content).len() > 0 {
        r.done.push(Section { name: r.section, text: trim_of(r.content) })
    } else {
        r.done
    }
}

/// The text of a list item without its mark.
pub open spec fn item_text(line: Seq<char>) -> Seq<char> {
    without_prefixes(without_prefixes(line, "- **"@), "- "@)
}

/// The reading after one more line. A line `## ` starts a section; list items
/// lose their mark; other headings and empty lines are passed over.
pub open spec fn read_line(r: Reading, line: Seq<char>) -> Reading {
    let t = trim_of(line);
    if starts(t, "## "@) {
        Reading {
            section: without_prefixes(t, "## "@),
            content: Seq::empty(),
            done: closed_sections(r),
        }
    } else if starts(t, "- **"@) || starts(t, "- "@) {
        Reading { content: r.content + item_text(t) + "\n"@, ..r }
    } else if t.len() > 0 && !starts(t, "#"@) {
        Reading { content: r.content + t + "\n"@, ..r }
    } else {
        r
    }
}

/// The reading of the given lines.
pub open spec fn reading_of(lines: Seq<Seq<char>>) -> Reading
    decreases lines.len(),
{
    if lines.len() == 0 {
        Reading { section: Seq::empty(), content: Seq::empty(), done: Seq::empty() }
    } else {
        read_line(reading_of(lines.drop_last()), lines.last())
    }
}

/// The sections with a text in the given lines.
pub open spec fn sections_of(lines: Seq<Seq<char>>) -> Seq<Section> {
    closed_sections(reading_of(lines))
}

/// The first five words of a text in small letters, with hyphens between them.
pub open spec fn slug_of(s: Seq<char>) -> Seq<char> {
    join_of(first_of(words_of(lowercase(s)), 5), "-"@)
}

/// Whether an entry is a private one, made anew, with the given parts.
pub open spec fn is_note(
    entry: EntryModel,
    key: Seq<char>,
    value: Seq<char>,
    importance: Importance,
    kind: Seq<char>,
    source: Seq<char>,
) -> bool {
    &&& is_uuid(entry.id)
    &&& entry.key == key
    &&& entry.value == value
    &&& entry.importance == importance
    &&& entry.tags == seq!["memory"@, kind]
    &&& entry.source == source
    &&& entry.layer == Layer::Private
    &&& entry.created_at.is_valid()
    &&& entry.last_accessed.is_valid()
    &&& entry.expires_at is None
}

/// Whether the entries are those of the sections, one by one.
pub open spec fn are_sections(entries: Seq<EntryModel>, sections: Seq<Section>) -> bool {
    &&& entries.len() == sections.len()
    &&& forall|i: int|
        0 <= i < entries.len() ==> is_note(
            #[trigger] entries[i],
            "memory:longterm:"@ + slug_of(sections[i].name),
            sections[i].text,
            Importance::High,
            "longterm"@,
            "MEMORY.md"@,
        )
}

/// The lines of a daily log that become entries: without white space at their
/// ends they are longer than ten bytes and no heading.
pub open spec fn log_lines(lines: Seq<Seq<char>>) -> Seq<Seq<char>>
    decreases lines.len(),
{
    if lines.len() == 0 {
        Seq::empty()
    } else {
        let rest = log_lines(lines.drop_last());
        let t = trim_of(lines.last());
        if vstd::utf8::encode_utf8(t).len() > 10 && !starts(t, "#"@) {
            rest.push(t)
        } else {
            rest
        }
    }
}

/// Whether the entries are those of the lines, one by one.
pub open spec fn are_log_lines(
    entries: Seq<EntryModel>,
    lines: Seq<Seq<char>>,
    day: Seq<char>,
    source: Seq<char>,
) -> bool {
    &&& entries.len() == lines.len()
    &&& forall|i: int|
        0 <= i < entries.len() ==> is_note(
            #[trigger] entries[i],
            "memory:daily:"@ + day,
            lines[i],
            Importance::Normal,
            "daily"@,
            source,
        )
}

/// Whether a file name has the extension `md`.
pub open spec fn is_md_file(name: Seq<char>) -> bool {
    name.len() > 3 && ends(name, ".md"@)
}

/// Whether a file name has the extension `md`.
pub fn md_file(name: &str) -> (r: bool)
    ensures
        r == is_md_file(name@),
{
    let chars = chars_of(name);
    chars.len() > 3 && ends_with(chars.as_slice(), ".md")
}

/// The first five words of a text in small letters, with hyphens between them.
pub fn slugify(s: &str) -> (r: String)
    ensures
        r@ == slug_of(s@),
{
    let lower = s.to_lowercase();
    let chars = chars_of(lower.as_str());
    let all = words(chars.as_slice());
    let n: usize = if all.len() < 5 {
        all.len()
    } else {
        5
    };
    let mut five: Vec<String> = Vec::new();
    for i in 0..n
        invariant
            n <= all@.len(),
            five@.len() == i,
            forall|k: int| 0 <= k < i ==> (#[trigger] five@[k])@ == all@[k]@,
    {
        five.push(string_of(all[i].as_slice()));
    }
    proof {
        assert(texts(five@) =~= first_of(pieces(all@), 5));
    }
    join(&five, "-")
}

fn new_note(
    key: String,
    value: String,
    importance: Importance,
    kind: &str,
    source: &str,
) -> (r: Entry)
    ensures
        is_note(r@, key@, value@, importance, kind@, source@),
{
    let mut tags: Vec<String> = Vec::new();
    tags.push("memory".to_owned());
    tags.push(kind.to_owned());
    proof {
        assert(texts(tags@) =~= seq!["memory"@, kind@]);
    }
    Entry {
        id: new_id(),
        key,
        value,
        importance,
        tags,
        source: source.to_owned(),
        layer: Layer::Private,
        created_at: Moment::now(),
        last_accessed: Moment::now(),
        expires_at: None,
    }
}

fn section_entry(section: &[char], text: &[char]) -> (r: Entry)
    ensures
        is_note(
            r@,
            "memory:longterm:"@ + slug_of(section@),
            text@,
            Importance::High,
            "longterm"@,
            "MEMORY.md"@,
        ),
{
    let name = string_of(section);
    let slug = slugify(name.as_str());
    let key = "memory:longterm:".to_owned().concat(slug.as_str());
    new_note(key, string_of(text), Importance::High, "longterm", "MEMORY.md")
}

fn push_line(content: &mut Vec<char>, line: &[char])
    ensures
        final(content)@ == old(content)@ + line@ + "\n"@,
{
    proof {
        reveal_strlit("\n");
    }
    let n: usize = line.len();
    let ghost before = content@;
    for i in 0..n
        invariant
            n == line@.len(),
            content@ == before + line@.take(i as int),
    {
        content.push(line[i]);
        proof {
            assert(line@.take(i + 1) =~= line@.take(i as int).push(line@[i as int]));
            assert(content@ =~= before + line@.take(i + 1));
        }
    }
    content.push('\n');
    proof {
        assert(line@.take(n as int) =~= line@);
        assert(content@ =~= before + line@ + "\n"@);
    }
}

/// The entries in the lines of `MEMORY.md`.
pub fn parse_memory_md(lines: &Vec<Vec<char>>) -> (r: Vec<Entry>)
    ensures
        are_sections(entries_of(r@), sections_of(pieces(lines@))),
{
    proof {
        reveal_strlit("## ");
        reveal_strlit("- **");
        reveal_strlit("- ");
    }
    let heading = chars_of("## ");
    let bold_item = chars_of("- **");
    let item = chars_of("- ");
    let n: usize = lines.len();
    let ghost all = pieces(lines@);
    let mut r: Vec<Entry> = Vec::new();
    let mut section: Vec<char> = Vec::new();
    let mut content: Vec<char> = Vec::new();
    proof {
        assert(all.take(0) =~= Seq::empty());
        assert(section@ =~= Seq::empty());
        assert(content@ =~= Seq::empty());
    }
    for i in 0..n
        invariant
            n == lines@.len(),
            all == pieces(lines@),
            heading@ == "## "@,
            bold_item@ == "- **"@,
            item@ == "- "@,
            heading@.len() > 0,
            bold_item@.len() > 0,
            item@.len() > 0,
            section@ == reading_of(all.take(i as int)).section,
            content@ == reading_of(all.take(i as int)).content,
            are_sections(entries_of(r@), reading_of(all.take(i as int)).done),
    {
        let ghost before = reading_of(all.take(i as int));
        proof {
            assert(all.take(i + 1).drop_last() =~= all.take(i as int));
            assert(all.take(i + 1).last() == lines@[i as int]@);
        }
        let t = trim(lines[i].as_slice());
        if starts_with(t, "## ") {
            let text = trim(content.as_slice());
            if text.len() > 0 {
                let entry = section_entry(section.as_slice(), text);
                let ghost entries = r@;
                r.push(entry);
                proof {
                    assert(entries_of(r@) =~= entries_of(entries).push(entry@));
                }
            }
            section = copy_of(trim_start_matches(t, heading.as_slice()));
            content = Vec::new();
            proof {
                assert(content@ =~= Seq::empty());
            }
        } else if starts_with(t, "- **") || starts_with(t, "- ") {
            let text = trim_start_matches(
                trim_start_matches(t, bold_item.as_slice()),
                item.as_slice(),
            );
            push_line(&mut content, text);
        } else if t.len() > 0 && !starts_with(t, "#") {
            push_line(&mut content, t);
        }
    }
    proof {
        assert(all.take(n as int) =~= all);
    }
    let text = trim(content.as_slice());
    if text.len() > 0 {
        let entry = section_entry(section.as_slice(), text);
        let ghost entries = r@;
        r.push(entry);
        proof {
            assert(entries_of(r@) =~= entries_of(entries).push(entry@));
        }
    }
    r
}

/// The entries in the lines of a daily log.
pub fn parse_log(lines: &Vec<Vec<char>>, day: &str, source: &str) -> (r: Vec<Entry>)
    ensures
        are_log_lines(entries_of(r@), log_lines(pieces(lines@)), day@, source@),
{
    let n: usize = lines.len();
    let ghost all = pieces(lines@);
    let mut r: Vec<Entry> = Vec::new();
    proof {
        assert(all.take(0) =~= Seq::empty());
    }
    for i in 0..n
        invariant
            n == lines@.len(),
            all == pieces(lines@),
            are_log_lines(entries_of(r@), log_lines(all.take(i as int)), day@, source@),
    {
        proof {
            assert(all.take(i + 1).drop_last() =~= all.take(i as int));
            assert(all.take(i + 1).last() == lines@[i as int]@);
        }
        let t = trim(lines[i].as_slice());
        let text = string_of(t);
        if text.as_str().as_bytes().len() > 10 && !starts_with(t, "#") {
            let key = "memory:daily:".to_owned().concat(day);
            let entry = new_note(key, text, Importance::Normal, "daily", source);
            let ghost entries = r@;
            r.push(entry);
            proof {
                assert(entries_of(r@) =~= entries_of(entries).push(entry@));
            }
        }
    }
    proof {
        assert(all.take(n as int) =~= all);
    }
    r
}

/// The text of a section is never empty.
pub proof fn sections_have_text(lines: Seq<Seq<char>>, i: int)
    requires
        0 <= i < sections_of(lines).len(),
    ensures
        sections_of(lines)[i].text.len() > 0,
    decreases lines.len(),
{
    let r = reading_of(lines);
    if i < r.done.len() {
        lemma_done_have_text(lines, i);
        assert(sections_of(lines)[i] == r.done[i]);
    }
}

proof fn lemma_done_have_text(lines: Seq<Seq<char>>, i: int)
    requires
        0 <= i < reading_of(lines).done.len(),
    ensures
        reading_of(lines).done[i].text.len() > 0,
    decreases lines.len(),
{
    if lines.len() > 0 {
        let rest = lines.drop_last();
        let before = reading_of(rest);
        if i < before.done.len() {
            lemma_done_have_text(rest, i);
            assert(reading_of(lines).done[i] == before.done[i]);
        }
    }
}

/// Whether a character is an ASCII one that is no capital letter.
pub open spec fn small_ascii() -> spec_fn(char) -> bool {
    |c: char| c <= '\u{7f}' && ascii_lower(c) == c
}

/// A slug holds no white space.
pub proof fn slug_has_no_white_space(s: Seq<char>)
    ensures
        all_chars(slug_of(s), not_space()),
{
    reveal_strlit("-");
    let t = lowercase(s);
    lemma_words_chars(t, |c: char| true);
    lemma_join_chars(first_of(words_of(t), 5), "-"@, not_space());
}

/// A slug of ASCII text is its own slug.
pub proof fn slug_is_its_own_slug(s: Seq<char>)
    requires
        vstd::utf8::is_ascii_chars(s),
    ensures
        vstd::utf8::is_ascii_chars(slug_of(s)),
        slug_of(slug_of(s)) == slug_of(s),
{
    reveal_strlit("-");
    let t = lowercase(s);
    let slug = slug_of(s);
    assert forall|i: int| 0 <= i < t.len() implies small_ascii()(#[trigger] t[i]) by {
        assert('\0' <= s[i] <= '\u{7f}');
    }
    lemma_words_chars(t, small_ascii());
    lemma_join_chars(first_of(words_of(t), 5), "-"@, small_ascii());
    slug_has_no_white_space(s);
    assert(vstd::utf8::is_ascii_chars(slug)) by {
        assert forall|i: int| 0 <= i < slug.len() implies '\0' <= #[trigger] slug[i] <= '\u{7f}' by {
            assert(small_ascii()(slug[i]));
        }
    }
    assert(lowercase(slug) =~= slug) by {
        assert forall|i: int| 0 <= i < slug.len() implies ascii_lower(#[trigger] slug[i])
            == slug[i] by {
            assert(small_ascii()(slug[i]));
        }
    }
    if slug.len() > 0 {
        lemma_one_word(slug);
    } else {
        assert(words_of(slug) =~= Seq::empty());
        assert(slug =~= Seq::empty());
    }
}

} // verus!
