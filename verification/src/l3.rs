//! The archive: entries as blocks of daily Markdown files.
//!
//! A block gives the key as a heading, importance, source, tags and time of
//! creation as one line each, then the text, and ends with a line `---`.

use crate::clock::{Moment, MomentModel, DAY_SECS};
use crate::common::{entries_of, Entry, EntryModel, Importance, Layer};
use crate::errors::MemoryError;
use crate::ident::{is_uuid, new_id};
use crate::roundtrip::{
    archive_is_read_back, archive_text, block_is_read_back, fits_archive, fits_block, is_stamp,
    kept_of,
};
use crate::sort::{ascending, sort_names};
use crate::text::{
    chars_of, ends, ends_with, find_of, find_text, join, join_of, lemma_texts_push, lines, lines_of,
    lowercase, pieces, same_as, same_str, split, split_of, string_of, strip_prefix, texts, trim,
    trim_end_matches, trim_of, trim_start_matches, without_prefix, without_prefixes,
    without_suffixes,
};
use vstd::prelude::*;
use vstd::slice::slice_subrange;
use vstd::string::*;

verus! {

broadcast use vstd::slice::group_slice_axioms;

/// What a block holds of an entry, as mathematical values.
#[verifier::ext_equal]
pub struct Block {
    pub key: Seq<char>,
    pub value: Seq<char>,
    pub importance: Importance,
    pub source: Seq<char>,
    pub tags: Seq<Seq<char>>,
}

/// What the head of a block says.
#[verifier::ext_equal]
pub struct Head {
    pub key: Option<Seq<char>>,
    pub importance: Importance,
    pub source: Seq<char>,
    pub tags: Seq<Seq<char>>,
}

/// The five lines of the head of a block.
pub open spec fn head_lines(entry: EntryModel, stamp: Seq<char>) -> Seq<Seq<char>> {
    seq![
        "## "@ + entry.key,
        "**重要性**: "@ + entry.importance.title_of(),
        "**来源**: "@ + entry.source,
        "**标签**: ["@ + join_of(entry.tags, ", "@) + "]"@,
        "**创建时间**: "@ + stamp,
    ]
}

/// The block of an entry, with the given time stamp.
pub open spec fn block_text(entry: EntryModel, stamp: Seq<char>) -> Seq<char> {
    join_of(head_lines(entry, stamp), "\n"@) + "\n\n"@ + entry.value + "\n\n---\n"@
}

/// The block of an entry.
pub open spec fn markdown_of(entry: EntryModel) -> Seq<char> {
    block_text(entry, entry.created_at.stamp())
}

/// The parts, each without white space at its ends.
pub open spec fn trims_of(parts: Seq<Seq<char>>) -> Seq<Seq<char>> {
    Seq::new(parts.len(), |i: int| trim_of(parts[i]))
}

/// The tags of a list in square brackets.
pub open spec fn tags_of(list: Seq<char>) -> Seq<Seq<char>> {
    trims_of(split_of(without_suffixes(without_prefixes(trim_of(list), "["@), "]"@), ','))
}

/// What the head says after one more line.
pub open spec fn head_step(head: Head, line: Seq<char>) -> Head {
    let line = trim_of(line);
    match without_prefix(line, "## "@) {
        Some(key) => Head { key: Some(trim_of(key)), ..head },
        None => match without_prefix(line, "**重要性**:"@) {
            Some(name) => Head { importance: Importance::named(lowercase(trim_of(name))), ..head },
            None => match without_prefix(line, "**来源**:"@) {
                Some(source) => Head { source: trim_of(source), ..head },
                None => match without_prefix(line, "**标签**:"@) {
                    Some(list) => Head { tags: tags_of(list), ..head },
                    None => head,
                },
            },
        },
    }
}

/// What a head says before its first line.
pub open spec fn empty_head() -> Head {
    Head { key: None, importance: Importance::Normal, source: "l3-archive"@, tags: Seq::empty() }
}

/// What the lines of a head say.
pub open spec fn head_of(lines: Seq<Seq<char>>) -> Head
    decreases lines.len(),
{
    if lines.len() == 0 {
        empty_head()
    } else {
        head_step(head_of(lines.drop_last()), lines.last())
    }
}

/// A block without the lines `---` around it.
pub open spec fn bare_block(text: Seq<char>) -> Seq<char> {
    without_suffixes(without_prefixes(trim_of(text), "---\n"@), "\n---"@)
}

/// What a block holds, where it has a head with a key, an empty line and a
/// text.
pub open spec fn parsed_block(text: Seq<char>) -> Option<Block> {
    let bare = bare_block(text);
    match find_of(bare, "\n\n"@) {
        Some(i) => {
            let head = head_of(lines_of(bare.take(i)));
            match head.key {
                Some(key) => Some(
                    Block {
                        key,
                        value: trim_of(bare.skip(i + 2)),
                        importance: head.importance,
                        source: head.source,
                        tags: head.tags,
                    },
                ),
                None => None,
            }
        },
        None => None,
    }
}

/// What a block keeps of an entry. An entry without tags comes back with one
/// empty tag.
pub open spec fn block_of(entry: EntryModel) -> Block {
    Block {
        key: entry.key,
        value: entry.value,
        importance: entry.importance,
        source: entry.source,
        tags: if entry.tags.len() == 0 {
            seq![Seq::<char>::empty()]
        } else {
            entry.tags
        },
    }
}

/// Whether `entry` is a private entry, made anew, that holds what the block
/// holds.
pub open spec fn made_from(entry: EntryModel, block: Block) -> bool {
    &&& entry.key == block.key
    &&& entry.value == block.value
    &&& entry.importance == block.importance
    &&& entry.source == block.source
    &&& entry.tags == block.tags
    &&& entry.layer == Layer::Private
    &&& is_uuid(entry.id)
    &&& entry.created_at == entry.last_accessed
    &&& entry.created_at.is_valid()
    &&& entry.expires_at is None
}

/// The block of an entry.
pub fn entry_to_markdown(entry: &Entry) -> (r: String)
    ensures
        r@ == markdown_of(entry@),
        fits_block(entry@) ==> parsed_block(r@) == Some(block_of(entry@)),
{
    let stamp = entry.created_at.to_rfc3339();
    let tags = join(&entry.tags, ", ");
    let mut r = "## ".to_owned();
    r.append(entry.key.as_str());
    r.append("\n");
    r.append("**重要性**: ");
    r.append(entry.importance.title());
    r.append("\n");
    r.append("**来源**: ");
    r.append(entry.source.as_str());
    r.append("\n");
    r.append("**标签**: [");
    r.append(tags.as_str());
    r.append("]");
    r.append("\n");
    r.append("**创建时间**: ");
    r.append(stamp.as_str());
    r.append("\n\n");
    r.append(entry.value.as_str());
    r.append("\n\n---\n");
    proof {
        let h = head_lines(entry@, stamp@);
        let nl = "\n"@;
        reveal_with_fuel(join_of, 6);
        assert(h.drop_last().drop_last().drop_last().drop_last() =~= seq![h[0]]);
        assert(join_of(h, nl) =~= h[0] + nl + h[1] + nl + h[2] + nl + h[3] + nl + h[4]);
        assert(r@ =~= markdown_of(entry@));
        if fits_block(entry@) {
            block_is_read_back(entry@, stamp@);
        }
    }
    r
}

/// The tags of a list in square brackets.
fn read_tags(list: &[char]) -> (r: Vec<String>)
    ensures
        texts(r@) == tags_of(list@),
{
    proof {
        reveal_strlit("[");
        reveal_strlit("]");
    }
    let open = chars_of("[");
    let close = chars_of("]");
    let inner = trim_end_matches(
        trim_start_matches(trim(list), open.as_slice()),
        close.as_slice(),
    );
    let parts = split(inner, ',');
    let n: usize = parts.len();
    let mut r: Vec<String> = Vec::new();
    for i in 0..n
        invariant
            n == parts@.len(),
            r@.len() == i,
            forall|k: int| 0 <= k < i ==> (#[trigger] r@[k])@ == trim_of(parts@[k]@),
    {
        r.push(string_of(trim(parts[i].as_slice())));
    }
    proof {
        assert(texts(r@) =~= trims_of(pieces(parts@)));
    }
    r
}

/// What a block holds.
#[derive(Debug)]
pub struct ParsedBlock {
    pub key: String,
    pub value: String,
    pub importance: Importance,
    pub source: String,
    pub tags: Vec<String>,
}

impl View for ParsedBlock {
    type V = Block;

    open spec fn view(&self) -> Block {
        Block {
            key: self.key@,
            value: self.value@,
            importance: self.importance,
            source: self.source@,
            tags: texts(self.tags@),
        }
    }
}

/// Reads a block.
pub fn parse_block(block: &str) -> (r: Option<ParsedBlock>)
    ensures
        match r {
            Some(b) => parsed_block(block@) == Some(b@),
            None => parsed_block(block@) is None,
        },
{
    proof {
        reveal_strlit("---\n");
        reveal_strlit("\n---");
        reveal_strlit("\n\n");
    }
    let chars = chars_of(block);
    let before = chars_of("---\n");
    let after = chars_of("\n---");
    let gap = chars_of("\n\n");
    let bare = trim_end_matches(
        trim_start_matches(trim(chars.as_slice()), before.as_slice()),
        after.as_slice(),
    );
    proof {
        assert(bare@ == bare_block(block@));
        assert(bare@.skip(0) =~= bare@);
    }
    let at: usize = match find_text(bare, 0, gap.as_slice()) {
        Some(i) => i,
        None => {
            return None;
        },
    };
    let len: usize = bare.len();
    let head = slice_subrange(bare, 0, at);
    let body = slice_subrange(bare, at + 2, len);
    proof {
        assert(head@ =~= bare@.take(at as int));
        assert(body@ =~= bare@.skip(at + 2));
    }
    let head_lines = lines(head);
    let n: usize = head_lines.len();
    let ghost all = lines_of(head@);
    let mut key: Option<String> = None;
    let mut importance = Importance::Normal;
    let mut source = "l3-archive".to_owned();
    let mut tags: Vec<String> = Vec::new();
    proof {
        assert(all.take(0) =~= Seq::empty());
        assert(texts(tags@) =~= Seq::empty());
    }
    for i in 0..n
        invariant
            n == head_lines@.len(),
            pieces(head_lines@) == all,
            head_of(all.take(i as int)) == (Head {
                key: (match key {
                    Some(k) => Some(k@),
                    None => None,
                }),
                importance,
                source: source@,
                tags: texts(tags@),
            }),
    {
        let line = trim(head_lines[i].as_slice());
        proof {
            assert(all.take(i + 1).drop_last() =~= all.take(i as int));
            assert(all.take(i + 1).last() == all[i as int]);
            assert(all[i as int] == head_lines@[i as int]@);
        }
        if let Some(k) = strip_prefix(line, "## ") {
            key = Some(string_of(trim(k)));
        } else if let Some(name) = strip_prefix(line, "**重要性**:") {
            let lower = string_of(trim(name)).as_str().to_lowercase();
            importance = Importance::from(lower.as_str());
        } else if let Some(text) = strip_prefix(line, "**来源**:") {
            source = string_of(trim(text));
        } else if let Some(list) = strip_prefix(line, "**标签**:") {
            tags = read_tags(list);
        }
    }
    proof {
        assert(all.take(n as int) =~= all);
    }
    match key {
        Some(k) => Some(
            ParsedBlock { key: k, value: string_of(trim(body)), importance, source, tags },
        ),
        None => None,
    }
}

/// Whether a line ends a block.
pub open spec fn ends_block(line: Seq<char>) -> bool {
    trim_of(line) == "---"@
}

/// The blocks of an archive from the given line on, with what has been read of
/// the block before it. What follows the last line `---` is no block.
pub open spec fn blocks_from(lines: Seq<Seq<char>>, current: Seq<char>) -> Seq<Seq<char>>
    decreases lines.len(),
{
    if lines.len() == 0 {
        Seq::empty()
    } else if ends_block(lines[0]) {
        if current.len() > 0 {
            seq![current] + blocks_from(lines.skip(1), Seq::empty())
        } else {
            blocks_from(lines.skip(1), Seq::empty())
        }
    } else {
        blocks_from(lines.skip(1), current + lines[0] + "\n"@)
    }
}

/// What the blocks hold that can be read.
pub open spec fn readable(blocks: Seq<Seq<char>>) -> Seq<Block>
    decreases blocks.len(),
{
    if blocks.len() == 0 {
        Seq::empty()
    } else {
        match parsed_block(blocks[0]) {
            Some(b) => seq![b] + readable(blocks.skip(1)),
            None => readable(blocks.skip(1)),
        }
    }
}

/// What the lines of an archive hold.
pub open spec fn archive_of(lines: Seq<Seq<char>>) -> Seq<Block> {
    readable(blocks_from(lines, Seq::empty()))
}

/// Whether the entries are made from the blocks, one by one.
pub open spec fn all_made_from(entries: Seq<EntryModel>, blocks: Seq<Block>) -> bool {
    &&& entries.len() == blocks.len()
    &&& forall|i: int| 0 <= i < entries.len() ==> made_from(#[trigger] entries[i], blocks[i])
}

/// The entries, each with the time stamp of its creation.
pub open spec fn stamped(entries: Seq<EntryModel>) -> Seq<(EntryModel, Seq<char>)> {
    Seq::new(entries.len(), |i: int| (entries[i], entries[i].created_at.stamp()))
}

proof fn lemma_archive_text_push(
    items: Seq<(EntryModel, Seq<char>)>,
    item: (EntryModel, Seq<char>),
)
    ensures
        archive_text(items.push(item)) == archive_text(items) + block_text(item.0, item.1),
    decreases items.len(),
{
    let all = items.push(item);
    if items.len() == 0 {
        assert(all.skip(1) =~= Seq::empty());
        assert(archive_text(all.skip(1)) =~= Seq::empty());
        assert(archive_text(all) =~= block_text(item.0, item.1));
        assert(archive_text(items) + block_text(item.0, item.1) =~= block_text(item.0, item.1));
    } else {
        assert(all.skip(1) =~= items.skip(1).push(item));
        lemma_archive_text_push(items.skip(1), item);
        assert(all[0] == items[0]);
        assert(archive_text(all) =~= archive_text(items) + block_text(item.0, item.1));
    }
}

/// The name of the archive file of a date.
pub open spec fn archive_name_of(date: Seq<char>) -> Seq<char> {
    date + ".md"@
}

/// The name of the archive file of a date.
pub fn archive_name(date: &str) -> (r: String)
    ensures
        r@ == archive_name_of(date@),
{
    date.to_owned().concat(".md")
}

/// The dates of the archive files among the names: those that end with `.md`,
/// without that ending, as often as it stands there.
pub open spec fn dates_of(names: Seq<Seq<char>>) -> Seq<Seq<char>>
    decreases names.len(),
{
    if names.len() == 0 {
        Seq::empty()
    } else if ends(names.last(), ".md"@) {
        dates_of(names.drop_last()).push(without_suffixes(names.last(), ".md"@))
    } else {
        dates_of(names.drop_last())
    }
}

/// The date of an archive file is read back from its name, unless the date
/// itself ends with `.md`.
pub proof fn archive_name_keeps_its_date(date: Seq<char>)
    requires
        !ends(date, ".md"@),
    ensures
        dates_of(seq![archive_name_of(date)]) == seq![date],
{
    reveal_strlit(".md");
    let ending = ".md"@;
    let name = archive_name_of(date);
    let names = seq![name];
    assert(name.subrange(name.len() - 3, name.len() as int) =~= ending);
    assert(name.take(name.len() - 3) =~= date);
    assert(without_suffixes(name, ending) == without_suffixes(date, ending));
    assert(names.drop_last() =~= Seq::empty());
    assert(dates_of(names.drop_last()) =~= Seq::empty());
    assert(dates_of(names) =~= seq![date]);
}

/// Whether an entry is old enough for the archive: in whole seconds, it was
/// created more than so many days ago.
pub open spec fn is_old(created_at: MomentModel, at: MomentModel, days: int) -> bool {
    created_at.secs < at.days_before(days).secs
}

/// Whether an entry is old enough for the archive.
pub fn old_enough(created_at: Moment, at: Moment, days: i64) -> (r: bool)
    ensures
        r == is_old(created_at@, at@, days as int),
{
    let cutoff: i128 = at.secs() as i128 - days as i128 * DAY_SECS as i128;
    (created_at.secs() as i128) < cutoff
}

/// The entries that are old enough for the archive, in order.
pub open spec fn old_ones(entries: Seq<EntryModel>, at: MomentModel, days: int) -> Seq<EntryModel>
    decreases entries.len(),
{
    if entries.len() == 0 {
        Seq::empty()
    } else if is_old(entries.last().created_at, at, days) {
        old_ones(entries.drop_last(), at, days).push(entries.last())
    } else {
        old_ones(entries.drop_last(), at, days)
    }
}

/// The entries that are old enough for the archive, in order.
pub fn select_old(entries: &Vec<Entry>, at: Moment, days: i64) -> (r: Vec<Entry>)
    ensures
        entries_of(r@) == old_ones(entries_of(entries@), at@, days as int),
{
    let n: usize = entries.len();
    let ghost all = entries_of(entries@);
    let mut r: Vec<Entry> = Vec::new();
    proof {
        assert(entries_of(r@) =~= old_ones(all.take(0), at@, days as int));
    }
    for i in 0..n
        invariant
            n == entries@.len(),
            all == entries_of(entries@),
            entries_of(r@) == old_ones(all.take(i as int), at@, days as int),
    {
        proof {
            assert(all.take(i + 1).drop_last() =~= all.take(i as int));
            assert(all.take(i + 1).last() == entries@[i as int]@);
        }
        if old_enough(entries[i].created_at, at, days) {
            let ghost before = r@;
            r.push(entries[i].clone());
            proof {
                assert(entries_of(r@) =~= entries_of(before).push(entries@[i as int]@));
            }
        }
    }
    proof {
        assert(all.take(n as int) =~= all);
    }
    r
}

/// The keys of the entries whose block was written, in order.
pub open spec fn written_keys(entries: Seq<EntryModel>, written: Seq<bool>) -> Seq<Seq<char>>
    decreases entries.len(),
{
    if entries.len() == 0 {
        Seq::empty()
    } else {
        let rest = written_keys(entries.drop_last(), written.take(entries.len() - 1));
        if written[entries.len() - 1] {
            rest.push(entries.last().key)
        } else {
            rest
        }
    }
}

/// The keys that leave short-term memory after an archival pass: those of the
/// entries whose block was written.
pub fn archived_keys(old: &Vec<Entry>, written: &Vec<bool>) -> (r: Vec<String>)
    requires
        old@.len() == written@.len(),
    ensures
        texts(r@) == written_keys(entries_of(old@), written@),
{
    let n: usize = old.len();
    let ghost all = entries_of(old@);
    let mut r: Vec<String> = Vec::new();
    proof {
        assert(texts(r@) =~= written_keys(all.take(0), written@.take(0)));
    }
    for i in 0..n
        invariant
            n == old@.len(),
            n == written@.len(),
            all == entries_of(old@),
            texts(r@) == written_keys(all.take(i as int), written@.take(i as int)),
    {
        proof {
            assert(all.take(i + 1).drop_last() =~= all.take(i as int));
            assert(all.take(i + 1).last() == old@[i as int]@);
            assert(written@.take(i + 1).take(i as int) =~= written@.take(i as int));
            assert(written@.take(i + 1)[i as int] == written@[i as int]);
        }
        if written[i] {
            let key = old[i].key.clone();
            proof {
                crate::text::lemma_texts_push(r@, key);
            }
            r.push(key);
        }
    }
    proof {
        assert(all.take(n as int) =~= all);
        assert(written@.take(n as int) =~= written@);
    }
    r
}

/// A key leaves short-term memory after an archival pass exactly where an entry
/// with this key was written to the archive.
pub proof fn archived_means_written(
    entries: Seq<EntryModel>,
    written: Seq<bool>,
    key: Seq<char>,
)
    requires
        entries.len() == written.len(),
    ensures
        written_keys(entries, written).contains(key) <==> exists|i: int|
            0 <= i < entries.len() && written[i] && (#[trigger] entries[i]).key == key,
    decreases entries.len(),
{
    if entries.len() > 0 {
        let n = entries.len() - 1;
        let rest = entries.drop_last();
        let w = written.take(n);
        let all = written_keys(entries, written);
        let before = written_keys(rest, w);
        archived_means_written(rest, w, key);
        if all.contains(key) {
            let k = all.index_of(key);
            if k < before.len() {
                assert(before[k] == key);
                let i = choose|i: int|
                    0 <= i < rest.len() && w[i] && (#[trigger] rest[i]).key == key;
                assert(entries[i].key == key && written[i]);
            } else {
                assert(entries[n].key == key);
            }
        }
        if exists|i: int|
            0 <= i < entries.len() && written[i] && (#[trigger] entries[i]).key == key {
            let i = choose|i: int|
                0 <= i < entries.len() && written[i] && (#[trigger] entries[i]).key == key;
            if i < n {
                assert(rest[i].key == key && w[i]);
                let k = before.index_of(key);
                assert(all[k] == key);
            } else {
                assert(all[all.len() - 1] == key);
            }
        }
    }
}

/// What to do for one entry.
pub struct ArchiveStep {
    /// The date whose file is to be opened first, where it is not open.
    pub open: Option<String>,
    /// The block to append.
    pub block: String,
}

/// What there is to know of the file of the day.
#[derive(Clone, Copy, Debug, PartialEq, Eq, Structural)]
pub enum DayFile {
    /// It was not needed yet.
    Unopened,
    Open,
    /// It was closed, for the day or because it could not be opened.
    Closed,
}

/// What the archive knows of the file that it appends to.
pub struct L3 {
    today_date: String,
    file: DayFile,
}

impl L3 {
    /// The date of the file.
    pub closed spec fn today(&self) -> Seq<char> {
        self.today_date@
    }

    /// What there is to know of the file.
    pub closed spec fn file_state(&self) -> DayFile {
        self.file
    }

    /// An archive whose file of the day was not needed yet. No file is opened
    /// or created before an entry is archived.
    pub fn new(at: Moment) -> (r: Self)
        ensures
            r.today() == at@.date(),
            r.file_state() == DayFile::Unopened,
    {
        L3 { today_date: at.to_date(), file: DayFile::Unopened }
    }

    /// What there is to know of the file.
    pub fn day_file(&self) -> (r: DayFile)
        ensures
            r == self.file_state(),
    {
        self.file
    }

    /// The name of the file of the day.
    pub fn today_name(&self) -> (r: String)
        ensures
            r@ == archive_name_of(self.today()),
    {
        archive_name(self.today_date.as_str())
    }

    /// What to do to archive an entry at a point in time. The file of the day is
    /// opened first where the day is a new one or the file was not needed yet;
    /// otherwise it has to be open.
    pub fn archive(&self, entry: &Entry, at: Moment) -> (r: Result<ArchiveStep, MemoryError>)
        ensures
            match r {
                Ok(step) => {
                    &&& step.block@ == markdown_of(entry@)
                    &&& match step.open {
                        Some(day) => day@ == at@.date() && (at@.date() != self.today()
                            || self.file_state() == DayFile::Unopened),
                        None => at@.date() == self.today() && self.file_state() == DayFile::Open,
                    }
                },
                Err(MemoryError::L3ArchiveFailed(message)) => at@.date() == self.today()
                    && self.file_state() == DayFile::Closed && message@ == "archive file closed"@,
                Err(_) => false,
            },
    {
        let day = at.to_date();
        let block = entry_to_markdown(entry);
        if !same_str(day.as_str(), self.today_date.as_str()) {
            return Ok(ArchiveStep { open: Some(day), block });
        }
        match self.file {
            DayFile::Unopened => Ok(ArchiveStep { open: Some(day), block }),
            DayFile::Open => Ok(ArchiveStep { open: None, block }),
            DayFile::Closed => Err(MemoryError::L3ArchiveFailed("archive file closed".to_owned())),
        }
    }

    /// Takes note that the file of a date was opened.
    pub fn opened(&mut self, day: &str)
        ensures
            final(self).today() == day@,
            final(self).file_state() == DayFile::Open,
    {
        self.today_date = day.to_owned();
        self.file = DayFile::Open;
    }

    /// Takes note that the file is closed, for the day or because the next one
    /// could not be opened.
    pub fn finalize_today(&mut self)
        ensures
            final(self).today() == old(self).today(),
            final(self).file_state() == DayFile::Closed,
    {
        self.file = DayFile::Closed;
    }

    /// The entry in a block, with a fresh identifier and created now.
    pub fn parse_entry(block: &str) -> (r: Option<Entry>)
        ensures
            match r {
                Some(e) => parsed_block(block@) is Some && made_from(e@, parsed_block(block@)->0),
                None => parsed_block(block@) is None,
            },
    {
        match parse_block(block) {
            Some(b) => {
                let at: Moment = Moment::now();
                Some(
                    Entry {
                        id: new_id(),
                        key: b.key,
                        value: b.value,
                        importance: b.importance,
                        tags: b.tags,
                        source: b.source,
                        layer: Layer::Private,
                        created_at: at,
                        last_accessed: at,
                        expires_at: None,
                    },
                )
            },
            None => None,
        }
    }

    /// The entries in the lines of an archive.
    pub fn import_archive(lines: &Vec<String>) -> (r: Vec<Entry>)
        ensures
            all_made_from(entries_of(r@), archive_of(texts(lines@))),
    {
        let n: usize = lines.len();
        let ghost all = texts(lines@);
        let ghost want = archive_of(all);
        let ghost mut got: Seq<Block> = Seq::empty();
        let mut r: Vec<Entry> = Vec::new();
        let mut current = String::new();
        proof {
            assert(all.skip(0) =~= all);
            assert(got + readable(blocks_from(all.skip(0), current@)) =~= want);
        }
        for i in 0..n
            invariant
                n == lines@.len(),
                all == texts(lines@),
                got + readable(blocks_from(all.skip(i as int), current@)) == want,
                all_made_from(entries_of(r@), got),
        {
            let chars = chars_of(lines[i].as_str());
            let ghost rest = all.skip(i as int);
            proof {
                assert(rest[0] == lines@[i as int]@);
                assert(rest.skip(1) =~= all.skip(i + 1));
            }
            if same_as(trim(chars.as_slice()), "---") {
                if !current.as_str().is_empty() {
                    proof {
                        let blocks = blocks_from(rest, current@);
                        assert(blocks[0] == current@);
                        assert(blocks.skip(1) =~= blocks_from(all.skip(i + 1), Seq::empty()));
                    }
                    match Self::parse_entry(current.as_str()) {
                        Some(entry) => {
                            let ghost before = r@;
                            let ghost block = parsed_block(current@)->0;
                            r.push(entry);
                            proof {
                                assert(entries_of(r@) =~= entries_of(before).push(entry@));
                                assert(got + (seq![block] + readable(
                                    blocks_from(all.skip(i + 1), Seq::empty()),
                                )) =~= got.push(block) + readable(
                                    blocks_from(all.skip(i + 1), Seq::empty()),
                                ));
                                got = got.push(block);
                            }
                        },
                        None => {},
                    }
                    current = String::new();
                } else {
                    proof {
                        assert(current@ =~= Seq::empty());
                    }
                }
            } else {
                current.append(lines[i].as_str());
                current.append("\n");
            }
        }
        proof {
            assert(all.skip(n as int) =~= Seq::empty());
            assert(readable(Seq::empty()) =~= Seq::empty());
            assert(got + Seq::<Block>::empty() =~= got);
        }
        r
    }

    /// The blocks of entries, one after the other.
    pub fn archive_batch(entries: &Vec<Entry>) -> (r: String)
        ensures
            r@ == archive_text(stamped(entries_of(entries@))),
            (forall|i: int| 0 <= i < entries@.len() ==> fits_archive((#[trigger] entries@[i])@))
                ==> archive_of(lines_of(r@)) == kept_of(stamped(entries_of(entries@))),
    {
        let n: usize = entries.len();
        let ghost all = stamped(entries_of(entries@));
        let mut r = String::new();
        proof {
            assert(all.take(0) =~= Seq::empty());
        }
        for i in 0..n
            invariant
                n == entries@.len(),
                all == stamped(entries_of(entries@)),
                r@ == archive_text(all.take(i as int)),
                forall|k: int| 0 <= k < i ==> is_stamp((#[trigger] all[k]).1),
        {
            let stamp = entries[i].created_at.to_rfc3339();
            let block = entry_to_markdown(&entries[i]);
            proof {
                assert(all[i as int] == (entries@[i as int]@, stamp@));
                assert(all.take(i + 1) =~= all.take(i as int).push(all[i as int]));
                lemma_archive_text_push(all.take(i as int), all[i as int]);
            }
            r.append(block.as_str());
        }
        proof {
            assert(all.take(n as int) =~= all);
            if forall|i: int| 0 <= i < entries@.len() ==> fits_archive((#[trigger] entries@[i])@) {
                assert forall|i: int| 0 <= i < all.len() implies fits_archive((#[trigger] all[i]).0)
                    && is_stamp(all[i].1) by {
                    assert(fits_archive(entries@[i]@));
                }
                archive_is_read_back(all);
            }
        }
        r
    }

    /// The dates of the archive files among the names in a directory, in ascending
    /// order.
    pub fn list_archives(names: &Vec<String>) -> (r: Vec<String>)
        ensures
            ascending(texts(r@)),
            texts(r@).to_multiset() == dates_of(texts(names@)).to_multiset(),
            r@.len() == dates_of(texts(names@)).len(),
    {
        proof {
            reveal_strlit(".md");
        }
        let n: usize = names.len();
        let ghost all = texts(names@);
        let ending = chars_of(".md");
        let mut dates: Vec<String> = Vec::new();
        proof {
            assert(texts(dates@) =~= dates_of(all.take(0)));
        }
        for i in 0..n
            invariant
                n == names@.len(),
                all == texts(names@),
                ending@ == ".md"@,
                ending@.len() > 0,
                texts(dates@) == dates_of(all.take(i as int)),
        {
            proof {
                assert(all.take(i + 1).drop_last() =~= all.take(i as int));
                assert(all.take(i + 1).last() == names@[i as int]@);
            }
            let name = chars_of(names[i].as_str());
            if ends_with(name.as_slice(), ".md") {
                let date = string_of(trim_end_matches(name.as_slice(), ending.as_slice()));
                proof {
                    lemma_texts_push(dates@, date);
                }
                dates.push(date);
            }
        }
        proof {
            assert(all.take(n as int) =~= all);
            assert(texts(dates@).len() == dates@.len());
        }
        sort_names(&dates)
    }

    /// The number of archive files among the names in a directory.
    pub fn count_archives(names: &Vec<String>) -> (r: usize)
        ensures
            r == dates_of(texts(names@)).len(),
    {
        Self::list_archives(names).len()
    }

    /// What is wrong with the archive, given whether its directory is there.
    pub fn health_issue(directory_exists: bool) -> (r: Option<String>)
        ensures
            match r {
                Some(message) => !directory_exists && message@ == "archive directory missing"@,
                None => directory_exists,
            },
    {
        if directory_exists {
            None
        } else {
            Some("archive directory missing".to_owned())
        }
    }
}

} // verus!
