//! Moving notes out of old Markdown files into the memory system.

use crate::common::{entries_of, Entry};
use crate::notes::{
    are_log_lines, are_sections, is_md_file, log_lines, md_file, parse_log, parse_memory_md,
    sections_of,
};
use crate::text::{
    chars_of, decimal_of, lemma_texts_push, lines, lines_of, number, pieces, remove_copies,
    same_str, split, split_of, string_of, texts, without_copies,
};
use vstd::prelude::*;
use vstd::string::*;

verus! {

/// The old files of a workspace, by their path in it.
pub open spec fn old_files(has_memory_md: bool, names: Seq<Seq<char>>) -> Seq<Seq<char>>
    decreases names.len(),
{
    if names.len() == 0 {
        if has_memory_md {
            seq!["MEMORY.md"@]
        } else {
            Seq::empty()
        }
    } else if is_md_file(names.last()) {
        old_files(has_memory_md, names.drop_last()).push("memory/"@ + names.last())
    } else {
        old_files(has_memory_md, names.drop_last())
    }
}

/// The day that the path of a daily log stands for: the last part of the path
/// without `.md`.
pub open spec fn day_of(source: Seq<char>) -> Seq<char> {
    without_copies(split_of(source, '/').last(), ".md"@)
}

/// Reads old memory files of a workspace.
pub struct Migrator {
    workspace_root: String,
}

impl Migrator {
    /// The directory of the workspace.
    pub closed spec fn root(&self) -> Seq<char> {
        self.workspace_root@
    }

    pub fn new(workspace_root: &str) -> (r: Self)
        ensures
            r.root() == workspace_root@,
    {
        Migrator { workspace_root: workspace_root.to_owned() }
    }

    /// The directory of the workspace.
    pub fn workspace_root(&self) -> (r: &str)
        ensures
            r@ == self.root(),
    {
        self.workspace_root.as_str()
    }

    /// The old files of a workspace, given whether it has a `MEMORY.md` and
    /// the names in its directory `memory`.
    pub fn scan_old_files(has_memory_md: bool, names: &Vec<String>) -> (r: Vec<String>)
        ensures
            texts(r@) == old_files(has_memory_md, texts(names@)),
    {
        let n: usize = names.len();
        let ghost all = texts(names@);
        let mut r: Vec<String> = Vec::new();
        if has_memory_md {
            r.push("MEMORY.md".to_owned());
        }
        proof {
            assert(texts(r@) =~= old_files(has_memory_md, all.take(0)));
        }
        for i in 0..n
            invariant
                n == names@.len(),
                all == texts(names@),
                texts(r@) == old_files(has_memory_md, all.take(i as int)),
        {
            proof {
                assert(all.take(i + 1).drop_last() =~= all.take(i as int));
                assert(all.take(i + 1).last() == names@[i as int]@);
            }
            if md_file(names[i].as_str()) {
                let path = "memory/".to_owned().concat(names[i].as_str());
                proof {
                    lemma_texts_push(r@, path);
                }
                r.push(path);
            }
        }
        proof {
            assert(all.take(n as int) =~= all);
        }
        r
    }

    /// The entries in the text of a daily log with the given path.
    pub fn parse_daily_log(content: &str, source: &str) -> (r: Vec<Entry>)
        ensures
            are_log_lines(
                entries_of(r@),
                log_lines(lines_of(content@)),
                day_of(source@),
                source@,
            ),
    {
        proof {
            reveal_strlit(".md");
        }
        let chars = chars_of(content);
        let all = lines(chars.as_slice());
        let path = chars_of(source);
        let parts = split(path.as_slice(), '/');
        let ending = chars_of(".md");
        proof {
            lemma_split_not_empty(source@, '/');
            assert(pieces(parts@).len() == parts@.len());
        }
        let last: usize = parts.len() - 1;
        proof {
            assert(pieces(parts@)[last as int] == parts@[last as int]@);
            assert(pieces(parts@).last() == pieces(parts@)[last as int]);
        }
        let day_chars = remove_copies(parts[last].as_slice(), ending.as_slice());
        let day = string_of(day_chars.as_slice());
        parse_log(&all, day.as_str(), source)
    }

    /// The entries in the text of an old file: by sections for `MEMORY.md`, by
    /// lines for every other.
    pub fn parse_file(content: &str, source: &str) -> (r: Vec<Entry>)
        ensures
            source@ == "MEMORY.md"@ ==> are_sections(
                entries_of(r@),
                sections_of(lines_of(content@)),
            ),
            source@ != "MEMORY.md"@ ==> are_log_lines(
                entries_of(r@),
                log_lines(lines_of(content@)),
                day_of(source@),
                source@,
            ),
    {
        if same_str(source, "MEMORY.md") {
            let chars = chars_of(content);
            let all = lines(chars.as_slice());
            parse_memory_md(&all)
        } else {
            Self::parse_daily_log(content, source)
        }
    }
}

proof fn lemma_split_not_empty(s: Seq<char>, c: char)
    ensures
        split_of(s, c).len() > 0,
{
}

/// What became of a migration.
#[derive(Debug)]
pub struct MigrateReport {
    pub files_found: usize,
    pub entries_extracted: usize,
    pub entries_imported: usize,
    pub errors: Vec<String>,
}

/// What became of one file.
#[derive(Debug)]
pub enum FileOutcome {
    /// It could not be read, for the reason given.
    Unreadable(String),
    /// It was read; for each of its entries, in order, why it could not be
    /// written, or `None` where it was.
    Read(Vec<Option<String>>),
}

/// The reasons why entries could not be written, in order.
pub open spec fn failures_in(writes: Seq<Option<String>>) -> Seq<Seq<char>>
    decreases writes.len(),
{
    if writes.len() == 0 {
        Seq::empty()
    } else {
        match writes.last() {
            Some(error) => failures_in(writes.drop_last()).push(error@),
            None => failures_in(writes.drop_last()),
        }
    }
}

/// What a report says of the entries of a file that could not be written.
pub open spec fn write_errors(name: Seq<char>, writes: Seq<Option<String>>) -> Seq<Seq<char>> {
    failures_in(writes).map_values(|error: Seq<char>| name + ": "@ + error)
}

/// How many entries of the files could not be written.
pub open spec fn failed_writes(outcomes: Seq<FileOutcome>) -> nat
    decreases outcomes.len(),
{
    if outcomes.len() == 0 {
        0
    } else {
        failed_writes(outcomes.drop_last()) + match outcomes.last() {
            FileOutcome::Unreadable(_) => 0,
            FileOutcome::Read(writes) => failures_in(writes@).len(),
        }
    }
}

/// Whether a file was read and all its entries were written.
pub open spec fn went_well(outcome: FileOutcome) -> bool {
    match outcome {
        FileOutcome::Unreadable(_) => false,
        FileOutcome::Read(writes) => forall|i: int|
            0 <= i < writes@.len() ==> #[trigger] writes@[i] is None,
    }
}

/// Whether `after` is the report `before` with one more file.
pub open spec fn reports_file(
    before: MigrateReport,
    after: MigrateReport,
    name: Seq<char>,
    outcome: FileOutcome,
) -> bool {
    &&& after.files_found == before.files_found
    &&& match outcome {
        FileOutcome::Unreadable(error) => {
            &&& after.entries_extracted == before.entries_extracted
            &&& after.entries_imported == before.entries_imported
            &&& texts(after.errors@) == texts(before.errors@).push(
                "parse "@ + name + ": "@ + error@,
            )
        },
        FileOutcome::Read(writes) => {
            &&& after.entries_extracted == before.entries_extracted + writes@.len()
            &&& after.entries_imported == before.entries_imported + writes@.len() - failures_in(
                writes@,
            ).len()
            &&& texts(after.errors@) == texts(before.errors@) + write_errors(name, writes@)
        },
    }
}

proof fn lemma_failures_in(writes: Seq<Option<String>>)
    ensures
        failures_in(writes).len() <= writes.len(),
        failures_in(writes).len() == 0 <==> forall|i: int|
            0 <= i < writes.len() ==> #[trigger] writes[i] is None,
    decreases writes.len(),
{
    if writes.len() > 0 {
        let rest = writes.drop_last();
        lemma_failures_in(rest);
        assert forall|i: int| 0 <= i < rest.len() implies rest[i] == writes[i] by {}
        if forall|i: int| 0 <= i < writes.len() ==> #[trigger] writes[i] is None {
            assert(writes[writes.len() - 1] is None);
            assert forall|i: int| 0 <= i < rest.len() implies #[trigger] rest[i] is None by {
                assert(writes[i] is None);
            }
        }
        if failures_in(writes).len() == 0 {
            assert forall|i: int| 0 <= i < writes.len() implies #[trigger] writes[i] is None by {
                if i < rest.len() {
                    assert(rest[i] is None);
                }
            }
        }
    }
}

/// Over a whole migration, the entries that were extracted and not imported are
/// those that could not be written, and the old files may be deleted exactly
/// where every file was read and all entries were written: a single failure
/// keeps them.
pub proof fn only_failed_writes_are_missing(
    reports: Seq<MigrateReport>,
    names: Seq<Seq<char>>,
    outcomes: Seq<FileOutcome>,
)
    requires
        reports.len() == outcomes.len() + 1,
        names.len() == outcomes.len(),
        reports[0].entries_extracted == 0,
        reports[0].entries_imported == 0,
        reports[0].errors@.len() == 0,
        forall|i: int|
            0 <= i < outcomes.len() ==> reports_file(
                #[trigger] reports[i],
                reports[i + 1],
                names[i],
                outcomes[i],
            ),
    ensures
        reports.last().entries_extracted - reports.last().entries_imported == failed_writes(
            outcomes,
        ),
        reports.last().errors@.len() == 0 <==> forall|i: int|
            0 <= i < outcomes.len() ==> went_well(#[trigger] outcomes[i]),
    decreases outcomes.len(),
{
    if outcomes.len() > 0 {
        let n = outcomes.len() - 1;
        let before = reports.drop_last();
        let rest = outcomes.drop_last();
        assert forall|i: int| 0 <= i < rest.len() implies reports_file(
            #[trigger] before[i],
            before[i + 1],
            names.drop_last()[i],
            rest[i],
        ) by {
            assert(reports_file(reports[i], reports[i + 1], names[i], outcomes[i]));
        }
        only_failed_writes_are_missing(before, names.drop_last(), rest);
        assert(reports_file(reports[n], reports[n + 1], names[n], outcomes[n]));
        assert(before.last() == reports[n]);
        assert(reports.last() == reports[n + 1]);
        assert(texts(reports[n].errors@).len() == reports[n].errors@.len());
        assert(texts(reports[n + 1].errors@).len() == reports[n + 1].errors@.len());
        match outcomes[n] {
            FileOutcome::Unreadable(_) => {},
            FileOutcome::Read(writes) => {
                lemma_failures_in(writes@);
            },
        }
        if forall|i: int| 0 <= i < outcomes.len() ==> went_well(#[trigger] outcomes[i]) {
            assert(went_well(outcomes[n]));
            assert forall|i: int| 0 <= i < rest.len() implies went_well(#[trigger] rest[i]) by {
                assert(went_well(outcomes[i]));
            }
        }
        if reports.last().errors@.len() == 0 {
            assert forall|i: int| 0 <= i < outcomes.len() implies went_well(
                #[trigger] outcomes[i],
            ) by {
                if i < n {
                    assert(went_well(rest[i]));
                }
            }
        }
    }
}

/// The errors of a report, each on a line of its own.
pub open spec fn error_lines(errors: Seq<Seq<char>>) -> Seq<char>
    decreases errors.len(),
{
    if errors.len() == 0 {
        Seq::empty()
    } else {
        error_lines(errors.drop_last()) + "  - "@ + errors.last() + "\n"@
    }
}

impl MigrateReport {
    /// The report as text.
    pub open spec fn text_of(&self) -> Seq<char> {
        let counts = "=== 迁移报告 ===\n"@ + "旧文件数量: "@ + decimal_of(
            self.files_found as nat,
        ) + "\n"@ + "提取条目: "@ + decimal_of(self.entries_extracted as nat) + "\n"@
            + "成功导入: "@ + decimal_of(self.entries_imported as nat) + "\n"@;
        if self.errors@.len() == 0 {
            counts
        } else {
            counts + "错误:\n"@ + error_lines(texts(self.errors@))
        }
    }

    /// A report on files of which none has been read yet.
    pub fn new(files_found: usize) -> (r: Self)
        ensures
            r.files_found == files_found,
            r.entries_extracted == 0,
            r.entries_imported == 0,
            r.errors@.len() == 0,
    {
        MigrateReport {
            files_found,
            entries_extracted: 0,
            entries_imported: 0,
            errors: Vec::new(),
        }
    }

    /// Takes note of the entries found in a file.
    pub fn extracted(&mut self, count: usize)
        requires
            old(self).entries_extracted + count <= usize::MAX,
        ensures
            final(self).entries_extracted == old(self).entries_extracted + count,
            final(self).entries_imported == old(self).entries_imported,
            final(self).files_found == old(self).files_found,
            final(self).errors == old(self).errors,
    {
        self.entries_extracted = self.entries_extracted + count;
    }

    /// Takes note of an entry that was written.
    pub fn imported(&mut self)
        requires
            old(self).entries_imported < usize::MAX,
        ensures
            final(self).entries_imported == old(self).entries_imported + 1,
            final(self).entries_extracted == old(self).entries_extracted,
            final(self).files_found == old(self).files_found,
            final(self).errors == old(self).errors,
    {
        self.entries_imported = self.entries_imported + 1;
    }

    fn add_error(&mut self, message: String)
        ensures
            final(self).entries_imported == old(self).entries_imported,
            final(self).entries_extracted == old(self).entries_extracted,
            final(self).files_found == old(self).files_found,
            texts(final(self).errors@) == texts(old(self).errors@).push(message@),
    {
        proof {
            lemma_texts_push(self.errors@, message);
        }
        self.errors.push(message);
    }

    /// Takes note of an entry of a file that could not be written.
    pub fn write_failed(&mut self, name: &str, error: &str)
        ensures
            final(self).entries_imported == old(self).entries_imported,
            final(self).entries_extracted == old(self).entries_extracted,
            final(self).files_found == old(self).files_found,
            texts(final(self).errors@) == texts(old(self).errors@).push(name@ + ": "@ + error@),
    {
        self.add_error(name.to_owned().concat(": ").concat(error));
    }

    /// Takes note of a file that could not be read.
    pub fn parse_failed(&mut self, name: &str, error: &str)
        ensures
            final(self).entries_imported == old(self).entries_imported,
            final(self).entries_extracted == old(self).entries_extracted,
            final(self).files_found == old(self).files_found,
            texts(final(self).errors@) == texts(old(self).errors@).push(
                "parse "@ + name@ + ": "@ + error@,
            ),
    {
        self.add_error("parse ".to_owned().concat(name).concat(": ").concat(error));
    }

    /// Takes note of a file that could not be deleted.
    pub fn delete_failed(&mut self, path: &str, error: &str)
        ensures
            final(self).entries_imported == old(self).entries_imported,
            final(self).entries_extracted == old(self).entries_extracted,
            final(self).files_found == old(self).files_found,
            texts(final(self).errors@) == texts(old(self).errors@).push(
                "delete "@ + path@ + ": "@ + error@,
            ),
    {
        self.add_error("delete ".to_owned().concat(path).concat(": ").concat(error));
    }

    /// Takes note of what became of a file.
    pub fn file(&mut self, name: &str, outcome: &FileOutcome)
        requires
            old(self).entries_imported <= old(self).entries_extracted,
            outcome matches FileOutcome::Read(writes) ==> old(self).entries_extracted
                + writes@.len() <= usize::MAX,
        ensures
            reports_file(*old(self), *final(self), name@, *outcome),
            final(self).entries_imported <= final(self).entries_extracted,
    {
        match outcome {
            FileOutcome::Unreadable(error) => self.parse_failed(name, error.as_str()),
            FileOutcome::Read(writes) => {
                let n: usize = writes.len();
                self.extracted(n);
                proof {
                    assert(writes@.take(0) =~= Seq::empty());
                    assert(write_errors(name@, writes@.take(0)) =~= Seq::empty());
                    assert(texts(self.errors@) =~= texts(old(self).errors@) + write_errors(
                        name@,
                        writes@.take(0),
                    ));
                }
                for i in 0..n
                    invariant
                        n == writes@.len(),
                        old(self).entries_imported <= old(self).entries_extracted,
                        old(self).entries_extracted + n <= usize::MAX,
                        self.files_found == old(self).files_found,
                        self.entries_extracted == old(self).entries_extracted + n,
                        failures_in(writes@.take(i as int)).len() <= i,
                        self.entries_imported == old(self).entries_imported + i - failures_in(
                            writes@.take(i as int),
                        ).len(),
                        texts(self.errors@) == texts(old(self).errors@) + write_errors(
                            name@,
                            writes@.take(i as int),
                        ),
                {
                    let ghost seen = writes@.take(i as int);
                    let ghost more = writes@.take(i + 1);
                    proof {
                        assert(more.drop_last() =~= seen);
                        assert(more.last() == writes@[i as int]);
                    }
                    match &writes[i] {
                        Some(error) => {
                            self.write_failed(name, error.as_str());
                            proof {
                                assert(write_errors(name@, more) =~= write_errors(name@, seen).push(
                                    name@ + ": "@ + error@,
                                ));
                                assert(texts(self.errors@) =~= texts(old(self).errors@)
                                    + write_errors(name@, more));
                            }
                        },
                        None => {
                            self.imported();
                        },
                    }
                }
                proof {
                    assert(writes@.take(n as int) =~= writes@);
                    lemma_failures_in(writes@);
                }
            },
        }
    }

    /// Whether the old files may be deleted: nothing went wrong.
    pub fn may_delete(&self) -> (r: bool)
        ensures
            r == (self.errors@.len() == 0),
    {
        self.errors.len() == 0
    }

    /// The report as text.
    pub fn text(&self) -> (r: String)
        ensures
            r@ == self.text_of(),
    {
        let mut r = "=== 迁移报告 ===\n".to_owned();
        r.append("旧文件数量: ");
        r.append(number(self.files_found as u64).as_str());
        r.append("\n");
        r.append("提取条目: ");
        r.append(number(self.entries_extracted as u64).as_str());
        r.append("\n");
        r.append("成功导入: ");
        r.append(number(self.entries_imported as u64).as_str());
        r.append("\n");
        if self.errors.len() > 0 {
            r.append("错误:\n");
            let ghost start = r@;
            let n: usize = self.errors.len();
            let ghost all = texts(self.errors@);
            proof {
                assert(all.take(0) =~= Seq::empty());
                assert(start + error_lines(all.take(0)) =~= start);
            }
            for i in 0..n
                invariant
                    n == self.errors@.len(),
                    all == texts(self.errors@),
                    r@ == start + error_lines(all.take(i as int)),
            {
                proof {
                    assert(all.take(i + 1).drop_last() =~= all.take(i as int));
                    assert(all.take(i + 1).last() == self.errors@[i as int]@);
                }
                r.append("  - ");
                r.append(self.errors[i].as_str());
                r.append("\n");
                proof {
                    assert(r@ =~= start + error_lines(all.take(i + 1)));
                }
            }
            proof {
                assert(all.take(n as int) =~= all);
            }
        }
        r
    }
}

} // verus!
