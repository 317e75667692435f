//! Entries of the first version of the store, and what becomes of them when
//! they are moved into the short-term layer.

use crate::clock::{moment_of, Moment};
use crate::l1::{millis_of, Row, RowModel};
use crate::text::{lowercase, same_str};
use vstd::prelude::*;
use vstd::std_specs::convert::FromSpecImpl;
use vstd::string::*;

verus! {

/// The importance of an entry of the first version, as a level.
#[derive(Clone, Copy, Debug, PartialEq, Eq, PartialOrd, Ord, Structural)]
pub struct Importance(pub i32);

impl Importance {
    /// The level that a name stands for, in letters of any case: 4 for
    /// critical, 3 for high, 2 for normal and 1 for everything else.
    pub open spec fn level_named(name: Seq<char>) -> i32 {
        let n = lowercase(name);
        if n == "critical"@ {
            4
        } else if n == "high"@ {
            3
        } else if n == "normal"@ {
            2
        } else {
            1
        }
    }

    pub fn from_str(s: &str) -> (r: Self)
        ensures
            r.0 == Self::level_named(s@),
    {
        let n = s.to_lowercase();
        if same_str(n.as_str(), "critical") {
            Importance(4)
        } else if same_str(n.as_str(), "high") {
            Importance(3)
        } else if same_str(n.as_str(), "normal") {
            Importance(2)
        } else {
            Importance(1)
        }
    }

    /// The level that a number in a record stands for: its low 32 bits, and 2
    /// for a number that is no whole one of 64 bits.
    pub fn from_number(v: Option<i64>) -> (r: Self)
        ensures
            r.0 == (match v {
                Some(n) => n as i32,
                None => 2,
            }),
    {
        match v {
            Some(n) => Importance(
                #[verifier::truncate]
                (n as i32),
            ),
            None => Importance(2),
        }
    }

    pub fn as_i32(&self) -> (r: i32)
        ensures
            r == self.0,
    {
        self.0
    }
}

impl FromSpecImpl<i32> for Importance {
    open spec fn obeys_from_spec() -> bool {
        true
    }

    open spec fn from_spec(v: i32) -> Self {
        Importance(v)
    }
}

impl From<i32> for Importance {
    fn from(v: i32) -> (r: Self) {
        Importance(v)
    }
}

/// The layer of an entry of the first version, by its name.
#[derive(Clone, Copy, Debug, PartialEq, Eq)]
pub struct Layer(pub &'static str);

impl Layer {
    /// The name that a text stands for, in letters of any case: `public`, and
    /// `private` for everything else.
    pub open spec fn name_for(name: Seq<char>) -> Seq<char> {
        if lowercase(name) == "public"@ {
            "public"@
        } else {
            "private"@
        }
    }

    pub fn from_str(s: &str) -> (r: Self)
        ensures
            r.0@ == Self::name_for(s@),
    {
        let n = s.to_lowercase();
        if same_str(n.as_str(), "public") {
            Layer("public")
        } else {
            Layer("private")
        }
    }

    pub fn as_str(&self) -> (r: &'static str)
        ensures
            r@ == self.0@,
    {
        self.0
    }
}

/// An entry of the first version. Its source may be missing.
#[derive(Debug)]
pub struct Entry {
    pub id: String,
    pub key: String,
    pub value: String,
    pub importance: Importance,
    pub tags: Vec<String>,
    pub source: Option<String>,
    pub layer: Layer,
    pub created_at: Moment,
    pub last_accessed: Moment,
    pub expires_at: Option<Moment>,
}

/// The row that an entry of the first version becomes. It keeps its times, and
/// as it is no change of the short-term layer its number is 0.
pub open spec fn legacy_row(entry: Entry) -> RowModel {
    RowModel {
        key: entry.key@,
        id: entry.id@,
        value: entry.value@,
        importance: entry.importance.0,
        source: match entry.source {
            Some(name) => name@,
            None => "v1-migration"@,
        },
        layer: entry.layer.0@,
        created_at: entry.created_at@.millis(),
        last_accessed: entry.last_accessed@.millis(),
        expires_at: millis_of(moment_of(entry.expires_at)),
        seq: 0,
    }
}

impl Entry {
    /// The row that the entry becomes.
    pub fn row(&self) -> (r: Row)
        ensures
            r@ == legacy_row(*self),
    {
        Row {
            key: self.key.clone(),
            id: self.id.clone(),
            value: self.value.clone(),
            importance: self.importance.as_i32(),
            source: match &self.source {
                Some(name) => name.clone(),
                None => "v1-migration".to_owned(),
            },
            layer: self.layer.as_str().to_owned(),
            created_at: self.created_at.millis(),
            last_accessed: self.last_accessed.millis(),
            expires_at: match self.expires_at {
                Some(end) => Some(end.millis()),
                None => None,
            },
            seq: 0,
        }
    }
}

/// How a migration of the first version goes.
#[derive(Clone, Copy, Debug, PartialEq, Eq, Structural)]
pub struct Migration {
    /// Rows written.
    pub total: u64,
    /// Records that could not be read.
    pub skipped: u64,
    /// Records that could not be fetched and rows that could not be written.
    pub errors: u64,
}

/// What became of one record.
#[derive(Clone, Copy, Debug, PartialEq, Eq, Structural)]
pub enum RecordOutcome {
    Written,
    WriteFailed,
    Unreadable,
    NotFetched,
}

impl Migration {
    /// A migration that has not begun.
    pub fn new() -> (r: Self)
        ensures
            r.total == 0,
            r.skipped == 0,
            r.errors == 0,
    {
        Migration { total: 0, skipped: 0, errors: 0 }
    }

    /// Takes note of what became of one record.
    pub fn count(&mut self, outcome: RecordOutcome)
        requires
            old(self).total < u64::MAX,
            old(self).skipped < u64::MAX,
            old(self).errors < u64::MAX,
        ensures
            final(self).total == old(self).total + (if outcome == RecordOutcome::Written {
                1int
            } else {
                0
            }),
            final(self).skipped == old(self).skipped + (if outcome == RecordOutcome::Unreadable {
                1int
            } else {
                0
            }),
            final(self).errors == old(self).errors + (if outcome == RecordOutcome::WriteFailed
                || outcome == RecordOutcome::NotFetched {
                1int
            } else {
                0
            }),
    {
        match outcome {
            RecordOutcome::Written => {
                self.total = self.total + 1;
            },
            RecordOutcome::Unreadable => {
                self.skipped = self.skipped + 1;
            },
            RecordOutcome::WriteFailed | RecordOutcome::NotFetched => {
                self.errors = self.errors + 1;
            },
        }
    }

    /// Whether nothing went wrong.
    pub fn succeeded(&self) -> (r: bool)
        ensures
            r == (self.errors == 0),
    {
        self.errors == 0
    }
}

} // verus!
