//! Decisions of the single loader that drains worker results into the
//! store: what to write, when to report progress, when to stop. The caller
//! performs each step and reports back what happened.

use vstd::prelude::*;
use crate::sanitize::{sanitized, Sanitizer};

verus! {

/// The one table that receives the definitions.
pub const CREATE_TABLE: &'static str = "CREATE TABLE stardict (
            id INTEGER PRIMARY KEY AUTOINCREMENT,
            word VARCHAR(64) NOT NULL,
            source_html TEXT NOT NULL)";

/// Relaxed durability for the bulk load: a crash means converting again.
pub const RELAX_DURABILITY: &'static str = "PRAGMA synchronous = OFF";

/// The statement that appends one row.
pub const INSERT_ROW: &'static str = "INSERT INTO stardict (word, source_html) values (?1, ?2)";

/// Progress is reported each time this many more rows were written.
pub const REPORT_EVERY: usize = 6000;

/// Life of the output store.
#[derive(Debug, Clone, Copy, PartialEq, Eq, Structural)]
pub enum StorePhase {
    Uninitialized,
    CreatedEmpty,
    ReusedAsIs,
    Populating,
    Committed,
}

impl StorePhase {
    /// Phase after opening: a new store gets the schema, an existing one is
    /// reused as it is.
    pub fn opened(exists: bool) -> (r: StorePhase)
        ensures
            r == (if exists {
                StorePhase::ReusedAsIs
            } else {
                StorePhase::CreatedEmpty
            }),
    {
        if exists {
            StorePhase::ReusedAsIs
        } else {
            StorePhase::CreatedEmpty
        }
    }

    /// Whether the schema must be created in this phase.
    pub fn needs_schema(&self) -> (r: bool)
        ensures
            r == (*self == StorePhase::CreatedEmpty),
    {
        match self {
            StorePhase::CreatedEmpty => true,
            _ => false,
        }
    }

    /// Loading starts once the store is open, and only then.
    pub fn begin_load(self) -> (r: Option<StorePhase>)
        ensures
            r == (if self == StorePhase::CreatedEmpty || self == StorePhase::ReusedAsIs {
                Some(StorePhase::Populating)
            } else {
                None
            }),
    {
        match self {
            StorePhase::CreatedEmpty | StorePhase::ReusedAsIs => Some(StorePhase::Populating),
            _ => None,
        }
    }

    /// Commit ends loading, and only loading.
    pub fn commit(self) -> (r: Option<StorePhase>)
        ensures
            r == (if self == StorePhase::Populating {
                Some(StorePhase::Committed)
            } else {
                None
            }),
    {
        match self {
            StorePhase::Populating => Some(StorePhase::Committed),
            _ => None,
        }
    }
}

/// What the result stream handed to the loader.
pub enum Received {
    /// One resolved definition.
    Record { word: String, definition: String },
    /// Every worker is done and the stream is drained.
    Closed,
    /// Receiving failed for another reason.
    Broken,
}

/// What the loader asks its caller to do next.
pub enum LoadStep {
    /// Append this row.
    Insert { word: String, html: String },
    /// Stop receiving and commit; `complete` tells a drained stream from a
    /// broken one.
    Finish { complete: bool },
}

/// Counters of a load run.
#[derive(Debug, Clone, Copy, PartialEq, Eq, Structural)]
pub struct Loader {
    /// Number of keys handed to the workers.
    pub total: usize,
    /// Rows written.
    pub inserted: usize,
    /// Records whose insert failed and that were skipped.
    pub skipped: usize,
    /// The stream has ended, normally or not.
    pub finished: bool,
}

/// The loader after one insert attempt.
pub open spec fn after_insert(l: Loader, ok: bool) -> Loader {
    if ok {
        Loader { inserted: (l.inserted + 1) as usize, ..l }
    } else {
        Loader { skipped: (l.skipped + 1) as usize, ..l }
    }
}

impl Loader {
    /// A loader for a run over `total` keys.
    pub fn new(total: usize) -> (r: Loader)
        ensures
            r == (Loader { total, inserted: 0, skipped: 0, finished: false }),
    {
        Loader { total, inserted: 0, skipped: 0, finished: false }
    }

    /// Records taken from the stream so far.
    pub open spec fn seen(&self) -> int {
        self.inserted + self.skipped
    }

    /// Decides what to do with what the stream handed over: a record is
    /// sanitized and written; the end of the stream, normal or not, finishes
    /// the run.
    pub fn on_received(&mut self, sanitizer: &Sanitizer, ev: Received) -> (r: LoadStep)
        requires
            !old(self).finished,
        ensures
            match ev {
                Received::Record { word, definition } => {
                    &&& *final(self) == *old(self)
                    &&& r matches LoadStep::Insert { word: w, html: h } && w@ == word@ && h@
                        == sanitized(definition@, sanitizer.strips())
                },
                Received::Closed => {
                    &&& *final(self) == (Loader { finished: true, ..*old(self) })
                    &&& r matches LoadStep::Finish { complete: true }
                },
                Received::Broken => {
                    &&& *final(self) == (Loader { finished: true, ..*old(self) })
                    &&& r matches LoadStep::Finish { complete: false }
                },
            },
    {
        match ev {
            Received::Record { word, definition } => {
                let html = sanitizer.sanitize(definition.as_str());
                LoadStep::Insert { word, html }
            },
            Received::Closed => {
                self.finished = true;
                LoadStep::Finish { complete: true }
            },
            Received::Broken => {
                self.finished = true;
                LoadStep::Finish { complete: false }
            },
        }
    }

    /// Counts the outcome of one insert: a failed insert is skipped, never
    /// fatal. Returns whether progress is due, which is after every
    /// `REPORT_EVERY` written rows.
    pub fn on_inserted(&mut self, ok: bool) -> (report: bool)
        requires
            old(self).seen() < usize::MAX,
        ensures
            *final(self) == after_insert(*old(self), ok),
            report == (ok && final(self).inserted % REPORT_EVERY == 0),
    {
        if ok {
            self.inserted = self.inserted + 1;
            self.inserted % REPORT_EVERY == 0
        } else {
            self.skipped = self.skipped + 1;
            false
        }
    }
}

/// The loader after a series of insert attempts, in order.
pub open spec fn after_inserts(l: Loader, outcomes: Seq<bool>) -> Loader
    decreases outcomes.len(),
{
    if outcomes.len() == 0 {
        l
    } else {
        after_insert(after_inserts(l, outcomes.drop_last()), outcomes.last())
    }
}

/// Number of successful attempts.
pub open spec fn count_ok(outcomes: Seq<bool>) -> nat
    decreases outcomes.len(),
{
    if outcomes.len() == 0 {
        0
    } else {
        count_ok(outcomes.drop_last()) + if outcomes.last() {
            1nat
        } else {
            0nat
        }
    }
}

/// Failed inserts never stop a run: after any series of attempts the rows
/// written are exactly the successful ones, every failed one is counted as
/// skipped, and nothing else about the run changes.
pub proof fn lemma_rows_match_successes(l: Loader, outcomes: Seq<bool>)
    requires
        l.seen() + outcomes.len() <= usize::MAX,
    ensures
        after_inserts(l, outcomes).inserted == l.inserted + count_ok(outcomes),
        after_inserts(l, outcomes).skipped == l.skipped + outcomes.len() - count_ok(outcomes),
        after_inserts(l, outcomes).total == l.total,
        after_inserts(l, outcomes).finished == l.finished,
    decreases outcomes.len(),
{
    if outcomes.len() > 0 {
        lemma_rows_match_successes(l, outcomes.drop_last());
        lemma_count_ok_bound(outcomes.drop_last());
    }
}

proof fn lemma_count_ok_bound(outcomes: Seq<bool>)
    ensures
        count_ok(outcomes) <= outcomes.len(),
    decreases outcomes.len(),
{
    if outcomes.len() > 0 {
        lemma_count_ok_bound(outcomes.drop_last());
    }
}

} // verus!
