//! History store protocol over a single backing text.
//!
//! `Store` keeps the backing text in memory and realizes the full protocol —
//! ensure, load, append — with proved contracts; a file-backed shell only has
//! to read and write the text verbatim. A backing text that does not parse is
//! reported as `CorruptHistory`, never silently treated as an empty history.
use vstd::prelude::*;
use crate::history::{History, RecordView, TimingRecord};
use crate::codec::{enc_history, parse_history_text, encode_history, parse_history};
use crate::roundtrip::lemma_round_trip;

verus! {

/// Errors of the history store.
#[derive(Debug)]
pub enum HistoryError {
    /// The backing location is absent or cannot be read or written.
    StorageUnavailable,
    /// The backing location exists but does not hold a well-formed history
    /// document.
    CorruptHistory,
}

/// The text an empty history is initialized with.
pub fn initial_content() -> (t: Vec<char>)
    ensures
        t@ == enc_history(Seq::<RecordView>::empty()),
        parse_history_text(t@) == Some(Seq::<RecordView>::empty()),
{
    let h = History::new();
    let t = encode_history(&h);
    proof {
        lemma_round_trip(Seq::<RecordView>::empty());
    }
    t
}

/// An in-memory history store: `content` is the backing text, `None` standing
/// for an absent backing file.
pub struct Store {
    pub content: Option<Vec<char>>,
}

impl Store {
    /// The backing text, if the backing location exists.
    pub open spec fn text(&self) -> Option<Seq<char>> {
        match self.content {
            Some(t) => Some(t@),
            None => None,
        }
    }

    /// A store whose backing location does not exist yet.
    pub fn absent() -> (s: Store)
        ensures
            s.text() is None,
    {
        Store { content: None }
    }

    /// A store over the given backing text.
    pub fn with_content(t: Vec<char>) -> (s: Store)
        ensures
            s.text() == Some(t@),
    {
        Store { content: Some(t) }
    }

    /// Guarantees the backing location exists: an absent one is initialized
    /// with an empty history, an existing one — populated or not — is left
    /// exactly as it is. Idempotent: a second call never changes anything.
    pub fn ensure(&mut self)
        ensures
            old(self).text() is None ==> final(self).text() == Some(
                enc_history(Seq::<RecordView>::empty()),
            ),
            old(self).text() is Some ==> final(self).text() == old(self).text(),
    {
        if self.content.is_none() {
            self.content = Some(initial_content());
        }
    }

    /// Loads the current history. Fails with `StorageUnavailable` iff the
    /// backing location is absent and with `CorruptHistory` iff its text is
    /// not a well-formed history document.
    pub fn load(&self) -> (r: Result<History, HistoryError>)
        ensures
            match self.text() {
                None => r matches Err(HistoryError::StorageUnavailable),
                Some(t) => match parse_history_text(t) {
                    Some(rs) => r matches Ok(h) && h@ == rs,
                    None => r matches Err(HistoryError::CorruptHistory),
                },
            },
    {
        let t = match &self.content {
            Some(t) => t,
            None => {
                return Err(HistoryError::StorageUnavailable);
            },
        };
        match parse_history(t) {
            Some(h) => Ok(h),
            None => Err(HistoryError::CorruptHistory),
        }
    }

    /// Loads the current history, appends `rec` at the end, and writes the
    /// whole updated history back in one step. On success the backing text is
    /// the encoding of the updated history, and — by the codec round-trip —
    /// a subsequent load yields exactly the old records followed by `rec`.
    pub fn append(&mut self, rec: TimingRecord) -> (r: Result<History, HistoryError>)
        ensures
            match old(self).text() {
                None => final(self).text() == old(self).text() && (r matches Err(
                    HistoryError::StorageUnavailable,
                )),
                Some(t) => match parse_history_text(t) {
                    Some(rs) => {
                        &&& r matches Ok(h) && h@ == rs.push(rec@)
                        &&& final(self).text() == Some(enc_history(rs.push(rec@)))
                        &&& parse_history_text(final(self).text().unwrap()) == Some(rs.push(rec@))
                    },
                    None => final(self).text() == old(self).text() && (r matches Err(
                        HistoryError::CorruptHistory,
                    )),
                },
            },
    {
        let t = match &self.content {
            Some(t) => t,
            None => {
                return Err(HistoryError::StorageUnavailable);
            },
        };
        let mut h = match parse_history(t) {
            Some(h) => h,
            None => {
                return Err(HistoryError::CorruptHistory);
            },
        };
        h.append(rec);
        let t2 = encode_history(&h);
        proof {
            lemma_round_trip(h@);
        }
        self.content = Some(t2);
        Ok(h)
    }
}

/// Append monotonicity across persistence: reloading what `append` wrote
/// yields a history one record longer, its front unchanged and `r` at the
/// end.
pub proof fn lemma_append_monotonicity(rs: Seq<RecordView>, r: RecordView)
    ensures
        parse_history_text(enc_history(rs.push(r))) == Some(rs.push(r)),
        rs.push(r).len() == rs.len() + 1,
        forall|k: int| 0 <= k < rs.len() ==> rs.push(r)[k] == rs[k],
        rs.push(r).last() == r,
{
    lemma_round_trip(rs.push(r));
}

} // verus!
