//! One finished game run: the value the store ranks and persists.

use vstd::prelude::*;

verus! {

/// The ranking dimensions a record can be projected onto.
///
/// The display layer also names three reserved categories
/// (`max_alpha_count`, `max_control_chain`, `max_hyper_chain`); records
/// carry no data for them, so this library rejects them as unknown rather
/// than inventing values for them.
#[derive(Clone, Copy, PartialEq, Eq, Structural, Debug)]
pub enum LeaderboardField {
    Score,
    Time,
}

/// The typed error a caller gets for a field name outside the known set.
#[derive(Clone, Copy, PartialEq, Eq, Structural, Debug)]
pub enum LeaderboardError {
    UnknownField,
}

/// The mathematical value of a record: its fields as plain sequences and
/// integers.
pub struct RecordView {
    pub player_name: Seq<char>,
    pub time: u32,
    pub score: u32,
    pub started_at: Seq<char>,
    pub ended_at: Seq<char>,
}

/// One completed game run. Immutable once handed to the store: the store
/// only ever replaces records wholesale.
#[derive(Debug)]
pub struct LeaderboardRecord {
    pub player_name: String,
    /// Elapsed time of the run, in centiseconds.
    pub time: u32,
    pub score: u32,
    /// Timestamp string of the run's start, lexically sortable; doubles as
    /// the record's unique identifier.
    pub started_at: String,
    pub ended_at: String,
}

impl View for LeaderboardRecord {
    type V = RecordView;

    open spec fn view(&self) -> RecordView {
        RecordView {
            player_name: self.player_name@,
            time: self.time,
            score: self.score,
            started_at: self.started_at@,
            ended_at: self.ended_at@,
        }
    }
}

impl Clone for LeaderboardRecord {
    fn clone(&self) -> (r: Self)
        ensures
            r == *self,
    {
        LeaderboardRecord {
            player_name: self.player_name.clone(),
            time: self.time,
            score: self.score,
            started_at: self.started_at.clone(),
            ended_at: self.ended_at.clone(),
        }
    }
}

/// Whether `s` names a field that records carry data for.
pub open spec fn known_field_name(s: Seq<char>) -> bool {
    s == "time"@ || s == "score"@
}

/// The field named by `s`, for a known field name.
pub open spec fn field_of_name(s: Seq<char>) -> LeaderboardField
    recommends
        known_field_name(s),
{
    if s == "time"@ {
        LeaderboardField::Time
    } else {
        LeaderboardField::Score
    }
}

/// The projection of a record onto a ranking field.
pub open spec fn field_value(r: RecordView, f: LeaderboardField) -> u32 {
    match f {
        LeaderboardField::Score => r.score,
        LeaderboardField::Time => r.time,
    }
}

/// Character-for-character string comparison, so field names can be
/// dispatched on without leaving verified code.
pub fn str_eq(a: &str, b: &str) -> (r: bool)
    ensures
        r == (a@ == b@),
{
    let a_len = a.unicode_len();
    let b_len = b.unicode_len();
    if a_len != b_len {
        return false;
    }
    let mut i: usize = 0;
    while i < a_len
        invariant
            0 <= i <= a_len,
            a_len == a@.len(),
            a_len == b@.len(),
            forall|k: int| 0 <= k < i ==> a@[k] == b@[k],
        decreases a_len - i,
    {
        if a.get_char(i) != b.get_char(i) {
            return false;
        }
        i = i + 1;
    }
    proof {
        assert(a@ =~= b@);
    }
    true
}

/// Parses a field name, accepting exactly `"time"` and `"score"`.
pub fn parse_field(field: &str) -> (r: Option<LeaderboardField>)
    ensures
        r is Some <==> known_field_name(field@),
        r matches Some(f) ==> f == field_of_name(field@),
{
    proof {
        reveal_strlit("time");
        reveal_strlit("score");
    }
    if str_eq(field, "time") {
        Some(LeaderboardField::Time)
    } else if str_eq(field, "score") {
        Some(LeaderboardField::Score)
    } else {
        None
    }
}

impl LeaderboardRecord {
    /// The record's unique identifier: the timestamp of the run's start.
    pub fn uid(&self) -> (r: &str)
        ensures
            r@ == self@.started_at,
    {
        self.started_at.as_str()
    }

    /// Projects the record onto the field named by `field`; any name outside
    /// the known set is rejected loudly, so a typo in a ranking query can
    /// never pass for a score of zero.
    pub fn fetch(&self, field: &str) -> (r: Result<u32, LeaderboardError>)
        ensures
            match r {
                Ok(v) => known_field_name(field@) && v == field_value(self@, field_of_name(field@)),
                Err(e) => !known_field_name(field@) && e == LeaderboardError::UnknownField,
            },
    {
        match parse_field(field) {
            Some(f) => Ok(self.fetch_by(f)),
            None => Err(LeaderboardError::UnknownField),
        }
    }

    /// Projects the record onto an already-parsed field.
    pub fn fetch_by(&self, f: LeaderboardField) -> (v: u32)
        ensures
            v == field_value(self@, f),
    {
        match f {
            LeaderboardField::Score => self.score,
            LeaderboardField::Time => self.time,
        }
    }
}

} // verus!
