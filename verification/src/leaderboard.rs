//! The leaderboard store: a bounded collection of records kept in retention
//! order, with ranked views and banded ranking queries over them.

use crate::ranking::{
    count_gt, is_new_value, lemma_count_gt_le_len, lemma_count_gt_take_step, lemma_new_when_short,
    rank_of, sorted_desc, target_of,
};
use crate::record::{
    field_of_name, field_value, known_field_name, parse_field, LeaderboardError,
    LeaderboardField, LeaderboardRecord, RecordView,
};
use crate::{MAX_RECORDS_PER_LIST, MAX_STORED_RECORDS};
use vstd::multiset::Multiset;
use vstd::prelude::*;
use vstd::relations::{sorted_by, total_ordering};
use vstd::seq_lib::lemma_sorted_unique;

verus! {

broadcast use {vstd::seq_lib::group_to_multiset_ensures, vstd::multiset::group_multiset_axioms};

/// Whether `a` ranks at least as high as `b`: higher primary value first,
/// ties broken by higher secondary value.
pub open spec fn pair_before(a: (u32, u32), b: (u32, u32)) -> bool {
    a.0 > b.0 || (a.0 == b.0 && a.1 >= b.1)
}

/// `pair_before` as a relation value, for sorting.
pub open spec fn pair_leq() -> spec_fn((u32, u32), (u32, u32)) -> bool {
    |a: (u32, u32), b: (u32, u32)| pair_before(a, b)
}

/// Ranking this way is a total order on value pairs.
pub proof fn lemma_pair_total()
    ensures
        total_ordering(pair_leq()),
{
}

/// A record's sort key for the ranked view of field `f`: the field itself
/// first, the other field of the pair as tie-break.
pub open spec fn field_pair(r: RecordView, f: LeaderboardField) -> (u32, u32) {
    match f {
        LeaderboardField::Score => (r.score, r.time),
        LeaderboardField::Time => (r.time, r.score),
    }
}

/// A record's retention key: score first, then time. This key decides which
/// record is evicted at capacity, independently of any display order.
pub open spec fn ret_pair(r: RecordView) -> (u32, u32) {
    (r.score, r.time)
}

/// The views of a sequence of records.
pub open spec fn views(s: Seq<LeaderboardRecord>) -> Seq<RecordView> {
    s.map_values(|r: LeaderboardRecord| r@)
}

/// The sort keys of a sequence of record views for field `f`.
pub open spec fn pairs_of(s: Seq<RecordView>, f: LeaderboardField) -> Seq<(u32, u32)> {
    s.map_values(|r: RecordView| field_pair(r, f))
}

/// The sort keys of a sequence of records for field `f`.
pub open spec fn exec_pairs(s: Seq<LeaderboardRecord>, f: LeaderboardField) -> Seq<(u32, u32)> {
    s.map_values(|r: LeaderboardRecord| field_pair(r@, f))
}

/// The field values of a sequence of records for field `f`.
pub open spec fn exec_values(s: Seq<LeaderboardRecord>, f: LeaderboardField) -> Seq<u32> {
    s.map_values(|r: LeaderboardRecord| field_value(r@, f))
}

/// The display list for field `f`: every record's sort key, in descending
/// order, cut to the display cap.
pub open spec fn display_pairs(s: Seq<RecordView>, f: LeaderboardField) -> Seq<(u32, u32)> {
    pairs_of(s, f).sort_by(pair_leq()).take(
        vstd::math::min(MAX_RECORDS_PER_LIST as int, s.len() as int),
    )
}

/// The field values of the display list for field `f`, in descending order.
pub open spec fn display_values(s: Seq<RecordView>, f: LeaderboardField) -> Seq<u32> {
    display_pairs(s, f).map_values(|p: (u32, u32)| p.0)
}

/// Whether a record sequence is in retention order.
pub open spec fn retention_sorted(s: Seq<RecordView>) -> bool {
    forall|i: int, j: int|
        0 <= i <= j < s.len() ==> pair_before(#[trigger] ret_pair(s[i]), #[trigger] ret_pair(s[j]))
}

/// The store's invariant over its collection: retention order, and at most
/// the retention bound many records.
pub open spec fn store_ok(s: Seq<RecordView>) -> bool {
    retention_sorted(s) && s.len() <= MAX_STORED_RECORDS
}

/// The position a new record takes in a retention-ordered sequence: after
/// every record that ranks at least as high (so among equals, the newcomer
/// goes last, as a stable re-sort would put it).
pub open spec fn ret_insert_pos(s: Seq<RecordView>, r: RecordView) -> int
    decreases s.len(),
{
    if s.len() == 0 {
        0
    } else if pair_before(ret_pair(s[0]), ret_pair(r)) {
        1 + ret_insert_pos(s.drop_first(), r)
    } else {
        0
    }
}

/// The collection a `store` call leaves behind: the record inserted at its
/// retention position, and the tail dropped when that exceeds the bound.
pub open spec fn stored(s: Seq<RecordView>, r: RecordView) -> Seq<RecordView> {
    let ins = s.insert(ret_insert_pos(s, r), r);
    if ins.len() > MAX_STORED_RECORDS {
        ins.drop_last()
    } else {
        ins
    }
}

proof fn lemma_ret_insert_pos_char(s: Seq<RecordView>, r: RecordView, p: int)
    requires
        0 <= p <= s.len(),
        forall|k: int| 0 <= k < p ==> pair_before(#[trigger] ret_pair(s[k]), ret_pair(r)),
        p < s.len() ==> !pair_before(ret_pair(s[p]), ret_pair(r)),
    ensures
        p == ret_insert_pos(s, r),
    decreases s.len(),
{
    if s.len() > 0 {
        if pair_before(ret_pair(s[0]), ret_pair(r)) {
            assert(p >= 1);
            let t = s.drop_first();
            assert(forall|k: int| 0 <= k < p - 1 ==> ret_pair(t[k]) == ret_pair(s[k + 1]));
            lemma_ret_insert_pos_char(t, r, p - 1);
        } else {
            assert(p == 0);
        }
    }
}

/// The display list is descending, is exactly `min(cap, store size)` long,
/// and each of its keys is one of the store's keys.
pub proof fn lemma_display_pairs_ensures(s: Seq<RecordView>, f: LeaderboardField)
    ensures
        display_pairs(s, f).len() == vstd::math::min(MAX_RECORDS_PER_LIST as int, s.len() as int),
        forall|i: int, j: int|
            0 <= i <= j < display_pairs(s, f).len() ==> pair_before(
                #[trigger] display_pairs(s, f)[i],
                #[trigger] display_pairs(s, f)[j],
            ),
        sorted_desc(display_values(s, f)),
        forall|i: int|
            0 <= i < display_pairs(s, f).len() ==> pairs_of(s, f).contains(
                #[trigger] display_pairs(s, f)[i],
            ),
{
    let ps = pairs_of(s, f);
    let sorted = ps.sort_by(pair_leq());
    lemma_pair_total();
    ps.lemma_sort_by_ensures(pair_leq());
    assert(ps.to_multiset().len() == ps.len());
    assert(sorted.to_multiset().len() == sorted.len());
    assert(sorted.len() == s.len());
    let d = display_pairs(s, f);
    assert forall|i: int, j: int| 0 <= i <= j < d.len() implies pair_before(
        #[trigger] d[i],
        #[trigger] d[j],
    ) by {
        assert(d[i] == sorted[i] && d[j] == sorted[j]);
        if i < j {
            assert((pair_leq())(sorted[i], sorted[j]));
        }
    }
    assert forall|i: int, j: int| 0 <= i <= j < display_values(s, f).len() implies display_values(
        s,
        f,
    )[i] >= display_values(s, f)[j] by {
        assert(pair_before(d[i], d[j]));
        assert(display_values(s, f)[i] == d[i].0 && display_values(s, f)[j] == d[j].0);
    }
    assert forall|i: int| 0 <= i < d.len() implies ps.contains(#[trigger] d[i]) by {
        assert(sorted.contains(sorted[i]));
        assert(sorted.to_multiset().count(sorted[i]) > 0);
        assert(ps.to_multiset().count(sorted[i]) > 0);
        assert(d[i] == sorted[i]);
    }
}

/// A store with fewer records than the display cap admits any value as
/// new, in every field.
pub proof fn lemma_short_store_is_new(s: Seq<RecordView>, f: LeaderboardField, v: u32)
    requires
        s.len() < MAX_RECORDS_PER_LIST,
    ensures
        is_new_value(display_values(s, f), v),
{
    lemma_display_pairs_ensures(s, f);
    lemma_new_when_short(display_values(s, f), v);
}

/// The in-memory leaderboard: a collection of records in retention order,
/// of bounded size, queried through ranked per-field views.
#[derive(Debug)]
pub struct Leaderboard {
    records: Vec<LeaderboardRecord>,
}

impl View for Leaderboard {
    type V = Seq<RecordView>;

    closed spec fn view(&self) -> Seq<RecordView> {
        views(self.records@)
    }
}

impl Leaderboard {
    /// Well-formedness: what every constructor establishes and `store`
    /// preserves.
    pub open spec fn wf(&self) -> bool {
        store_ok(self@)
    }

    /// A store with no records yet.
    pub fn new() -> (l: Leaderboard)
        ensures
            l@ == Seq::<RecordView>::empty(),
            l.wf(),
    {
        let l = Leaderboard { records: Vec::new() };
        proof {
            assert(l@ =~= Seq::<RecordView>::empty());
        }
        l
    }

    /// Wraps an already retention-ordered collection, as the snapshot
    /// decoder reproduces one.
    pub(crate) fn from_records(records: Vec<LeaderboardRecord>) -> (l: Leaderboard)
        requires
            store_ok(views(records@)),
        ensures
            l@ == views(records@),
            l.wf(),
    {
        Leaderboard { records }
    }

    /// Read-only access to the collection, in retention order.
    pub fn records(&self) -> (r: &Vec<LeaderboardRecord>)
        ensures
            views(r@) == self@,
    {
        &self.records
    }

    /// Accepts one finished run: places the record at its retention
    /// position and, when the bound is exceeded, evicts the single worst
    /// record from the tail — the newcomer itself only if it truly ranks
    /// last. The embedding layer is responsible for the outbound side
    /// effects around a store: requesting run artifacts for the record's
    /// uid beforehand, and committing the collection durably afterwards.
    pub fn store(&mut self, record: LeaderboardRecord)
        requires
            old(self).wf(),
        ensures
            final(self).wf(),
            final(self)@ == stored(old(self)@, record@),
            final(self)@.len() == vstd::math::min(
                old(self)@.len() as int + 1,
                MAX_STORED_RECORDS as int,
            ),
            old(self)@.len() < MAX_STORED_RECORDS ==> final(self)@.to_multiset()
                == old(self)@.to_multiset().insert(record@),
    {
        let ghost s0 = self@;
        let ghost rv = record@;
        let n = self.records.len();
        let mut p: usize = 0;
        while p < n && (self.records[p].score > record.score || (self.records[p].score
            == record.score && self.records[p].time >= record.time))
            invariant
                0 <= p <= n,
                n == self.records@.len(),
                s0 == views(self.records@),
                rv == record@,
                forall|k: int| 0 <= k < p ==> pair_before(#[trigger] ret_pair(s0[k]), ret_pair(rv)),
            decreases n - p,
        {
            proof {
                assert(s0[p as int] == self.records@[p as int]@);
                assert(pair_before(ret_pair(s0[p as int]), ret_pair(rv)));
            }
            p = p + 1;
        }
        proof {
            if p < n {
                assert(s0[p as int] == self.records@[p as int]@);
                assert(!pair_before(ret_pair(s0[p as int]), ret_pair(rv)));
            }
            lemma_ret_insert_pos_char(s0, rv, p as int);
        }
        self.records.insert(p, record);
        let ghost ins = s0.insert(p as int, rv);
        proof {
            assert(views(self.records@) =~= ins);
            // the inserted sequence is still in retention order
            assert forall|i: int, j: int| 0 <= i <= j < ins.len() implies pair_before(
                #[trigger] ret_pair(ins[i]),
                #[trigger] ret_pair(ins[j]),
            ) by {
                if j == p {
                    if i < p {
                        assert(ins[i] == s0[i]);
                        assert(pair_before(ret_pair(s0[i]), ret_pair(rv)));
                    }
                } else if i == p {
                    if j > p {
                        assert(ins[j] == s0[j - 1]);
                        assert(!pair_before(ret_pair(s0[p as int]), ret_pair(rv)));
                        assert(pair_before(ret_pair(s0[p as int]), ret_pair(s0[j - 1])));
                        assert(pair_before(ret_pair(rv), ret_pair(s0[j - 1])));
                    }
                } else if i < p && j > p {
                    assert(ins[i] == s0[i] && ins[j] == s0[j - 1]);
                    assert(pair_before(ret_pair(s0[i]), ret_pair(s0[j - 1])));
                } else if i > p && j > p {
                    assert(ins[i] == s0[i - 1] && ins[j] == s0[j - 1]);
                    assert(pair_before(ret_pair(s0[i - 1]), ret_pair(s0[j - 1])));
                } else {
                    assert(i < p && j < p);
                    assert(ins[i] == s0[i] && ins[j] == s0[j]);
                }
            }
            assert(ins.to_multiset() =~= s0.to_multiset().insert(rv)) by {
                assert(ins =~= s0.take(p as int).push(rv) + s0.skip(p as int));
                vstd::seq_lib::lemma_multiset_commutative(
                    s0.take(p as int).push(rv),
                    s0.skip(p as int),
                );
                vstd::seq_lib::lemma_multiset_commutative(s0.take(p as int), s0.skip(p as int));
                assert(s0.take(p as int) + s0.skip(p as int) =~= s0);
            }
        }
        if self.records.len() > MAX_STORED_RECORDS {
            self.records.pop();
            proof {
                assert(views(self.records@) =~= ins.drop_last());
            }
        }
        proof {
            assert(self@ == stored(s0, rv));
        }
    }

    /// The ranked view for an already-parsed field: a fresh list of
    /// records whose keys are exactly the display list of `f`, in
    /// descending order; the store itself is left untouched.
    pub fn fetch_records_by(&self, f: LeaderboardField) -> (v: Vec<LeaderboardRecord>)
        ensures
            v@.len() == vstd::math::min(MAX_RECORDS_PER_LIST as int, self@.len() as int),
            exec_pairs(v@, f) == display_pairs(self@, f),
            exec_values(v@, f) == display_values(self@, f),
            forall|i: int| 0 <= i < v@.len() ==> self@.contains(#[trigger] v@[i]@),
    {
        let ghost orig = self.records@;
        let n = self.records.len();
        let mut rest: Vec<LeaderboardRecord> = Vec::new();
        let mut i: usize = 0;
        while i < n
            invariant
                0 <= i <= n,
                n == self.records@.len(),
                orig == self.records@,
                rest@ =~= self.records@.take(i as int),
            decreases n - i,
        {
            rest.push(self.records[i].clone());
            proof {
                assert(rest@ =~= self.records@.take(i as int + 1));
            }
            i = i + 1;
        }
        proof {
            assert(rest@ =~= orig);
        }
        let mut out: Vec<LeaderboardRecord> = Vec::new();
        while rest.len() > 0
            invariant
                exec_pairs(out@, f).to_multiset().add(exec_pairs(rest@, f).to_multiset())
                    == exec_pairs(orig, f).to_multiset(),
                out@.len() + rest@.len() == orig.len(),
                forall|a: int, b: int|
                    0 <= a <= b < out@.len() ==> pair_before(
                        #[trigger] field_pair(out@[a]@, f),
                        #[trigger] field_pair(out@[b]@, f),
                    ),
                forall|a: int, b: int|
                    0 <= a < out@.len() && 0 <= b < rest@.len() ==> pair_before(
                        #[trigger] field_pair(out@[a]@, f),
                        #[trigger] field_pair(rest@[b]@, f),
                    ),
                forall|a: int| 0 <= a < out@.len() ==> orig.contains(#[trigger] out@[a]),
                forall|b: int| 0 <= b < rest@.len() ==> orig.contains(#[trigger] rest@[b]),
            decreases rest@.len(),
        {
            let ghost out0 = out@;
            let ghost rest0 = rest@;
            let mut m: usize = 0;
            let mut k: usize = 1;
            while k < rest.len()
                invariant
                    0 <= m < k <= rest@.len(),
                    rest0 == rest@,
                    forall|j: int|
                        0 <= j < k ==> pair_before(
                            field_pair(rest@[m as int]@, f),
                            #[trigger] field_pair(rest@[j]@, f),
                        ),
                decreases rest@.len() - k,
            {
                if !pair_first_at_least(&rest[m], &rest[k], f) {
                    proof {
                        assert forall|j: int| 0 <= j < k + 1 implies pair_before(
                            field_pair(rest@[k as int]@, f),
                            #[trigger] field_pair(rest@[j]@, f),
                        ) by {
                            assert(pair_before(
                                field_pair(rest@[k as int]@, f),
                                field_pair(rest@[m as int]@, f),
                            ));
                        }
                    }
                    m = k;
                }
                k = k + 1;
            }
            let x = rest.remove(m);
            let ghost px = field_pair(x@, f);
            out.push(x);
            proof {
                // the new key sequences, related to the old ones
                assert(out@ =~= out0.push(out@[out@.len() - 1]));
                assert(exec_pairs(out@, f) =~= exec_pairs(out0, f).push(px));
                assert(rest@ =~= rest0.remove(m as int));
                assert(exec_pairs(rest@, f) =~= exec_pairs(rest0, f).remove(m as int));
                assert(exec_pairs(rest0, f)[m as int] == px);
                assert(exec_pairs(out@, f).to_multiset() =~= exec_pairs(out0, f)
                    .to_multiset()
                    .insert(px));
                assert(exec_pairs(rest@, f).to_multiset() =~= exec_pairs(rest0, f)
                    .to_multiset()
                    .remove(px));
                assert(exec_pairs(rest0, f).contains(px));
                assert(exec_pairs(rest0, f).to_multiset().count(px) > 0);
                assert(exec_pairs(out@, f).to_multiset().add(exec_pairs(rest@, f).to_multiset())
                    =~= exec_pairs(orig, f).to_multiset());
                // the removed record was the best of the rest
                assert(forall|b: int|
                    0 <= b < rest@.len() ==> rest@[b] == rest0[if b < m { b } else { b + 1 }]);
                assert forall|a: int, b: int|
                    0 <= a < out@.len() && 0 <= b < rest@.len() implies pair_before(
                    #[trigger] field_pair(out@[a]@, f),
                    #[trigger] field_pair(rest@[b]@, f),
                ) by {
                    let b0: int = if b < m { b } else { b + 1 };
                    assert(rest@[b] == rest0[b0]);
                    if a < out0.len() {
                        assert(pair_before(field_pair(out0[a]@, f), field_pair(rest0[b0]@, f)));
                    } else {
                        assert(out@[a] == rest0[m as int]);
                        assert(pair_before(
                            field_pair(rest0[m as int]@, f),
                            field_pair(rest0[b0]@, f),
                        ));
                    }
                }
                assert forall|a: int, b: int| 0 <= a <= b < out@.len() implies pair_before(
                    #[trigger] field_pair(out@[a]@, f),
                    #[trigger] field_pair(out@[b]@, f),
                ) by {
                    if b == out@.len() - 1 {
                        if a < b {
                            assert(pair_before(
                                field_pair(out0[a]@, f),
                                field_pair(rest0[m as int]@, f),
                            ));
                        }
                    } else {
                        assert(pair_before(field_pair(out0[a]@, f), field_pair(out0[b]@, f)));
                    }
                }
            }
        }
        proof {
            assert(exec_pairs(rest@, f) =~= Seq::<(u32, u32)>::empty());
            assert(exec_pairs(rest@, f).to_multiset() =~= Multiset::<(u32, u32)>::empty());
            assert(exec_pairs(out@, f).to_multiset() =~= exec_pairs(orig, f).to_multiset());
            lemma_pair_total();
            let ps = pairs_of(views(orig), f);
            assert(exec_pairs(orig, f) =~= ps);
            ps.lemma_sort_by_ensures(pair_leq());
            let eo = exec_pairs(out@, f);
            assert forall|i: int, j: int| 0 <= i < j < eo.len() implies (pair_leq())(
                eo[i],
                eo[j],
            ) by {
                assert(pair_before(field_pair(out@[i]@, f), field_pair(out@[j]@, f)));
            }
            assert(sorted_by(eo, pair_leq()));
            lemma_sorted_unique(eo, ps.sort_by(pair_leq()), pair_leq());
            assert(eo =~= ps.sort_by(pair_leq()));
            assert(eo.to_multiset().len() == eo.len());
            assert(exec_pairs(orig, f).to_multiset().len() == exec_pairs(orig, f).len());
            assert(out@.len() == orig.len());
        }
        let ghost full = out@;
        if out.len() > MAX_RECORDS_PER_LIST {
            out.truncate(MAX_RECORDS_PER_LIST);
            proof {
                assert(out@ =~= full.take(MAX_RECORDS_PER_LIST as int));
            }
        }
        proof {
            let d = display_pairs(self@, f);
            assert(self@ == views(orig));
            assert(exec_pairs(out@, f) =~= d);
            assert(exec_values(out@, f) =~= display_values(self@, f)) by {
                assert forall|i: int| 0 <= i < out@.len() implies exec_values(out@, f)[i]
                    == display_values(self@, f)[i] by {
                    assert(exec_values(out@, f)[i] == field_value(out@[i]@, f));
                    assert(d[i] == field_pair(out@[i]@, f));
                    assert(display_values(self@, f)[i] == d[i].0);
                }
            }
            assert forall|i: int| 0 <= i < out@.len() implies self@.contains(
                #[trigger] out@[i]@,
            ) by {
                let r = out@[i];
                assert(full[i] == r);
                assert(orig.contains(r));
                let j = choose|j: int| 0 <= j < orig.len() && orig[j] == r;
                assert(views(orig)[j] == r@);
            }
        }
        out
    }

    /// The banded rank `value` would take in the display list of the
    /// already-parsed field `f`.
    pub fn rank_by(&self, f: LeaderboardField, value: u32) -> (k: u8)
        ensures
            k as int == rank_of(display_values(self@, f), value),
    {
        let list = self.fetch_records_by(f);
        let ghost vals = display_values(self@, f);
        if list.len() == 0 {
            return 1;
        }
        let c = count_greater(&list, f, value);
        if c == list.len() {
            return 0;
        }
        proof {
            lemma_count_gt_le_len(vals, value);
            assert(vals[c as int] == field_value(list@[c as int]@, f));
        }
        let t = list[c].fetch_by(f);
        let b = count_greater(&list, f, t);
        proof {
            lemma_count_gt_le_len(vals, t);
        }
        (b + 1) as u8
    }

    /// The banded rank `value` would take among the top entries for the
    /// field named by `field`: `1` for an empty list, `0` when `value` is
    /// below every displayed entry, and otherwise the rank number of the
    /// band `value` lands in; `UnknownField` for any other field name.
    pub fn rank(&self, field: &str, value: u32) -> (r: Result<u8, LeaderboardError>)
        ensures
            match r {
                Ok(k) => known_field_name(field@) && k as int == rank_of(
                    display_values(self@, field_of_name(field@)),
                    value,
                ),
                Err(e) => !known_field_name(field@) && e == LeaderboardError::UnknownField,
            },
    {
        match parse_field(field) {
            Some(f) => Ok(self.rank_by(f, value)),
            None => Err(LeaderboardError::UnknownField),
        }
    }

    /// The target triple for `value` against the display list of the
    /// already-parsed field `f`.
    pub fn target_by(&self, f: LeaderboardField, value: u32) -> (t: (u8, u32, u32))
        ensures
            t.0 as int == target_of(display_values(self@, f), value).0,
            t.1 == target_of(display_values(self@, f), value).1,
            t.2 == target_of(display_values(self@, f), value).2,
    {
        let list = self.fetch_records_by(f);
        let ghost vals = display_values(self@, f);
        if list.len() == 0 {
            return (0, 0, 0);
        }
        let c = count_greater(&list, f, value);
        if c == 0 {
            return (0, 0, 0);
        }
        proof {
            lemma_count_gt_le_len(vals, value);
        }
        if c < list.len() {
            proof {
                assert(vals[c as int - 1] == field_value(list@[c as int - 1]@, f));
                assert(vals[c as int] == field_value(list@[c as int]@, f));
            }
            let above = list[c - 1].fetch_by(f);
            let b = count_greater(&list, f, above);
            proof {
                lemma_count_gt_le_len(vals, above);
            }
            let matched = list[c].fetch_by(f);
            ((b + 1) as u8, above, matched)
        } else {
            proof {
                assert(vals[vals.len() - 1] == field_value(list@[list@.len() - 1]@, f));
            }
            let last = list[list.len() - 1].fetch_by(f);
            let b = count_greater(&list, f, last);
            proof {
                lemma_count_gt_le_len(vals, last);
            }
            ((b + 1) as u8, last, 0)
        }
    }

    /// How far `value` is from displacing the next-better band for the
    /// field named by `field`: `(0, 0, 0)` when there is nothing to chase,
    /// otherwise `(rank to reach, value to beat, threshold reached)`, with
    /// a trailing `0` when `value` is below the whole displayed list;
    /// `UnknownField` for any other field name.
    pub fn target(&self, field: &str, value: u32) -> (r: Result<(u8, u32, u32), LeaderboardError>)
        ensures
            match r {
                Ok(t) => {
                    &&& known_field_name(field@)
                    &&& t.0 as int == target_of(
                        display_values(self@, field_of_name(field@)),
                        value,
                    ).0
                    &&& t.1 == target_of(display_values(self@, field_of_name(field@)), value).1
                    &&& t.2 == target_of(display_values(self@, field_of_name(field@)), value).2
                },
                Err(e) => !known_field_name(field@) && e == LeaderboardError::UnknownField,
            },
    {
        match parse_field(field) {
            Some(f) => Ok(self.target_by(f, value)),
            None => Err(LeaderboardError::UnknownField),
        }
    }

    /// Whether `value` would enter the display list of the already-parsed
    /// field `f`.
    pub fn is_new_by(&self, f: LeaderboardField, value: u32) -> (b: bool)
        ensures
            b == is_new_value(display_values(self@, f), value),
    {
        let list = self.fetch_records_by(f);
        let ghost vals = display_values(self@, f);
        if list.len() < MAX_RECORDS_PER_LIST {
            true
        } else {
            proof {
                assert(vals[vals.len() - 1] == field_value(list@[list@.len() - 1]@, f));
            }
            let last = list[list.len() - 1].fetch_by(f);
            last < value
        }
    }

    /// Whether `value` would enter the display list for the field named by
    /// `field`: true when the list still has a free slot, or when `value`
    /// strictly beats the last displayed entry; `UnknownField` for any
    /// other field name.
    pub fn is_new_in_list(&self, field: &str, value: u32) -> (r: Result<bool, LeaderboardError>)
        ensures
            match r {
                Ok(b) => known_field_name(field@) && b == is_new_value(
                    display_values(self@, field_of_name(field@)),
                    value,
                ),
                Err(e) => !known_field_name(field@) && e == LeaderboardError::UnknownField,
            },
    {
        match parse_field(field) {
            Some(f) => Ok(self.is_new_by(f, value)),
            None => Err(LeaderboardError::UnknownField),
        }
    }

    /// Whether the record would be new in any ranking dimension, to decide
    /// whether a "new record" flourish is shown. Records carry data only
    /// for `score` and `time`; the reserved display categories never
    /// qualify a record here, since there is nothing of theirs to compare.
    pub fn is_new_record(&self, record: &LeaderboardRecord) -> (b: bool)
        ensures
            b == (is_new_value(display_values(self@, LeaderboardField::Score), record@.score)
                || is_new_value(display_values(self@, LeaderboardField::Time), record@.time)),
    {
        if self.is_new_by(LeaderboardField::Score, record.score) {
            return true;
        }
        self.is_new_by(LeaderboardField::Time, record.time)
    }

    /// The ranked view for the field named by `field`, or `UnknownField`
    /// for any other name.
    pub fn fetch_records(&self, field: &str) -> (r: Result<
        Vec<LeaderboardRecord>,
        LeaderboardError,
    >)
        ensures
            match r {
                Ok(v) => {
                    &&& known_field_name(field@)
                    &&& v@.len() == vstd::math::min(
                        MAX_RECORDS_PER_LIST as int,
                        self@.len() as int,
                    )
                    &&& exec_pairs(v@, field_of_name(field@)) == display_pairs(
                        self@,
                        field_of_name(field@),
                    )
                    &&& exec_values(v@, field_of_name(field@)) == display_values(
                        self@,
                        field_of_name(field@),
                    )
                    &&& forall|i: int| 0 <= i < v@.len() ==> self@.contains(#[trigger] v@[i]@)
                },
                Err(e) => !known_field_name(field@) && e == LeaderboardError::UnknownField,
            },
    {
        match parse_field(field) {
            Some(f) => Ok(self.fetch_records_by(f)),
            None => Err(LeaderboardError::UnknownField),
        }
    }
}

/// How many records of `v` project onto a value strictly above `x` for
/// field `f`.
fn count_greater(v: &Vec<LeaderboardRecord>, f: LeaderboardField, x: u32) -> (c: usize)
    ensures
        c as int == count_gt(exec_values(v@, f), x),
        c <= v@.len(),
{
    let n = v.len();
    let mut c: usize = 0;
    let mut i: usize = 0;
    while i < n
        invariant
            0 <= i <= n,
            n == v@.len(),
            c <= i,
            c as int == count_gt(exec_values(v@, f).take(i as int), x),
        decreases n - i,
    {
        proof {
            lemma_count_gt_take_step(exec_values(v@, f), x, i as int);
            assert(exec_values(v@, f)[i as int] == field_value(v@[i as int]@, f));
        }
        if v[i].fetch_by(f) > x {
            c = c + 1;
        }
        i = i + 1;
    }
    proof {
        assert(exec_values(v@, f).take(n as int) =~= exec_values(v@, f));
    }
    c
}

/// Whether `a`'s sort key for `f` ranks at least as high as `b`'s.
fn pair_first_at_least(a: &LeaderboardRecord, b: &LeaderboardRecord, f: LeaderboardField) -> (r:
    bool)
    ensures
        r == pair_before(field_pair(a@, f), field_pair(b@, f)),
{
    let (a0, a1) = match f {
        LeaderboardField::Score => (a.score, a.time),
        LeaderboardField::Time => (a.time, a.score),
    };
    let (b0, b1) = match f {
        LeaderboardField::Score => (b.score, b.time),
        LeaderboardField::Time => (b.time, b.score),
    };
    a0 > b0 || (a0 == b0 && a1 >= b1)
}

} // verus!
