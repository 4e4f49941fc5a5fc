//! The persistence gateway's compute side: a binary snapshot format for
//! the whole collection, and the load policy that falls back to an empty
//! store on any malformed input.
//!
//! The embedding layer only moves bytes: it reads the snapshot file into
//! memory and hands the bytes here, and writes the bytes produced here to a
//! temporary file it then renames over the snapshot, so a crash mid-write
//! never clobbers the last committed snapshot.
//!
//! Layout, all integers little-endian: a `u64` record count, then each
//! record as its five fields in declaration order; a string is a `u64`
//! character count followed by each character as a `u32` scalar value.

use crate::leaderboard::{ret_pair, pair_before, retention_sorted, store_ok, views, Leaderboard};
use crate::record::{LeaderboardRecord, RecordView};
use crate::MAX_STORED_RECORDS;
use vstd::bytes::{
    lemma_auto_spec_u32_to_from_le_bytes, lemma_auto_spec_u64_to_from_le_bytes,
    spec_u32_from_le_bytes, spec_u32_to_le_bytes, spec_u64_from_le_bytes, spec_u64_to_le_bytes,
    u32_from_le_bytes, u32_to_le_bytes, u64_from_le_bytes, u64_to_le_bytes,
};
use vstd::prelude::*;
use vstd::slice::slice_subrange;
use vstd::utf8::{char_is_scalar, char_u32_cast, is_scalar};

verus! {

// ---------------------------------------------------------------- trusted

/// Relies on `char::from_u32`: it returns the character of the given
/// scalar value, and `None` exactly for the values that are no Unicode
/// scalar (the surrogate range, and anything above `0x10FFFF`).
pub assume_specification[ char::from_u32 ](v: u32) -> (r: Option<char>)
    ensures
        r is Some <==> is_scalar(v),
        r matches Some(c) ==> c as u32 == v,
;

/// Relies on `String::push`: it appends exactly the given character.
pub assume_specification[ String::push ](s: &mut String, c: char)
    ensures
        final(s)@ == old(s)@.push(c),
;

// --------------------------------------------------------- encoding spec

/// The four bytes a character is stored as.
pub open spec fn char_bytes(c: char) -> Seq<u8> {
    spec_u32_to_le_bytes(c as u32)
}

/// The bytes of a character sequence, four per character.
pub open spec fn chars_bytes(s: Seq<char>) -> Seq<u8>
    decreases s.len(),
{
    if s.len() == 0 {
        Seq::empty()
    } else {
        char_bytes(s[0]) + chars_bytes(s.drop_first())
    }
}

/// The bytes of a string: its character count, then its characters.
pub open spec fn string_bytes(s: Seq<char>) -> Seq<u8> {
    spec_u64_to_le_bytes(s.len() as u64) + chars_bytes(s)
}

/// The bytes of one record: its five fields in declaration order.
pub open spec fn record_bytes(r: RecordView) -> Seq<u8> {
    string_bytes(r.player_name) + spec_u32_to_le_bytes(r.time) + spec_u32_to_le_bytes(r.score)
        + string_bytes(r.started_at) + string_bytes(r.ended_at)
}

/// The bytes of a record sequence, in order.
pub open spec fn records_bytes(rs: Seq<RecordView>) -> Seq<u8>
    decreases rs.len(),
{
    if rs.len() == 0 {
        Seq::empty()
    } else {
        record_bytes(rs[0]) + records_bytes(rs.drop_first())
    }
}

/// The snapshot of a whole collection: its record count, then its records.
pub open spec fn snapshot_bytes(rs: Seq<RecordView>) -> Seq<u8> {
    spec_u64_to_le_bytes(rs.len() as u64) + records_bytes(rs)
}

/// Whether a record's strings fit the length prefixes of the format.
pub open spec fn bounded_record(r: RecordView) -> bool {
    r.player_name.len() <= u64::MAX && r.started_at.len() <= u64::MAX && r.ended_at.len()
        <= u64::MAX
}

/// Whether a collection fits the length prefixes of the format. Every
/// collection held in memory does.
pub open spec fn bounded_records(rs: Seq<RecordView>) -> bool {
    rs.len() <= u64::MAX && forall|i: int| 0 <= i < rs.len() ==> bounded_record(#[trigger] rs[i])
}

// ---------------------------------------------------------- parsing spec

/// Reads a `u64`, returning it and the remaining bytes.
pub open spec fn parse_u64(b: Seq<u8>) -> Option<(u64, Seq<u8>)> {
    if b.len() >= 8 {
        Some((spec_u64_from_le_bytes(b.take(8)), b.skip(8)))
    } else {
        None
    }
}

/// Reads a `u32`, returning it and the remaining bytes.
pub open spec fn parse_u32(b: Seq<u8>) -> Option<(u32, Seq<u8>)> {
    if b.len() >= 4 {
        Some((spec_u32_from_le_bytes(b.take(4)), b.skip(4)))
    } else {
        None
    }
}

/// Reads one character: a `u32` that must be a Unicode scalar value.
pub open spec fn parse_char(b: Seq<u8>) -> Option<(char, Seq<u8>)> {
    match parse_u32(b) {
        Some((v, rest)) => if is_scalar(v) {
            Some((v as char, rest))
        } else {
            None
        },
        None => None,
    }
}

/// Reads exactly `n` characters.
pub open spec fn parse_chars(b: Seq<u8>, n: nat) -> Option<(Seq<char>, Seq<u8>)>
    decreases n,
{
    if n == 0 {
        Some((Seq::empty(), b))
    } else {
        match parse_char(b) {
            Some((c, rest)) => match parse_chars(rest, (n - 1) as nat) {
                Some((s, rest2)) => Some((seq![c] + s, rest2)),
                None => None,
            },
            None => None,
        }
    }
}

/// Reads one length-prefixed string.
pub open spec fn parse_string(b: Seq<u8>) -> Option<(Seq<char>, Seq<u8>)> {
    match parse_u64(b) {
        Some((n, rest)) => parse_chars(rest, n as nat),
        None => None,
    }
}

/// Reads one record.
pub open spec fn parse_record(b: Seq<u8>) -> Option<(RecordView, Seq<u8>)> {
    match parse_string(b) {
        Some((player_name, b1)) => match parse_u32(b1) {
            Some((time, b2)) => match parse_u32(b2) {
                Some((score, b3)) => match parse_string(b3) {
                    Some((started_at, b4)) => match parse_string(b4) {
                        Some((ended_at, b5)) => Some(
                            (RecordView { player_name, time, score, started_at, ended_at }, b5),
                        ),
                        None => None,
                    },
                    None => None,
                },
                None => None,
            },
            None => None,
        },
        None => None,
    }
}

/// Reads exactly `n` records.
pub open spec fn parse_records(b: Seq<u8>, n: nat) -> Option<(Seq<RecordView>, Seq<u8>)>
    decreases n,
{
    if n == 0 {
        Some((Seq::empty(), b))
    } else {
        match parse_record(b) {
            Some((r, rest)) => match parse_records(rest, (n - 1) as nat) {
                Some((rs, rest2)) => Some((seq![r] + rs, rest2)),
                None => None,
            },
            None => None,
        }
    }
}

/// Reads a whole snapshot: the count, that many records, nothing left.
pub open spec fn parse_snapshot(b: Seq<u8>) -> Option<Seq<RecordView>> {
    match parse_u64(b) {
        Some((n, rest)) => match parse_records(rest, n as nat) {
            Some((rs, rest2)) => if rest2.len() == 0 {
                Some(rs)
            } else {
                None
            },
            None => None,
        },
        None => None,
    }
}

// ------------------------------------------------------ round-trip proof

proof fn lemma_parse_u64_encode(x: u64, rest: Seq<u8>)
    ensures
        parse_u64(spec_u64_to_le_bytes(x) + rest) == Some((x, rest)),
{
    lemma_auto_spec_u64_to_from_le_bytes();
    let enc = spec_u64_to_le_bytes(x);
    assert((enc + rest).take(8) =~= enc);
    assert((enc + rest).skip(8) =~= rest);
}

proof fn lemma_parse_u32_encode(x: u32, rest: Seq<u8>)
    ensures
        parse_u32(spec_u32_to_le_bytes(x) + rest) == Some((x, rest)),
{
    lemma_auto_spec_u32_to_from_le_bytes();
    let enc = spec_u32_to_le_bytes(x);
    assert((enc + rest).take(4) =~= enc);
    assert((enc + rest).skip(4) =~= rest);
}

proof fn lemma_parse_char_encode(c: char, rest: Seq<u8>)
    ensures
        parse_char(char_bytes(c) + rest) == Some((c, rest)),
{
    lemma_parse_u32_encode(c as u32, rest);
    char_is_scalar(c);
    char_u32_cast(c, c as u32);
}

proof fn lemma_parse_chars_encode(s: Seq<char>, rest: Seq<u8>)
    ensures
        parse_chars(chars_bytes(s) + rest, s.len()) == Some((s, rest)),
    decreases s.len(),
{
    if s.len() == 0 {
        assert(chars_bytes(s) + rest =~= rest);
    } else {
        let tail = s.drop_first();
        assert(chars_bytes(s) + rest =~= char_bytes(s[0]) + (chars_bytes(tail) + rest));
        lemma_parse_char_encode(s[0], chars_bytes(tail) + rest);
        lemma_parse_chars_encode(tail, rest);
        assert(seq![s[0]] + tail =~= s);
    }
}

proof fn lemma_parse_string_encode(s: Seq<char>, rest: Seq<u8>)
    requires
        s.len() <= u64::MAX,
    ensures
        parse_string(string_bytes(s) + rest) == Some((s, rest)),
{
    assert(string_bytes(s) + rest =~= spec_u64_to_le_bytes(s.len() as u64) + (chars_bytes(s)
        + rest));
    lemma_parse_u64_encode(s.len() as u64, chars_bytes(s) + rest);
    lemma_parse_chars_encode(s, rest);
    assert((s.len() as u64) as nat == s.len());
}

proof fn lemma_parse_record_encode(r: RecordView, rest: Seq<u8>)
    requires
        bounded_record(r),
    ensures
        parse_record(record_bytes(r) + rest) == Some((r, rest)),
{
    let t_bytes = spec_u32_to_le_bytes(r.time);
    let s_bytes = spec_u32_to_le_bytes(r.score);
    let after_name = t_bytes + (s_bytes + (string_bytes(r.started_at) + (string_bytes(r.ended_at)
        + rest)));
    assert(record_bytes(r) + rest =~= string_bytes(r.player_name) + after_name);
    lemma_parse_string_encode(r.player_name, after_name);
    lemma_parse_u32_encode(r.time, s_bytes + (string_bytes(r.started_at) + (string_bytes(
        r.ended_at,
    ) + rest)));
    lemma_parse_u32_encode(r.score, string_bytes(r.started_at) + (string_bytes(r.ended_at)
        + rest));
    lemma_parse_string_encode(r.started_at, string_bytes(r.ended_at) + rest);
    lemma_parse_string_encode(r.ended_at, rest);
}

proof fn lemma_parse_records_encode(rs: Seq<RecordView>, rest: Seq<u8>)
    requires
        forall|i: int| 0 <= i < rs.len() ==> bounded_record(#[trigger] rs[i]),
    ensures
        parse_records(records_bytes(rs) + rest, rs.len()) == Some((rs, rest)),
    decreases rs.len(),
{
    if rs.len() == 0 {
        assert(records_bytes(rs) + rest =~= rest);
    } else {
        let tail = rs.drop_first();
        assert(records_bytes(rs) + rest =~= record_bytes(rs[0]) + (records_bytes(tail) + rest));
        lemma_parse_record_encode(rs[0], records_bytes(tail) + rest);
        lemma_parse_records_encode(tail, rest);
        assert(seq![rs[0]] + tail =~= rs);
    }
}

/// Round trip: a snapshot of any collection that fits the format parses
/// back to exactly that collection — so persisting a store and loading it
/// reproduces the same records, and with them the same ranked views for
/// every field.
pub proof fn lemma_snapshot_round_trip(rs: Seq<RecordView>)
    requires
        bounded_records(rs),
    ensures
        parse_snapshot(snapshot_bytes(rs)) == Some(rs),
{
    assert(snapshot_bytes(rs) =~= spec_u64_to_le_bytes(rs.len() as u64) + (records_bytes(rs)
        + Seq::<u8>::empty()));
    lemma_parse_u64_encode(rs.len() as u64, records_bytes(rs) + Seq::<u8>::empty());
    lemma_parse_records_encode(rs, Seq::<u8>::empty());
    assert(records_bytes(rs) + Seq::<u8>::empty() =~= records_bytes(rs));
    assert((rs.len() as u64) as nat == rs.len());
}

proof fn lemma_chars_bytes_push(s: Seq<char>, c: char)
    ensures
        chars_bytes(s.push(c)) == chars_bytes(s) + char_bytes(c),
    decreases s.len(),
{
    if s.len() == 0 {
        assert(s.push(c)[0] == c);
        assert(s.push(c).drop_first() =~= Seq::<char>::empty());
        assert(chars_bytes(s.push(c)) == char_bytes(c) + chars_bytes(Seq::<char>::empty()));
        assert(chars_bytes(Seq::<char>::empty()) == Seq::<u8>::empty());
        assert(char_bytes(c) + Seq::<u8>::empty() =~= char_bytes(c));
        assert(chars_bytes(s) + char_bytes(c) =~= char_bytes(c));
    } else {
        assert(s.push(c)[0] == s[0]);
        assert(s.push(c).drop_first() =~= s.drop_first().push(c));
        lemma_chars_bytes_push(s.drop_first(), c);
        assert(chars_bytes(s.push(c)) == char_bytes(s[0]) + (chars_bytes(s.drop_first())
            + char_bytes(c)));
        assert(char_bytes(s[0]) + (chars_bytes(s.drop_first()) + char_bytes(c)) =~= (char_bytes(
            s[0],
        ) + chars_bytes(s.drop_first())) + char_bytes(c));
    }
}

proof fn lemma_records_bytes_push(rs: Seq<RecordView>, r: RecordView)
    ensures
        records_bytes(rs.push(r)) == records_bytes(rs) + record_bytes(r),
    decreases rs.len(),
{
    if rs.len() == 0 {
        assert(rs.push(r)[0] == r);
        assert(rs.push(r).drop_first() =~= Seq::<RecordView>::empty());
        assert(records_bytes(rs.push(r)) == record_bytes(r) + records_bytes(
            Seq::<RecordView>::empty(),
        ));
        assert(records_bytes(Seq::<RecordView>::empty()) == Seq::<u8>::empty());
        assert(record_bytes(r) + Seq::<u8>::empty() =~= record_bytes(r));
        assert(records_bytes(rs) + record_bytes(r) =~= record_bytes(r));
    } else {
        assert(rs.push(r)[0] == rs[0]);
        assert(rs.push(r).drop_first() =~= rs.drop_first().push(r));
        lemma_records_bytes_push(rs.drop_first(), r);
        assert(records_bytes(rs.push(r)) == record_bytes(rs[0]) + (records_bytes(rs.drop_first())
            + record_bytes(r)));
        assert(record_bytes(rs[0]) + (records_bytes(rs.drop_first()) + record_bytes(r))
            =~= (record_bytes(rs[0]) + records_bytes(rs.drop_first())) + record_bytes(r));
    }
}

// ------------------------------------------------------------- encoding

fn push_u32(out: &mut Vec<u8>, x: u32)
    ensures
        final(out)@ == old(out)@ + spec_u32_to_le_bytes(x),
{
    let mut b = u32_to_le_bytes(x);
    out.append(&mut b);
}

fn push_u64(out: &mut Vec<u8>, x: u64)
    ensures
        final(out)@ == old(out)@ + spec_u64_to_le_bytes(x),
{
    let mut b = u64_to_le_bytes(x);
    out.append(&mut b);
}

fn push_string(out: &mut Vec<u8>, s: &str)
    ensures
        final(out)@ == old(out)@ + string_bytes(s@),
        s@.len() <= u64::MAX,
{
    let len = s.unicode_len();
    push_u64(out, len as u64);
    let ghost base = out@;
    let mut i: usize = 0;
    while i < len
        invariant
            0 <= i <= len,
            len == s@.len(),
            out@ == base + chars_bytes(s@.take(i as int)),
        decreases len - i,
    {
        let c = s.get_char(i);
        push_u32(out, c as u32);
        proof {
            lemma_chars_bytes_push(s@.take(i as int), s@[i as int]);
            assert(s@.take(i as int + 1) =~= s@.take(i as int).push(s@[i as int]));
            assert(base + chars_bytes(s@.take(i as int)) + char_bytes(s@[i as int]) =~= base
                + (chars_bytes(s@.take(i as int)) + char_bytes(s@[i as int])));
        }
        i = i + 1;
    }
    proof {
        assert(s@.take(len as int) =~= s@);
        assert(base + chars_bytes(s@) =~= old(out)@ + string_bytes(s@));
    }
}

fn push_record(out: &mut Vec<u8>, r: &LeaderboardRecord)
    ensures
        final(out)@ == old(out)@ + record_bytes(r@),
        bounded_record(r@),
{
    let ghost base = out@;
    push_string(out, r.player_name.as_str());
    push_u32(out, r.time);
    push_u32(out, r.score);
    push_string(out, r.started_at.as_str());
    push_string(out, r.ended_at.as_str());
    proof {
        assert(out@ =~= base + record_bytes(r@));
    }
}

/// Encodes the whole collection as one snapshot.
pub fn to_bytes(l: &Leaderboard) -> (out: Vec<u8>)
    ensures
        out@ == snapshot_bytes(l@),
        bounded_records(l@),
{
    let recs = l.records();
    let n = recs.len();
    let mut out: Vec<u8> = Vec::new();
    push_u64(&mut out, n as u64);
    let ghost base = out@;
    let mut i: usize = 0;
    while i < n
        invariant
            0 <= i <= n,
            n == recs@.len(),
            l@ == views(recs@),
            base == Seq::<u8>::empty() + spec_u64_to_le_bytes(n as u64),
            out@ == base + records_bytes(l@.take(i as int)),
            forall|k: int| 0 <= k < i ==> bounded_record(#[trigger] l@[k]),
        decreases n - i,
    {
        push_record(&mut out, &recs[i]);
        proof {
            lemma_records_bytes_push(l@.take(i as int), l@[i as int]);
            assert(recs@[i as int]@ == l@[i as int]);
            assert(l@.take(i as int + 1) =~= l@.take(i as int).push(l@[i as int]));
            assert(base + records_bytes(l@.take(i as int)) + record_bytes(l@[i as int]) =~= base
                + (records_bytes(l@.take(i as int)) + record_bytes(l@[i as int])));
        }
        i = i + 1;
    }
    proof {
        assert(l@.take(n as int) =~= l@);
        assert(out@ =~= snapshot_bytes(l@));
    }
    out
}

// ------------------------------------------------------------- decoding

fn read_u64(bytes: &[u8], pos: usize) -> (r: Option<(u64, usize)>)
    requires
        pos <= bytes@.len(),
    ensures
        match r {
            Some(p) => {
                &&& parse_u64(bytes@.skip(pos as int)) == Some((p.0, bytes@.skip(p.1 as int)))
                &&& pos < p.1 <= bytes@.len()
            },
            None => parse_u64(bytes@.skip(pos as int)) is None,
        },
{
    if bytes.len() - pos >= 8 {
        let sub = slice_subrange(bytes, pos, pos + 8);
        let x = u64_from_le_bytes(sub);
        proof {
            assert(sub@ =~= bytes@.skip(pos as int).take(8));
            assert(bytes@.skip(pos as int).skip(8) =~= bytes@.skip(pos as int + 8));
        }
        Some((x, pos + 8))
    } else {
        None
    }
}

fn read_u32(bytes: &[u8], pos: usize) -> (r: Option<(u32, usize)>)
    requires
        pos <= bytes@.len(),
    ensures
        match r {
            Some(p) => {
                &&& parse_u32(bytes@.skip(pos as int)) == Some((p.0, bytes@.skip(p.1 as int)))
                &&& pos < p.1 <= bytes@.len()
            },
            None => parse_u32(bytes@.skip(pos as int)) is None,
        },
{
    if bytes.len() - pos >= 4 {
        let sub = slice_subrange(bytes, pos, pos + 4);
        let x = u32_from_le_bytes(sub);
        proof {
            assert(sub@ =~= bytes@.skip(pos as int).take(4));
            assert(bytes@.skip(pos as int).skip(4) =~= bytes@.skip(pos as int + 4));
        }
        Some((x, pos + 4))
    } else {
        None
    }
}

fn read_char(bytes: &[u8], pos: usize) -> (r: Option<(char, usize)>)
    requires
        pos <= bytes@.len(),
    ensures
        match r {
            Some(p) => {
                &&& parse_char(bytes@.skip(pos as int)) == Some((p.0, bytes@.skip(p.1 as int)))
                &&& pos < p.1 <= bytes@.len()
            },
            None => parse_char(bytes@.skip(pos as int)) is None,
        },
{
    match read_u32(bytes, pos) {
        Some((v, p2)) => match char::from_u32(v) {
            Some(c) => {
                proof {
                    char_u32_cast(c, v);
                }
                Some((c, p2))
            },
            None => None,
        },
        None => None,
    }
}

fn read_string(bytes: &[u8], pos: usize) -> (r: Option<(String, usize)>)
    requires
        pos <= bytes@.len(),
    ensures
        match r {
            Some(p) => {
                &&& parse_string(bytes@.skip(pos as int)) == Some((p.0@, bytes@.skip(p.1 as int)))
                &&& pos <= p.1 <= bytes@.len()
            },
            None => parse_string(bytes@.skip(pos as int)) is None,
        },
{
    let (n, start) = match read_u64(bytes, pos) {
        Some(p) => p,
        None => {
            return None;
        },
    };
    let mut s = String::new();
    let mut p = start;
    let mut i: u64 = 0;
    proof {
        if parse_chars(bytes@.skip(start as int), n as nat) is Some {
            let t = parse_chars(bytes@.skip(start as int), n as nat)->Some_0;
            assert(s@ + t.0 =~= t.0);
        }
    }
    while i < n
        invariant
            0 <= i <= n,
            pos <= p <= bytes@.len(),
            parse_u64(bytes@.skip(pos as int)) == Some((n, bytes@.skip(start as int))),
            match parse_chars(bytes@.skip(p as int), (n - i) as nat) {
                Some(t) => parse_chars(bytes@.skip(start as int), n as nat) == Some(
                    (s@ + t.0, t.1),
                ),
                None => parse_chars(bytes@.skip(start as int), n as nat) is None,
            },
        decreases n - i,
    {
        let ghost s0 = s@;
        let ghost rem = (n - i) as nat;
        let (c, p2) = match read_char(bytes, p) {
            Some(q) => q,
            None => {
                proof {
                    assert(parse_chars(bytes@.skip(p as int), (n - i) as nat) is None);
                }
                return None;
            },
        };
        s.push(c);
        proof {
            assert(parse_chars(bytes@.skip(p as int), rem) == (
            match parse_chars(bytes@.skip(p2 as int), (rem - 1) as nat) {
                Some((t, rest2)) => Some((seq![c] + t, rest2)),
                None => None::<(Seq<char>, Seq<u8>)>,
            }));
            if parse_chars(bytes@.skip(p2 as int), (rem - 1) as nat) is Some {
                let t = parse_chars(bytes@.skip(p2 as int), (rem - 1) as nat)->Some_0;
                assert(s0 + (seq![c] + t.0) =~= (s0.push(c)) + t.0);
            }
        }
        p = p2;
        i = i + 1;
    }
    proof {
        assert(parse_chars(bytes@.skip(p as int), 0) == Some(
            (Seq::<char>::empty(), bytes@.skip(p as int)),
        ));
        assert(s@ + Seq::<char>::empty() =~= s@);
    }
    Some((s, p))
}

fn read_record(bytes: &[u8], pos: usize) -> (r: Option<(LeaderboardRecord, usize)>)
    requires
        pos <= bytes@.len(),
    ensures
        match r {
            Some(p) => {
                &&& parse_record(bytes@.skip(pos as int)) == Some((p.0@, bytes@.skip(p.1 as int)))
                &&& pos <= p.1 <= bytes@.len()
            },
            None => parse_record(bytes@.skip(pos as int)) is None,
        },
{
    let (player_name, p1) = match read_string(bytes, pos) {
        Some(q) => q,
        None => {
            return None;
        },
    };
    let (time, p2) = match read_u32(bytes, p1) {
        Some(q) => q,
        None => {
            return None;
        },
    };
    let (score, p3) = match read_u32(bytes, p2) {
        Some(q) => q,
        None => {
            return None;
        },
    };
    let (started_at, p4) = match read_string(bytes, p3) {
        Some(q) => q,
        None => {
            return None;
        },
    };
    let (ended_at, p5) = match read_string(bytes, p4) {
        Some(q) => q,
        None => {
            return None;
        },
    };
    Some((LeaderboardRecord { player_name, time, score, started_at, ended_at }, p5))
}

/// Decodes a snapshot, accepting only a byte-exact, retention-ordered,
/// in-bounds collection; anything else is `None`.
pub fn from_bytes(bytes: &[u8]) -> (r: Option<Leaderboard>)
    ensures
        match r {
            Some(l) => {
                &&& parse_snapshot(bytes@) == Some(l@)
                &&& l.wf()
            },
            None => parse_snapshot(bytes@) is None || !store_ok(parse_snapshot(bytes@)->Some_0),
        },
{
    proof {
        assert(bytes@.skip(0) =~= bytes@);
    }
    let (count, start) = match read_u64(bytes, 0) {
        Some(q) => q,
        None => {
            return None;
        },
    };
    if count > MAX_STORED_RECORDS as u64 {
        // even if the payload parses, such a collection breaks the bound
        proof {
            if parse_snapshot(bytes@) is Some {
                lemma_parse_records_len(bytes@.skip(start as int), count as nat);
                assert(parse_snapshot(bytes@)->Some_0.len() == count as nat);
                assert(!store_ok(parse_snapshot(bytes@)->Some_0));
            }
        }
        return None;
    }
    let n = count as usize;
    let mut records: Vec<LeaderboardRecord> = Vec::new();
    let mut p = start;
    let mut i: usize = 0;
    proof {
        assert(views(records@) =~= Seq::<RecordView>::empty());
        if parse_records(bytes@.skip(start as int), n as nat) is Some {
            let t = parse_records(bytes@.skip(start as int), n as nat)->Some_0;
            assert(views(records@) + t.0 =~= t.0);
        }
    }
    while i < n
        invariant
            0 <= i <= n,
            0 <= p <= bytes@.len(),
            i == records@.len(),
            parse_u64(bytes@.skip(0)) == Some((count, bytes@.skip(start as int))),
            n == count as nat,
            match parse_records(bytes@.skip(p as int), (n - i) as nat) {
                Some(t) => parse_records(bytes@.skip(start as int), n as nat) == Some(
                    (views(records@) + t.0, t.1),
                ),
                None => parse_records(bytes@.skip(start as int), n as nat) is None,
            },
        decreases n - i,
    {
        let ghost r0 = records@;
        let ghost rem = (n - i) as nat;
        let (rec, p2) = match read_record(bytes, p) {
            Some(q) => q,
            None => {
                proof {
                    assert(parse_records(bytes@.skip(p as int), (n - i) as nat) is None);
                    assert(bytes@.skip(0) =~= bytes@);
                    assert(parse_snapshot(bytes@) is None);
                }
                return None;
            },
        };
        records.push(rec);
        proof {
            assert(parse_records(bytes@.skip(p as int), rem) == (
            match parse_records(bytes@.skip(p2 as int), (rem - 1) as nat) {
                Some((t, rest2)) => Some((seq![rec@] + t, rest2)),
                None => None::<(Seq<RecordView>, Seq<u8>)>,
            }));
            assert(views(records@) =~= views(r0).push(rec@));
            if parse_records(bytes@.skip(p2 as int), (rem - 1) as nat) is Some {
                let t = parse_records(bytes@.skip(p2 as int), (rem - 1) as nat)->Some_0;
                assert(views(r0) + (seq![rec@] + t.0) =~= views(records@) + t.0);
            }
        }
        p = p2;
        i = i + 1;
    }
    proof {
        assert(parse_records(bytes@.skip(p as int), 0) == Some(
            (Seq::<RecordView>::empty(), bytes@.skip(p as int)),
        ));
        assert(views(records@) + Seq::<RecordView>::empty() =~= views(records@));
    }
    if p != bytes.len() {
        proof {
            assert(bytes@.skip(p as int).len() != 0);
        }
        return None;
    }
    proof {
        assert(bytes@.skip(p as int).len() == 0);
        assert(parse_snapshot(bytes@) == Some(views(records@)));
    }
    // the payload parsed; accept it only in retention order
    let mut k: usize = 1;
    while k < records.len()
        invariant
            1 <= k <= records@.len() || records@.len() == 0,
            parse_snapshot(bytes@) == Some(views(records@)),
            forall|a: int|
                0 <= a < k - 1 ==> pair_before(
                    #[trigger] ret_pair(views(records@)[a]),
                    ret_pair(views(records@)[a + 1]),
                ),
        decreases records@.len() - k,
    {
        let ok = records[k - 1].score > records[k].score || (records[k - 1].score
            == records[k].score && records[k - 1].time >= records[k].time);
        if !ok {
            proof {
                let vs = views(records@);
                assert(vs[k - 1] == records@[k - 1]@ && vs[k as int] == records@[k as int]@);
                assert(!pair_before(ret_pair(vs[k - 1]), ret_pair(vs[k as int])));
                assert(!retention_sorted(vs));
            }
            return None;
        }
        proof {
            assert(views(records@)[k - 1] == records@[k - 1]@);
            assert(views(records@)[k as int] == records@[k as int]@);
        }
        k = k + 1;
    }
    proof {
        lemma_adjacent_retention_sorted(views(records@));
        assert(views(records@).len() <= MAX_STORED_RECORDS);
    }
    Some(Leaderboard::from_records(records))
}

/// The load policy of the persistence gateway: a snapshot that parses to a
/// well-formed collection is loaded; a missing, truncated, corrupt or
/// out-of-bounds one silently yields an empty store, never an error.
pub fn load_or_empty(bytes: &[u8]) -> (l: Leaderboard)
    ensures
        l.wf(),
        match parse_snapshot(bytes@) {
            Some(rs) => if store_ok(rs) {
                l@ == rs
            } else {
                l@ == Seq::<RecordView>::empty()
            },
            None => l@ == Seq::<RecordView>::empty(),
        },
{
    match from_bytes(bytes) {
        Some(l) => l,
        None => Leaderboard::new(),
    }
}

proof fn lemma_parse_records_len(b: Seq<u8>, n: nat)
    ensures
        parse_records(b, n) matches Some(t) ==> t.0.len() == n,
    decreases n,
{
    if n > 0 {
        if parse_record(b) is Some {
            let (r, rest) = parse_record(b)->Some_0;
            lemma_parse_records_len(rest, (n - 1) as nat);
        }
    }
}

proof fn lemma_adjacent_retention_sorted(s: Seq<RecordView>)
    requires
        forall|a: int|
            0 <= a < s.len() - 1 ==> pair_before(
                #[trigger] ret_pair(s[a]),
                ret_pair(s[a + 1]),
            ),
    ensures
        retention_sorted(s),
{
    assert forall|i: int, j: int| 0 <= i <= j < s.len() implies pair_before(
        #[trigger] ret_pair(s[i]),
        #[trigger] ret_pair(s[j]),
    ) by {
        lemma_ret_chain(s, i, j);
    }
}

proof fn lemma_ret_chain(s: Seq<RecordView>, i: int, j: int)
    requires
        forall|a: int|
            0 <= a < s.len() - 1 ==> pair_before(
                #[trigger] ret_pair(s[a]),
                ret_pair(s[a + 1]),
            ),
        0 <= i <= j < s.len(),
    ensures
        pair_before(ret_pair(s[i]), ret_pair(s[j])),
    decreases j - i,
{
    if i < j {
        lemma_ret_chain(s, i, j - 1);
        assert(pair_before(ret_pair(s[j - 1]), ret_pair(s[j])));
    }
}

} // verus!
