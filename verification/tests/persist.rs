use gaia_s_pen::leaderboard::Leaderboard;
use gaia_s_pen::persist::{from_bytes, load_or_empty, to_bytes};
use gaia_s_pen::record::LeaderboardRecord;

fn rec(name: &str, time: u32, score: u32, started_at: &str) -> LeaderboardRecord {
    LeaderboardRecord {
        player_name: name.to_string(),
        time,
        score,
        started_at: started_at.to_string(),
        ended_at: format!("{}-end", started_at),
    }
}

fn sample_store() -> Leaderboard {
    let mut l = Leaderboard::new();
    l.store(rec("Zoë", 1200, 300, "2024-01-01_10:00:00"));
    l.store(rec("ada", 900, 700, "2024-01-01_11:00:00"));
    l.store(rec("bob", 1500, 700, "2024-01-01_12:00:00"));
    l
}

#[test]
fn snapshot_round_trip_keeps_every_record() {
    let l = sample_store();
    let bytes = to_bytes(&l);
    let l2 = from_bytes(&bytes).expect("snapshot should load back");
    let a = l.records();
    let b = l2.records();
    assert_eq!(a.len(), b.len());
    for (x, y) in a.iter().zip(b.iter()) {
        assert_eq!(x.player_name, y.player_name);
        assert_eq!(x.time, y.time);
        assert_eq!(x.score, y.score);
        assert_eq!(x.started_at, y.started_at);
        assert_eq!(x.ended_at, y.ended_at);
    }
}

#[test]
fn snapshot_round_trip_keeps_every_ranked_view() {
    let l = sample_store();
    let l2 = from_bytes(&to_bytes(&l)).expect("snapshot should load back");
    for field in ["score", "time"] {
        let v1 = l.fetch_records(field).unwrap();
        let v2 = l2.fetch_records(field).unwrap();
        let ids1: Vec<&str> = v1.iter().map(|r| r.uid()).collect();
        let ids2: Vec<&str> = v2.iter().map(|r| r.uid()).collect();
        assert_eq!(ids1, ids2);
    }
}

#[test]
fn empty_store_round_trips() {
    let l = Leaderboard::new();
    let l2 = from_bytes(&to_bytes(&l)).expect("empty snapshot should load back");
    assert_eq!(l2.records().len(), 0);
}

#[test]
fn garbage_bytes_yield_an_empty_store() {
    let garbage: Vec<u8> = vec![0xFF, 0x03, 0x07, 0x41, 0x99];
    assert!(from_bytes(&garbage).is_none());
    let l = load_or_empty(&garbage);
    assert_eq!(l.records().len(), 0);
}

#[test]
fn truncated_snapshot_yields_an_empty_store() {
    let bytes = to_bytes(&sample_store());
    let cut = &bytes[..bytes.len() / 2];
    assert!(from_bytes(cut).is_none());
    assert_eq!(load_or_empty(cut).records().len(), 0);
}

#[test]
fn no_bytes_yield_an_empty_store() {
    let l = load_or_empty(&[]);
    assert_eq!(l.records().len(), 0);
}

#[test]
fn trailing_bytes_are_rejected() {
    let mut bytes = to_bytes(&sample_store());
    bytes.push(0);
    assert!(from_bytes(&bytes).is_none());
    assert_eq!(load_or_empty(&bytes).records().len(), 0);
}

#[test]
fn oversized_record_count_is_rejected() {
    // a count of 46 breaks the retention bound before any record is read
    let mut bytes = Vec::new();
    bytes.extend_from_slice(&46u64.to_le_bytes());
    assert!(from_bytes(&bytes).is_none());
}

// the raw layout, written by hand: little-endian integers, strings as a
// character count and one u32 per character
fn put_string(out: &mut Vec<u8>, s: &str) {
    out.extend_from_slice(&(s.chars().count() as u64).to_le_bytes());
    for c in s.chars() {
        out.extend_from_slice(&(c as u32).to_le_bytes());
    }
}

fn put_record(out: &mut Vec<u8>, name: &str, time: u32, score: u32, started: &str, ended: &str) {
    put_string(out, name);
    out.extend_from_slice(&time.to_le_bytes());
    out.extend_from_slice(&score.to_le_bytes());
    put_string(out, started);
    put_string(out, ended);
}

#[test]
fn hand_written_snapshot_loads() {
    let mut bytes = Vec::new();
    bytes.extend_from_slice(&2u64.to_le_bytes());
    put_record(&mut bytes, "ada", 900, 700, "t1", "t1e");
    put_record(&mut bytes, "bob", 1200, 300, "t2", "t2e");
    let l = from_bytes(&bytes).expect("well-formed snapshot should load");
    assert_eq!(l.records().len(), 2);
    assert_eq!(l.records()[0].player_name, "ada");
    assert_eq!(l.records()[1].score, 300);
}

#[test]
fn out_of_retention_order_snapshot_is_rejected() {
    let mut bytes = Vec::new();
    bytes.extend_from_slice(&2u64.to_le_bytes());
    put_record(&mut bytes, "worse", 900, 100, "t1", "t1e");
    put_record(&mut bytes, "better", 900, 200, "t2", "t2e");
    assert!(from_bytes(&bytes).is_none());
    assert_eq!(load_or_empty(&bytes).records().len(), 0);
}

#[test]
fn non_scalar_character_is_rejected() {
    let mut bytes = Vec::new();
    bytes.extend_from_slice(&1u64.to_le_bytes());
    // a one-character name whose code unit is a surrogate, no valid char
    bytes.extend_from_slice(&1u64.to_le_bytes());
    bytes.extend_from_slice(&0xD800u32.to_le_bytes());
    assert!(from_bytes(&bytes).is_none());
}

#[test]
fn snapshot_survives_a_store_after_reload() {
    let l = sample_store();
    let mut l2 = load_or_empty(&to_bytes(&l));
    l2.store(rec("new", 100, 900, "2024-01-02_09:00:00"));
    assert_eq!(l2.records().len(), 4);
    assert_eq!(l2.rank("score", 900), Ok(1));
}
