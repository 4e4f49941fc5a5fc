use gaia_s_pen::leaderboard::Leaderboard;
use gaia_s_pen::record::{LeaderboardError, LeaderboardRecord};

fn rec(name: &str, time: u32, score: u32, started_at: &str) -> LeaderboardRecord {
    LeaderboardRecord {
        player_name: name.to_string(),
        time,
        score,
        started_at: started_at.to_string(),
        ended_at: format!("{}-end", started_at),
    }
}

#[test]
fn record_uid_is_start_timestamp() {
    let r = rec("ada", 1234, 500, "2024-01-02_03:04:05");
    assert_eq!(r.uid(), "2024-01-02_03:04:05");
}

#[test]
fn record_fetch_known_fields() {
    let r = rec("ada", 1234, 500, "t0");
    assert_eq!(r.fetch("time"), Ok(1234));
    assert_eq!(r.fetch("score"), Ok(500));
}

#[test]
fn record_fetch_unknown_fields() {
    let r = rec("ada", 1234, 500, "t0");
    assert_eq!(r.fetch("max_alpha_count"), Err(LeaderboardError::UnknownField));
    assert_eq!(r.fetch("max_control_chain"), Err(LeaderboardError::UnknownField));
    assert_eq!(r.fetch("max_hyper_chain"), Err(LeaderboardError::UnknownField));
    assert_eq!(r.fetch("points"), Err(LeaderboardError::UnknownField));
    assert_eq!(r.fetch(""), Err(LeaderboardError::UnknownField));
}

#[test]
fn empty_store_rank_is_one_and_no_target() {
    let l = Leaderboard::new();
    assert_eq!(l.rank("score", 0), Ok(1));
    assert_eq!(l.rank("time", 999), Ok(1));
    assert_eq!(l.target("score", 123), Ok((0, 0, 0)));
    assert_eq!(l.fetch_records("score").unwrap().len(), 0);
}

#[test]
fn two_record_scenario() {
    let mut l = Leaderboard::new();
    l.store(rec("ada", 1000, 500, "t1"));
    assert_eq!(l.rank("score", 500), Ok(1));
    assert_eq!(l.target("score", 500), Ok((0, 0, 0)));
    l.store(rec("bob", 900, 600, "t2"));
    assert_eq!(l.rank("score", 500), Ok(2));
    assert_eq!(l.target("score", 500), Ok((1, 600, 500)));
}

#[test]
fn nine_scores_decide_what_is_new() {
    let mut l = Leaderboard::new();
    for (i, score) in [900u32, 800, 700, 600, 500, 400, 300, 200, 100].iter().enumerate() {
        l.store(rec("p", 1000 + i as u32, *score, &format!("t{}", i)));
    }
    assert_eq!(l.is_new_in_list("score", 150), Ok(true));
    assert_eq!(l.is_new_in_list("score", 50), Ok(false));
    assert_eq!(l.is_new_in_list("score", 100), Ok(false));
}

#[test]
fn short_list_is_always_new() {
    let mut l = Leaderboard::new();
    for i in 0..8u32 {
        l.store(rec("p", 100 + i, 900 - i, &format!("t{}", i)));
    }
    assert_eq!(l.is_new_in_list("score", 0), Ok(true));
    assert_eq!(l.is_new_in_list("time", 0), Ok(true));
}

#[test]
fn fetch_records_sorts_by_score_with_time_tiebreak() {
    let mut l = Leaderboard::new();
    l.store(rec("a", 50, 300, "t1"));
    l.store(rec("b", 70, 500, "t2"));
    l.store(rec("c", 90, 300, "t3"));
    l.store(rec("d", 10, 700, "t4"));
    let v = l.fetch_records("score").unwrap();
    let got: Vec<(u32, u32)> = v.iter().map(|r| (r.score, r.time)).collect();
    assert_eq!(got, vec![(700, 10), (500, 70), (300, 90), (300, 50)]);
}

#[test]
fn fetch_records_sorts_by_time_with_score_tiebreak() {
    let mut l = Leaderboard::new();
    l.store(rec("a", 50, 300, "t1"));
    l.store(rec("b", 70, 500, "t2"));
    l.store(rec("c", 90, 300, "t3"));
    l.store(rec("d", 50, 700, "t4"));
    let v = l.fetch_records("time").unwrap();
    let got: Vec<(u32, u32)> = v.iter().map(|r| (r.time, r.score)).collect();
    assert_eq!(got, vec![(90, 300), (70, 500), (50, 700), (50, 300)]);
}

#[test]
fn fetch_records_caps_at_nine() {
    let mut l = Leaderboard::new();
    for i in 0..12u32 {
        l.store(rec("p", i, 100 * i, &format!("t{}", i)));
    }
    let v = l.fetch_records("score").unwrap();
    assert_eq!(v.len(), 9);
    assert_eq!(v[0].score, 1100);
    assert_eq!(v[8].score, 300);
}

#[test]
fn fetch_records_rejects_unknown_field() {
    let l = Leaderboard::new();
    assert!(matches!(l.fetch_records("max_alpha_count"), Err(LeaderboardError::UnknownField)));
    assert!(matches!(l.rank("bogus", 1), Err(LeaderboardError::UnknownField)));
    assert!(matches!(l.target("bogus", 1), Err(LeaderboardError::UnknownField)));
    assert!(matches!(l.is_new_in_list("bogus", 1), Err(LeaderboardError::UnknownField)));
}

#[test]
fn ranks_are_banded() {
    let mut l = Leaderboard::new();
    for (i, score) in [900u32, 800, 800, 700].iter().enumerate() {
        l.store(rec("p", 10 + i as u32, *score, &format!("t{}", i)));
    }
    assert_eq!(l.rank("score", 950), Ok(1));
    assert_eq!(l.rank("score", 900), Ok(1));
    assert_eq!(l.rank("score", 850), Ok(2));
    assert_eq!(l.rank("score", 800), Ok(2));
    assert_eq!(l.rank("score", 750), Ok(4));
    assert_eq!(l.rank("score", 700), Ok(4));
    assert_eq!(l.rank("score", 699), Ok(0));
}

#[test]
fn rank_never_improves_as_value_decreases() {
    let mut l = Leaderboard::new();
    for (i, score) in [900u32, 800, 800, 700, 500].iter().enumerate() {
        l.store(rec("p", 10 + i as u32, *score, &format!("t{}", i)));
    }
    let mut prev_rank = 0u8;
    for value in (0..=1000u32).rev() {
        let k = l.rank("score", value).unwrap();
        if k == 0 {
            // unranked: every smaller value must stay unranked
            assert_eq!(l.rank("score", value / 2).unwrap(), 0);
            break;
        }
        assert!(k >= prev_rank, "rank improved from {} to {}", prev_rank, k);
        prev_rank = k;
    }
}

#[test]
fn target_walks_bands() {
    let mut l = Leaderboard::new();
    for (i, score) in [900u32, 800, 800, 700].iter().enumerate() {
        l.store(rec("p", 10 + i as u32, *score, &format!("t{}", i)));
    }
    // already at the top: nothing to chase
    assert_eq!(l.target("score", 900), Ok((0, 0, 0)));
    assert_eq!(l.target("score", 1000), Ok((0, 0, 0)));
    // reaches the 800 band: beat 900 to take rank 1
    assert_eq!(l.target("score", 800), Ok((1, 900, 800)));
    assert_eq!(l.target("score", 850), Ok((1, 900, 800)));
    // reaches the 700 band: beat 800 to take rank 2
    assert_eq!(l.target("score", 700), Ok((2, 800, 700)));
    // below the whole list: last band's rank and value, then 0
    assert_eq!(l.target("score", 600), Ok((4, 700, 0)));
}

#[test]
fn capacity_stays_within_bound() {
    let mut l = Leaderboard::new();
    for i in 0..50u32 {
        l.store(rec("p", i, i, &format!("t{:02}", i)));
    }
    assert_eq!(l.records().len(), 45);
}

#[test]
fn eviction_drops_the_worst() {
    let mut l = Leaderboard::new();
    for i in 0..45u32 {
        l.store(rec("p", 10, 100 + i, &format!("t{:02}", i)));
    }
    // a strong newcomer pushes out the previous worst (score 100)
    l.store(rec("new", 10, 1000, "t-new"));
    assert_eq!(l.records().len(), 45);
    assert!(l.records().iter().any(|r| r.uid() == "t-new"));
    assert!(!l.records().iter().any(|r| r.score == 100));
}

#[test]
fn eviction_drops_a_newcomer_that_ranks_last() {
    let mut l = Leaderboard::new();
    for i in 0..45u32 {
        l.store(rec("p", 10, 100 + i, &format!("t{:02}", i)));
    }
    l.store(rec("weak", 10, 5, "t-weak"));
    assert_eq!(l.records().len(), 45);
    assert!(!l.records().iter().any(|r| r.uid() == "t-weak"));
}

#[test]
fn is_new_record_checks_both_fields() {
    let mut l = Leaderboard::new();
    for i in 0..9u32 {
        l.store(rec("p", 1000 + i, 500 + i, &format!("t{}", i)));
    }
    // below both full lists
    assert!(!l.is_new_record(&rec("x", 50, 50, "t-x")));
    // a top score qualifies even with a poor time
    assert!(l.is_new_record(&rec("y", 50, 5000, "t-y")));
    // a top time qualifies even with a poor score
    assert!(l.is_new_record(&rec("z", 5000, 50, "t-z")));
}

#[test]
fn is_new_record_is_true_while_lists_are_short() {
    let mut l = Leaderboard::new();
    l.store(rec("p", 100, 100, "t0"));
    assert!(l.is_new_record(&rec("x", 0, 0, "t-x")));
}

#[test]
fn store_keeps_equal_keys_together() {
    let mut l = Leaderboard::new();
    l.store(rec("a", 30, 100, "t1"));
    l.store(rec("b", 30, 100, "t2"));
    l.store(rec("c", 30, 100, "t3"));
    let v = l.fetch_records("score").unwrap();
    assert_eq!(v.len(), 3);
    assert!(v.iter().all(|r| r.score == 100 && r.time == 30));
}
