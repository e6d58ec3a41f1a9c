use std::collections::HashMap;

use audio_fingerprint::database::get_db_couples;
use audio_fingerprint::matching::{find_matches, rank_matches, score_times};
use audio_fingerprint::models::{Couple, Match};

fn couple(anchor_time_ms: u32, song_id: u32) -> Couple {
    Couple { anchor_time_ms, song_id }
}

#[test]
fn score_counts_coherent_couples_of_hits() {
    assert_eq!(score_times(&[]), 0);
    assert_eq!(score_times(&[(100, 1100)]), 0);
    assert_eq!(score_times(&[(100, 1100), (300, 1300)]), 1);
    assert_eq!(score_times(&[(100, 5000), (300, 9000)]), 0);
    // |200 - 299| = 99 is coherent, |200 - 300| = 100 is not
    assert_eq!(score_times(&[(100, 1000), (300, 1299)]), 1);
    assert_eq!(score_times(&[(100, 1000), (300, 1300 + 100)]), 0);
    assert_eq!(score_times(&[(0, 0), (10, 10), (20, 20), (5000, 0)]), 3);
}

#[test]
fn score_does_not_depend_on_the_order_of_hits() {
    let a = [(1, 7), (40, 90), (300, 200), (310, 205), (900, 1)];
    let mut b = a;
    b.reverse();
    assert_eq!(score_times(&a), score_times(&b));
}

#[test]
fn db_keeps_requested_addresses_in_file_order() {
    let mut first = HashMap::new();
    first.insert(1u32, couple(10, 100));
    first.insert(2u32, couple(20, 100));
    let mut second = HashMap::new();
    second.insert(1u32, couple(30, 200));
    second.insert(3u32, couple(40, 200));
    let db = get_db_couples(&[1, 3, 5], &[first, second]);
    assert_eq!(db.len(), 2);
    assert_eq!(db[&1], vec![(couple(10, 100), 0), (couple(30, 200), 1)]);
    assert_eq!(db[&3], vec![(couple(40, 200), 1)]);
    assert!(!db.contains_key(&2));
    assert!(!db.contains_key(&5));
}

#[test]
fn db_of_no_addresses_is_empty() {
    let mut file = HashMap::new();
    file.insert(1u32, couple(10, 100));
    assert!(get_db_couples(&[], &[file]).is_empty());
}

fn sample_and_db() -> (HashMap<u32, Couple>, HashMap<u32, Vec<(Couple, usize)>>) {
    let mut sample = HashMap::new();
    sample.insert(1u32, couple(100, 0));
    sample.insert(2u32, couple(300, 0));
    sample.insert(3u32, couple(700, 0));
    let mut db = HashMap::new();
    db.insert(1u32, vec![(couple(1100, 5), 0), (couple(5000, 6), 1)]);
    db.insert(2u32, vec![(couple(1300, 5), 0), (couple(9000, 6), 1)]);
    db.insert(9u32, vec![(couple(1, 7), 2)]);
    (sample, db)
}

#[test]
fn matches_are_ranked_by_score() {
    let (sample, db) = sample_and_db();
    let matches = find_matches(&sample, &db);
    assert_eq!(
        matches,
        vec![
            Match { file_index: 0, score: 1, timestamp: 1100 },
            Match { file_index: 1, score: 0, timestamp: 5000 },
        ]
    );
}

#[test]
fn ranking_does_not_depend_on_walk_order() {
    let (_, db) = sample_and_db();
    let forward = [(1u32, couple(100, 0)), (2u32, couple(300, 0)), (3u32, couple(700, 0))];
    let backward = [(3u32, couple(700, 0)), (2u32, couple(300, 0)), (1u32, couple(100, 0))];
    let a = rank_matches(&forward, &db);
    let b = rank_matches(&backward, &db);
    assert_eq!(a, b);
    assert_eq!(a[0], Match { file_index: 0, score: 1, timestamp: 1100 });
}

#[test]
fn no_shared_address_gives_no_match() {
    let mut sample = HashMap::new();
    sample.insert(42u32, couple(1, 0));
    let (_, db) = sample_and_db();
    assert!(find_matches(&sample, &db).is_empty());
    assert!(find_matches(&HashMap::new(), &db).is_empty());
}

#[test]
fn earliest_song_time_is_the_timestamp() {
    let mut sample = HashMap::new();
    sample.insert(1u32, couple(100, 0));
    sample.insert(2u32, couple(150, 0));
    let mut db = HashMap::new();
    db.insert(1u32, vec![(couple(900, 5), 3), (couple(400, 5), 3)]);
    db.insert(2u32, vec![(couple(700, 5), 3)]);
    let matches = find_matches(&sample, &db);
    assert_eq!(matches.len(), 1);
    assert_eq!(matches[0].file_index, 3);
    assert_eq!(matches[0].timestamp, 400);
    // hits: (100,900), (100,400), (150,700): |0-500|, |50-200|, |50-300| -> none coherent
    assert_eq!(matches[0].score, 0);
}

#[test]
fn moving_one_file_later_moves_only_its_timestamp() {
    let (sample, db) = sample_and_db();
    let mut moved = db.clone();
    for list in moved.values_mut() {
        for entry in list.iter_mut() {
            if entry.1 == 0 {
                entry.0.anchor_time_ms += 250;
            }
        }
    }
    let before = find_matches(&sample, &db);
    let after = find_matches(&sample, &moved);
    assert_eq!(
        after,
        vec![
            Match { file_index: 0, score: 1, timestamp: 1350 },
            Match { file_index: 1, score: 0, timestamp: 5000 },
        ]
    );
    assert_eq!(before[0].score, after[0].score);
}

#[test]
fn moving_the_sample_later_changes_no_match() {
    let (sample, db) = sample_and_db();
    let moved: HashMap<u32, Couple> = sample
        .iter()
        .map(|(&a, &c)| (a, couple(c.anchor_time_ms + 1000, c.song_id)))
        .collect();
    assert_eq!(find_matches(&sample, &db), find_matches(&moved, &db));
}
