use audio_fingerprint::fingerprint::{create_address, generate_fingerprint, target_zone_pairs};
use audio_fingerprint::models::{Couple, PeakPair};
use audio_fingerprint::training::{generate_unique_id, train, TrainingSong};

fn pair(anchor_bin: u32, target_bin: u32, delta_ms: u32, anchor_time_ms: u32) -> PeakPair {
    PeakPair { anchor_bin, target_bin, delta_ms, anchor_time_ms }
}

#[test]
fn address_packs_the_three_fields() {
    assert_eq!(create_address(1, 2, 3), (1 << 23) | (2 << 14) | 3);
    assert_eq!(create_address(1, 2, 3), 8_421_379);
    assert_eq!(create_address(0, 0, 0), 0);
}

#[test]
fn address_clamps_bins_and_masks_delta() {
    assert_eq!(create_address(600, 700, 20_000), (511 << 23) | (511 << 14) | (20_000 & 0x3FFF));
    assert_eq!(create_address(511, 511, 16_383), u32::MAX);
    assert_eq!(create_address(u32::MAX, 0, 16_384), 511 << 23);
}

#[test]
fn address_fields_decode() {
    let address = create_address(300, 17, 1234);
    assert_eq!(address >> 23, 300);
    assert_eq!((address >> 14) & 0x1FF, 17);
    assert_eq!(address & 0x3FFF, 1234);
}

#[test]
fn distinct_fields_give_distinct_addresses() {
    assert_ne!(create_address(10, 20, 30), create_address(10, 20, 31));
    assert_ne!(create_address(10, 20, 30), create_address(10, 21, 30));
    assert_ne!(create_address(10, 20, 30), create_address(11, 20, 30));
    assert_eq!(create_address(600, 20, 30), create_address(511, 20, 30));
    assert_eq!(create_address(10, 20, 30 + 0x4000), create_address(10, 20, 30));
}

#[test]
fn target_zone_of_few_peaks() {
    assert!(target_zone_pairs(0).is_empty());
    assert!(target_zone_pairs(1).is_empty());
    assert_eq!(target_zone_pairs(3), vec![(0, 1), (0, 2), (1, 2)]);
}

#[test]
fn target_zone_holds_at_most_five_targets() {
    let pairs = target_zone_pairs(7);
    assert_eq!(pairs.len(), 5 + 5 + 4 + 3 + 2 + 1);
    assert_eq!(&pairs[0..5], &[(0, 1), (0, 2), (0, 3), (0, 4), (0, 5)]);
    assert_eq!(&pairs[5..10], &[(1, 2), (1, 3), (1, 4), (1, 5), (1, 6)]);
    assert!(pairs.iter().all(|&(i, j)| i < j && j - i <= 5 && j < 7));
}

#[test]
fn fingerprint_stores_every_couple_with_the_song_id() {
    let pairs = vec![pair(1, 2, 3, 100), pair(4, 5, 6, 200)];
    let fingerprint = generate_fingerprint(&pairs, 42);
    assert_eq!(fingerprint.len(), 2);
    assert_eq!(fingerprint[&create_address(1, 2, 3)], Couple { anchor_time_ms: 100, song_id: 42 });
    assert_eq!(fingerprint[&create_address(4, 5, 6)], Couple { anchor_time_ms: 200, song_id: 42 });
}

#[test]
fn fingerprint_keeps_the_last_couple_of_an_address() {
    let pairs = vec![pair(1, 2, 3, 100), pair(7, 7, 7, 150), pair(1, 2, 3, 300)];
    let fingerprint = generate_fingerprint(&pairs, 9);
    assert_eq!(fingerprint.len(), 2);
    assert_eq!(fingerprint[&create_address(1, 2, 3)], Couple { anchor_time_ms: 300, song_id: 9 });
}

#[test]
fn fingerprint_of_no_pairs_is_empty() {
    assert!(generate_fingerprint(&[], 1).is_empty());
}

#[test]
fn training_names_files_after_the_songs() {
    let songs = vec![
        TrainingSong { file_name: "first.mp3".to_string(), pairs: vec![pair(1, 2, 3, 10)] },
        TrainingSong { file_name: "second.mp3".to_string(), pairs: vec![pair(4, 5, 6, 20), pair(7, 8, 9, 30)] },
    ];
    let trained = train(&songs);
    assert_eq!(trained.len(), 2);
    assert_eq!(trained[0].path, "./hashes/first.mp3");
    assert_eq!(trained[1].path, "./hashes/second.mp3");
    assert_eq!(trained[0].fingerprint.len(), 1);
    assert_eq!(trained[1].fingerprint.len(), 2);
    let id = trained[1].fingerprint[&create_address(4, 5, 6)].song_id;
    assert_eq!(trained[1].fingerprint[&create_address(7, 8, 9)].song_id, id);
    assert_eq!(trained[1].fingerprint[&create_address(7, 8, 9)].anchor_time_ms, 30);
}

#[test]
fn unique_ids_are_drawn() {
    let ids: Vec<u32> = (0..8).map(|_| generate_unique_id()).collect();
    assert!(ids.windows(2).any(|w| w[0] != w[1]));
}
