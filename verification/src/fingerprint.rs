use std::collections::HashMap;
use vstd::prelude::*;

use crate::models::{Couple, PeakPair, TARGET_ZONE_SIZE};

verus! {

/// Largest frequency bin an address can hold (9 bits).
pub open spec fn clamp_bin(bin: u32) -> u32 {
    if bin < 511 {
        bin
    } else {
        511
    }
}

/// The address of a couple of peaks: the clamped anchor bin in bits 23..32,
/// the clamped target bin in bits 14..23 and the low 14 bits of the time
/// distance in bits 0..14.
pub open spec fn address_of(anchor_bin: u32, target_bin: u32, delta_ms: u32) -> int {
    clamp_bin(anchor_bin) * 0x80_0000 + clamp_bin(target_bin) * 0x4000 + delta_ms % 0x4000
}

/// Packs a couple of peaks into a 32-bit address.
pub fn create_address(anchor_bin: u32, target_bin: u32, delta_ms: u32) -> (address: u32)
    ensures
        address == address_of(anchor_bin, target_bin, delta_ms),
        address >> 23u32 == clamp_bin(anchor_bin),
        (address >> 14u32) & 0x1FF == clamp_bin(target_bin),
        address & 0x3FFF == delta_ms % 0x4000,
{
    let anchor_freq: u32 = if anchor_bin < 511 { anchor_bin } else { 511 };
    let target_freq: u32 = if target_bin < 511 { target_bin } else { 511 };
    let address: u32 = (anchor_freq << 23u32) | (target_freq << 14u32) | (delta_ms & 0x3FFF);
    assert(address == anchor_freq * 0x80_0000 + target_freq * 0x4000 + delta_ms % 0x4000
        && address >> 23u32 == anchor_freq
        && (address >> 14u32) & 0x1FF == target_freq
        && address & 0x3FFF == delta_ms % 0x4000) by (bit_vector)
        requires
            anchor_freq <= 511,
            target_freq <= 511,
            address == (anchor_freq << 23u32) | (target_freq << 14u32) | (delta_ms & 0x3FFF),
    ;
    address
}


/// `(i, j)` is a couple of peak indices in a list of `n` peaks where `j` lies
/// in the target zone of the anchor `i`: one of the next five peaks.
pub open spec fn in_target_zone(n: int, i: int, j: int) -> bool {
    0 <= i < j < n && j - i <= TARGET_ZONE_SIZE
}

/// Lexicographic order on index couples.
pub open spec fn pair_precedes(a: (usize, usize), b: (usize, usize)) -> bool {
    a.0 < b.0 || (a.0 == b.0 && a.1 < b.1)
}

/// Lists every anchor/target couple of indices for `n` peaks, anchors in
/// increasing order and, for one anchor, targets in increasing order.
pub fn target_zone_pairs(n: usize) -> (pairs: Vec<(usize, usize)>)
    ensures
        forall|k: int| 0 <= k < pairs.len() ==> in_target_zone(n as int, #[trigger] pairs[k].0 as int, pairs[k].1 as int),
        forall|k: int, l: int| 0 <= k < l < pairs.len() ==> pair_precedes(#[trigger] pairs[k], #[trigger] pairs[l]),
        forall|i: int, j: int| #[trigger] in_target_zone(n as int, i, j) ==> pairs@.contains((i as usize, j as usize)),
{
    let mut pairs: Vec<(usize, usize)> = Vec::new();
    let mut i: usize = 0;
    while i < n
        invariant
            i <= n,
            forall|k: int| 0 <= k < pairs.len() ==> in_target_zone(n as int, #[trigger] pairs[k].0 as int, pairs[k].1 as int),
            forall|k: int| 0 <= k < pairs.len() ==> #[trigger] pairs[k].0 < i,
            forall|k: int, l: int| 0 <= k < l < pairs.len() ==> pair_precedes(#[trigger] pairs[k], #[trigger] pairs[l]),
            forall|a: int, b: int| in_target_zone(n as int, a, b) && a < i ==> #[trigger] pairs@.contains((a as usize, b as usize)),
        decreases n - i,
    {
        let max_j: usize = if n - i > TARGET_ZONE_SIZE + 1 { i + TARGET_ZONE_SIZE + 1 } else { n };
        let mut j: usize = i + 1;
        while j < max_j
            invariant
                i < n,
                i + 1 <= j,
                max_j <= n,
                max_j as int == if n - i > TARGET_ZONE_SIZE + 1 { i + TARGET_ZONE_SIZE + 1 } else { n as int },
                forall|k: int| 0 <= k < pairs.len() ==> in_target_zone(n as int, #[trigger] pairs[k].0 as int, pairs[k].1 as int),
                forall|k: int| 0 <= k < pairs.len() ==> pair_precedes(#[trigger] pairs[k], (i, j)),
                forall|k: int, l: int| 0 <= k < l < pairs.len() ==> pair_precedes(#[trigger] pairs[k], #[trigger] pairs[l]),
                forall|a: int, b: int| in_target_zone(n as int, a, b) && (a < i || (a == i && b < j)) ==> #[trigger] pairs@.contains((a as usize, b as usize)),
            decreases max_j - j,
        {
            let ghost before = pairs@;
            pairs.push((i, j));
            assert forall|a: int, b: int| in_target_zone(n as int, a, b) && (a < i || (a == i && b < j + 1)) implies #[trigger] pairs@.contains((a as usize, b as usize)) by {
                if a == i && b == j {
                    assert(pairs@[before.len() as int] == (i, j));
                } else {
                    assert(before.contains((a as usize, b as usize)));
                    let k = choose|k: int| 0 <= k < before.len() && before[k] == (a as usize, b as usize);
                    assert(pairs@[k] == (a as usize, b as usize));
                }
            }
            j = j + 1;
        }
        i = i + 1;
    }
    pairs
}

/// The address of a couple of peaks as the 32-bit key it is stored under.
pub open spec fn pair_address(pair: PeakPair) -> u32 {
    address_of(pair.anchor_bin, pair.target_bin, pair.delta_ms) as u32
}

/// What a couple of peaks is stored as in the fingerprint of a song.
pub open spec fn pair_couple(pair: PeakPair, song_id: u32) -> Couple {
    Couple { anchor_time_ms: pair.anchor_time_ms, song_id }
}

/// The fingerprint of a song: the couples of peaks stored one after the
/// other under their addresses, a later couple replacing an earlier one with
/// the same address.
pub open spec fn fingerprint_of(pairs: Seq<PeakPair>, song_id: u32) -> Map<u32, Couple>
    decreases pairs.len(),
{
    if pairs.len() == 0 {
        Map::empty()
    } else {
        fingerprint_of(pairs.drop_last(), song_id).insert(
            pair_address(pairs.last()),
            pair_couple(pairs.last(), song_id),
        )
    }
}

/// The 32-bit key of a couple of peaks, field by field: the anchor bin
/// (capped at 511) shifted into bits 23..32, the target bin (capped at 511)
/// shifted into bits 14..23 and the low 14 bits of the time distance.
pub open spec fn packed_key(anchor_bin: u32, target_bin: u32, delta_ms: u32) -> u32 {
    let anchor: u32 = if anchor_bin < 511 { anchor_bin } else { 511 };
    let target: u32 = if target_bin < 511 { target_bin } else { 511 };
    (anchor << 23u32) | (target << 14u32) | (delta_ms & 0x3FFFu32)
}

proof fn lemma_packed_key(anchor_bin: u32, target_bin: u32, delta_ms: u32)
    ensures
        address_of(anchor_bin, target_bin, delta_ms) == packed_key(anchor_bin, target_bin, delta_ms),
{
    let anchor: u32 = if anchor_bin < 511 { anchor_bin } else { 511 };
    let target: u32 = if target_bin < 511 { target_bin } else { 511 };
    assert((anchor << 23u32) | (target << 14u32) | (delta_ms & 0x3FFFu32) == anchor * 0x80_0000 + target * 0x4000
        + delta_ms % 0x4000) by (bit_vector)
        requires
            anchor <= 511,
            target <= 511,
    ;
}

/// Every couple of peaks of a song is stored in its fingerprint under the
/// key packed from its own anchor bin, target bin and time distance, and
/// nothing else is stored; every entry carries the song id, and the entry
/// under the key of a couple that no later couple shares is that couple's
/// anchor time.
pub proof fn lemma_fingerprint_keys(pairs: Seq<PeakPair>, song_id: u32)
    ensures
        forall|k: int|
            0 <= k < pairs.len() ==> #[trigger] fingerprint_of(pairs, song_id).contains_key(
                packed_key(pairs[k].anchor_bin, pairs[k].target_bin, pairs[k].delta_ms),
            ),
        forall|address: u32|
            #[trigger] fingerprint_of(pairs, song_id).contains_key(address) ==> exists|k: int|
                0 <= k < pairs.len() && packed_key(pairs[k].anchor_bin, pairs[k].target_bin, pairs[k].delta_ms)
                    == address,
        forall|address: u32|
            #[trigger] fingerprint_of(pairs, song_id).contains_key(address) ==> fingerprint_of(pairs, song_id)[address].song_id
                == song_id,
        forall|k: int|
            0 <= k < pairs.len() && (forall|l: int|
                k < l < pairs.len() ==> packed_key(pairs[l].anchor_bin, pairs[l].target_bin, pairs[l].delta_ms)
                    != packed_key(pairs[k].anchor_bin, pairs[k].target_bin, pairs[k].delta_ms)) ==> fingerprint_of(
                pairs,
                song_id,
            )[packed_key(#[trigger] pairs[k].anchor_bin, pairs[k].target_bin, pairs[k].delta_ms)] == (Couple {
                anchor_time_ms: pairs[k].anchor_time_ms,
                song_id,
            }),
{
    lemma_fingerprint_contents(pairs, song_id);
    assert forall|k: int| 0 <= k < pairs.len() implies pair_address(pairs[k]) == packed_key(
        #[trigger] pairs[k].anchor_bin,
        pairs[k].target_bin,
        pairs[k].delta_ms,
    ) by {
        let p = pairs[k];
        lemma_packed_key(p.anchor_bin, p.target_bin, p.delta_ms);
        lemma_address_injective(p.anchor_bin, p.target_bin, p.delta_ms, p.anchor_bin, p.target_bin, p.delta_ms);
    }
    assert forall|k: int| 0 <= k < pairs.len() implies #[trigger] fingerprint_of(pairs, song_id).contains_key(
        packed_key(pairs[k].anchor_bin, pairs[k].target_bin, pairs[k].delta_ms),
    ) by {
        assert(pair_address(pairs[k]) == packed_key(pairs[k].anchor_bin, pairs[k].target_bin, pairs[k].delta_ms));
    }
    assert forall|address: u32| #[trigger] fingerprint_of(pairs, song_id).contains_key(address) implies exists|k: int|
        0 <= k < pairs.len() && packed_key(pairs[k].anchor_bin, pairs[k].target_bin, pairs[k].delta_ms) == address by {
        let k = choose|k: int| 0 <= k < pairs.len() && #[trigger] pair_address(pairs[k]) == address;
        assert(pair_address(pairs[k]) == packed_key(pairs[k].anchor_bin, pairs[k].target_bin, pairs[k].delta_ms));
    }
    assert forall|k: int|
        0 <= k < pairs.len() && (forall|l: int|
            k < l < pairs.len() ==> packed_key(pairs[l].anchor_bin, pairs[l].target_bin, pairs[l].delta_ms)
                != packed_key(pairs[k].anchor_bin, pairs[k].target_bin, pairs[k].delta_ms)) implies fingerprint_of(
            pairs,
            song_id,
        )[packed_key(#[trigger] pairs[k].anchor_bin, pairs[k].target_bin, pairs[k].delta_ms)] == (Couple {
            anchor_time_ms: pairs[k].anchor_time_ms,
            song_id,
        }) by {
        assert(pair_address(pairs[k]) == packed_key(pairs[k].anchor_bin, pairs[k].target_bin, pairs[k].delta_ms));
        assert forall|l: int| k < l < pairs.len() implies pair_address(#[trigger] pairs[l]) != pair_address(pairs[k]) by {
            assert(pair_address(pairs[l]) == packed_key(pairs[l].anchor_bin, pairs[l].target_bin, pairs[l].delta_ms));
        }
    }
}

/// Builds the fingerprint of a song from its couples of peaks.
pub fn generate_fingerprint(pairs: &[PeakPair], song_id: u32) -> (fingerprint: HashMap<u32, Couple>)
    ensures
        fingerprint@ == fingerprint_of(pairs@, song_id),
        forall|k: int|
            0 <= k < pairs.len() ==> #[trigger] fingerprint@.contains_key(
                packed_key(pairs[k].anchor_bin, pairs[k].target_bin, pairs[k].delta_ms),
            ),
        forall|address: u32|
            #[trigger] fingerprint@.contains_key(address) ==> exists|k: int|
                0 <= k < pairs.len() && packed_key(pairs[k].anchor_bin, pairs[k].target_bin, pairs[k].delta_ms)
                    == address,
        forall|address: u32| #[trigger] fingerprint@.contains_key(address) ==> fingerprint@[address].song_id == song_id,
{
    broadcast use vstd::std_specs::hash::group_hash_axioms;

    let mut fingerprint: HashMap<u32, Couple> = HashMap::new();
    let mut k: usize = 0;
    while k < pairs.len()
        invariant
            k <= pairs.len(),
            fingerprint@ == fingerprint_of(pairs@.take(k as int), song_id),
        decreases pairs.len() - k,
    {
        let pair = pairs[k];
        let address: u32 = create_address(pair.anchor_bin, pair.target_bin, pair.delta_ms);
        fingerprint.insert(address, Couple { anchor_time_ms: pair.anchor_time_ms, song_id });
        assert(pairs@.take(k + 1).drop_last() == pairs@.take(k as int));
        k = k + 1;
    }
    assert(pairs@.take(pairs.len() as int) == pairs@);
    proof {
        lemma_fingerprint_keys(pairs@, song_id);
    }
    fingerprint
}


/// An address fits in 32 bits, and two couples of peaks share an address
/// exactly when their clamped anchor bins, their clamped target bins and
/// their time distances modulo 2^14 agree.
pub proof fn lemma_address_injective(
    anchor_a: u32,
    target_a: u32,
    delta_a: u32,
    anchor_b: u32,
    target_b: u32,
    delta_b: u32,
)
    ensures
        0 <= address_of(anchor_a, target_a, delta_a) <= u32::MAX,
        address_of(anchor_a, target_a, delta_a) == address_of(anchor_b, target_b, delta_b) <==> {
            &&& clamp_bin(anchor_a) == clamp_bin(anchor_b)
            &&& clamp_bin(target_a) == clamp_bin(target_b)
            &&& delta_a % 0x4000 == delta_b % 0x4000
        },
{
}

/// The fingerprint of a song holds one entry per address of its couples of
/// peaks and no other; every entry carries the song id; the entry of an
/// address is made from the last couple with that address.
pub proof fn lemma_fingerprint_contents(pairs: Seq<PeakPair>, song_id: u32)
    ensures
        forall|address: u32|
            #[trigger] fingerprint_of(pairs, song_id).contains_key(address) <==> exists|k: int|
                0 <= k < pairs.len() && #[trigger] pair_address(pairs[k]) == address,
        forall|address: u32|
            #[trigger] fingerprint_of(pairs, song_id).contains_key(address) ==> fingerprint_of(pairs, song_id)[address].song_id
                == song_id,
        forall|k: int|
            0 <= k < pairs.len() && (forall|l: int| k < l < pairs.len() ==> pair_address(#[trigger] pairs[l]) != pair_address(pairs[k]))
                ==> fingerprint_of(pairs, song_id)[pair_address(#[trigger] pairs[k])] == pair_couple(pairs[k], song_id),
    decreases pairs.len(),
{
    if pairs.len() > 0 {
        let prefix = pairs.drop_last();
        let last = pairs.last();
        lemma_fingerprint_contents(prefix, song_id);
        assert forall|address: u32|
            #[trigger] fingerprint_of(pairs, song_id).contains_key(address) implies exists|k: int|
                0 <= k < pairs.len() && #[trigger] pair_address(pairs[k]) == address by {
            if address == pair_address(last) {
                assert(pair_address(pairs[pairs.len() - 1]) == address);
            } else {
                assert(fingerprint_of(prefix, song_id).contains_key(address));
                let k = choose|k: int| 0 <= k < prefix.len() && #[trigger] pair_address(prefix[k]) == address;
                assert(pairs[k] == prefix[k]);
            }
        }
        assert forall|address: u32|
            (exists|k: int| 0 <= k < pairs.len() && #[trigger] pair_address(pairs[k]) == address) implies
                #[trigger] fingerprint_of(pairs, song_id).contains_key(address) by {
            let k = choose|k: int| 0 <= k < pairs.len() && #[trigger] pair_address(pairs[k]) == address;
            if k < pairs.len() - 1 {
                assert(pairs[k] == prefix[k]);
                assert(fingerprint_of(prefix, song_id).contains_key(address));
            }
        }
        assert forall|address: u32|
            #[trigger] fingerprint_of(pairs, song_id).contains_key(address) implies fingerprint_of(pairs, song_id)[address].song_id
                == song_id by {
            if address != pair_address(last) {
                assert(fingerprint_of(prefix, song_id).contains_key(address));
            }
        }
        assert forall|k: int|
            0 <= k < pairs.len() && (forall|l: int| k < l < pairs.len() ==> pair_address(#[trigger] pairs[l]) != pair_address(pairs[k]))
                implies fingerprint_of(pairs, song_id)[pair_address(#[trigger] pairs[k])] == pair_couple(pairs[k], song_id) by {
            if k < pairs.len() - 1 {
                assert(pairs[k] == prefix[k]);
                assert forall|l: int| k < l < prefix.len() implies pair_address(#[trigger] prefix[l]) != pair_address(prefix[k]) by {
                    assert(prefix[l] == pairs[l]);
                }
                assert(pair_address(pairs[pairs.len() - 1]) != pair_address(pairs[k]));
            }
        }
    }
}

} // verus!
