use std::collections::HashMap;
use vstd::prelude::*;
use vstd::std_specs::iter::IteratorSpec;

use crate::models::{Couple, Match};

verus! {

/// One address shared by the sample and an indexed song: the anchor time in
/// the sample, the anchor time in the song and the song's file.
pub type Hit = (u32, u32, usize);

/// The hits that one sample couple produces against the indexed couples
/// stored under the same address.
pub open spec fn couple_hits(sample: Couple, indexed: Seq<(Couple, usize)>) -> Seq<Hit> {
    indexed.map_values(|e: (Couple, usize)| (sample.anchor_time_ms, e.0.anchor_time_ms, e.1))
}

/// The hits of one sample entry: none when no indexed couple shares its
/// address.
pub open spec fn entry_hits(entry: (u32, Couple), db: Map<u32, Vec<(Couple, usize)>>) -> Seq<Hit> {
    if db.contains_key(entry.0) {
        couple_hits(entry.1, db[entry.0]@)
    } else {
        Seq::empty()
    }
}

/// All hits of a sample, walked in the order of `entries`.
pub open spec fn hits_of(entries: Seq<(u32, Couple)>, db: Map<u32, Vec<(Couple, usize)>>) -> Seq<Hit>
    decreases entries.len(),
{
    if entries.len() == 0 {
        Seq::empty()
    } else {
        hits_of(entries.drop_last(), db) + entry_hits(entries.last(), db)
    }
}

/// The (sample time, song time) couples of the hits that land in `file`.
pub open spec fn times_of(hits: Seq<Hit>, file: usize) -> Seq<(u32, u32)>
    decreases hits.len(),
{
    if hits.len() == 0 {
        Seq::empty()
    } else {
        let rest = times_of(hits.drop_last(), file);
        let h = hits.last();
        if h.2 == file {
            rest.push((h.0, h.1))
        } else {
            rest
        }
    }
}

pub open spec fn abs_diff(a: int, b: int) -> int {
    if a >= b {
        a - b
    } else {
        b - a
    }
}

/// Two hits agree in time: the distance between their sample times and the
/// distance between their song times differ by less than 100 ms.
pub open spec fn coherent(x: (u32, u32), y: (u32, u32)) -> bool {
    abs_diff(abs_diff(x.0 as int, y.0 as int), abs_diff(x.1 as int, y.1 as int)) < 100
}

/// How many elements of `times` agree in time with `y`.
pub open spec fn coherent_count(times: Seq<(u32, u32)>, y: (u32, u32)) -> nat
    decreases times.len(),
{
    if times.len() == 0 {
        0
    } else {
        coherent_count(times.drop_last(), y) + if coherent(times.last(), y) {
            1nat
        } else {
            0nat
        }
    }
}

/// How many couples of distinct positions `i < j` of `times` agree in time.
pub open spec fn pair_score(times: Seq<(u32, u32)>) -> nat
    decreases times.len(),
{
    if times.len() == 0 {
        0
    } else {
        pair_score(times.drop_last()) + coherent_count(times.drop_last(), times.last())
    }
}

/// A count as a `u64`, held at `u64::MAX` when it does not fit.
pub open spec fn saturated(n: nat) -> u64 {
    if n > u64::MAX {
        u64::MAX
    } else {
        n as u64
    }
}

/// The earliest song time among `times`, `u32::MAX` when there is none.
pub open spec fn earliest(times: Seq<(u32, u32)>) -> u32
    decreases times.len(),
{
    if times.len() == 0 {
        u32::MAX
    } else {
        let rest = earliest(times.drop_last());
        if times.last().1 < rest {
            times.last().1
        } else {
            rest
        }
    }
}

/// Counts the couples of positions of `times` that agree in time.
pub fn score_times(times: &[(u32, u32)]) -> (score: u64)
    ensures
        score == saturated(pair_score(times@)),
{
    let mut score: u64 = 0;
    let mut j: usize = 0;
    while j < times.len()
        invariant
            j <= times.len(),
            score == saturated(pair_score(times@.take(j as int))),
        decreases times.len() - j,
    {
        let (s2, d2) = times[j];
        let mut i: usize = 0;
        while i < j
            invariant
                i <= j < times.len(),
                s2 == times@[j as int].0,
                d2 == times@[j as int].1,
                score == saturated(pair_score(times@.take(j as int)) + coherent_count(times@.take(i as int), times@[j as int])),
            decreases j - i,
        {
            let (s1, d1) = times[i];
            let sample_diff: u32 = if s1 >= s2 { s1 - s2 } else { s2 - s1 };
            let db_diff: u32 = if d1 >= d2 { d1 - d2 } else { d2 - d1 };
            let gap: u32 = if sample_diff >= db_diff { sample_diff - db_diff } else { db_diff - sample_diff };
            assert(times@.take(i + 1).drop_last() == times@.take(i as int));
            if gap < 100 {
                score = score.saturating_add(1);
            }
            i = i + 1;
        }
        assert(times@.take(j + 1).drop_last() == times@.take(j as int));
        j = j + 1;
    }
    assert(times@.take(times.len() as int) == times@);
    score
}


/// What a ranking of matches says of the hits of a sample: one match per
/// file that received a hit, each with the score and the earliest song time
/// of that file's hits, best score first.
pub open spec fn ranks_hits(matches: Seq<Match>, hits: Seq<Hit>) -> bool {
    &&& forall|k: int|
        0 <= k < matches.len() ==> {
            let times = #[trigger] times_of(hits, matches[k].file_index);
            &&& times.len() > 0
            &&& matches[k].score == saturated(pair_score(times))
            &&& matches[k].timestamp == earliest(times)
        }
    &&& forall|f: usize|
        #[trigger] times_of(hits, f).len() > 0 ==> exists|k: int|
            0 <= k < matches.len() && #[trigger] matches[k].file_index == f
    &&& forall|k: int, l: int|
        0 <= k < l < matches.len() ==> #[trigger] matches[k].file_index != #[trigger] matches[l].file_index
    &&& forall|k: int, l: int| 0 <= k < l < matches.len() ==> #[trigger] matches[k].score >= #[trigger] matches[l].score
}

/// The hits of one file gathered so far.
struct SongHits {
    file: usize,
    times: Vec<(u32, u32)>,
    timestamp: u32,
}

/// `songs` holds, once per file and for every file that was hit, the hits of
/// that file and their earliest song time.
spec fn gathers(songs: Seq<SongHits>, hits: Seq<Hit>) -> bool {
    &&& forall|k: int|
        0 <= k < songs.len() ==> {
            let times = #[trigger] times_of(hits, songs[k].file);
            &&& songs[k].times@ == times
            &&& songs[k].timestamp == earliest(times)
        }
    &&& forall|f: usize|
        #[trigger] times_of(hits, f).len() > 0 ==> exists|k: int|
            0 <= k < songs.len() && #[trigger] songs[k].file == f
    &&& forall|k: int| 0 <= k < songs.len() ==> #[trigger] times_of(hits, songs[k].file).len() > 0
    &&& forall|k: int, l: int|
        0 <= k < l < songs.len() ==> #[trigger] songs[k].file != #[trigger] songs[l].file
}

/// `positions` gives, for every file gathered in `songs`, where it stands.
spec fn locates(positions: Map<usize, usize>, songs: Seq<SongHits>) -> bool {
    &&& forall|f: usize|
        #[trigger] positions.contains_key(f) ==> positions[f] < songs.len() && songs[positions[f] as int].file == f
    &&& forall|k: int| 0 <= k < songs.len() ==> positions.contains_key(#[trigger] songs[k].file)
}

/// Adds one hit to the hits gathered per file.
fn add_hit(
    songs: &mut Vec<SongHits>,
    positions: &mut HashMap<usize, usize>,
    hit: Hit,
    Ghost(hits): Ghost<Seq<Hit>>,
)
    requires
        gathers(old(songs)@, hits),
        locates(old(positions)@, old(songs)@),
    ensures
        gathers(final(songs)@, hits.push(hit)),
        locates(final(positions)@, final(songs)@),
{
    broadcast use vstd::std_specs::hash::group_hash_axioms;

    let ghost extended = hits.push(hit);
    assert(extended.drop_last() == hits);
    assert forall|f: usize| #[trigger] times_of(extended, f) == if hit.2 == f {
        times_of(hits, f).push((hit.0, hit.1))
    } else {
        times_of(hits, f)
    } by {}

    let ghost orig = songs@;
    let idx: usize = match positions.get(&hit.2) {
        Some(position) => *position,
        None => {
            assert forall|k: int| 0 <= k < songs.len() implies #[trigger] songs@[k].file != hit.2 by {
                assert(positions@.contains_key(songs@[k].file));
            }
            assert(times_of(hits, hit.2).len() == 0) by {
                if times_of(hits, hit.2).len() > 0 {
                    let k = choose|k: int| 0 <= k < songs.len() && #[trigger] songs@[k].file == hit.2;
                }
            }
            assert(times_of(hits, hit.2) == Seq::<(u32, u32)>::empty());
            let position: usize = songs.len();
            songs.push(SongHits { file: hit.2, times: Vec::new(), timestamp: u32::MAX });
            positions.insert(hit.2, position);
            assert(songs@[position as int].times@ == times_of(hits, hit.2));
            position
        },
    };
    assert(songs@[idx as int].file == hit.2);
    let ghost before = songs@;
    assert(before[idx as int].times@ == times_of(hits, hit.2));
    assert(before[idx as int].timestamp == earliest(times_of(hits, hit.2)));
    assert(forall|k: int| 0 <= k < orig.len() ==> before[k] == orig[k]);
    songs[idx].times.push((hit.0, hit.1));
    if hit.1 < songs[idx].timestamp {
        songs[idx].timestamp = hit.1;
    }
    assert(times_of(hits, hit.2).push((hit.0, hit.1)).drop_last() == times_of(hits, hit.2));
    assert forall|k: int| 0 <= k < songs.len() implies {
        let times = #[trigger] times_of(extended, songs[k].file);
        &&& songs[k].times@ == times
        &&& songs[k].timestamp == earliest(times)
    } by {
        if k != idx {
            assert(songs@[k] == before[k]);
            assert(k < orig.len());
            assert(orig[k].file != hit.2);
            assert(times_of(hits, orig[k].file) == times_of(extended, orig[k].file));
        } else {
            assert(songs@[k].times@ == times_of(hits, hit.2).push((hit.0, hit.1)));
        }
    }
    assert forall|f: usize| #[trigger] times_of(extended, f).len() > 0 implies exists|k: int|
        0 <= k < songs.len() && #[trigger] songs[k].file == f by {
        if f == hit.2 {
            assert(songs@[idx as int].file == f);
        } else {
            assert(times_of(hits, f).len() > 0);
            let k = choose|k: int| 0 <= k < orig.len() && #[trigger] orig[k].file == f;
            assert(songs@[k] == before[k]);
            assert(songs@[k].file == f);
        }
    }
    assert forall|k: int| 0 <= k < songs.len() implies #[trigger] times_of(extended, songs[k].file).len() > 0 by {
        if k != idx {
            assert(songs@[k] == before[k]);
        }
    }
    assert forall|k: int, l: int| 0 <= k < l < songs.len() implies #[trigger] songs[k].file != #[trigger] songs[l].file by {
        assert(songs@[k].file == before[k].file);
        assert(songs@[l].file == before[l].file);
    }
    assert forall|k: int| 0 <= k < songs.len() implies songs@[k].file == before[k].file by {}
}


/// Gathers the hits of a sample, entry after entry, per file.
fn gather_hits(entries: &[(u32, Couple)], db: &HashMap<u32, Vec<(Couple, usize)>>) -> (songs: Vec<SongHits>)
    ensures
        gathers(songs@, hits_of(entries@, db@)),
{
    broadcast use vstd::std_specs::hash::group_hash_axioms;

    let mut songs: Vec<SongHits> = Vec::new();
    let mut positions: HashMap<usize, usize> = HashMap::new();
    let mut k: usize = 0;
    assert(entries@.take(0) == Seq::<(u32, Couple)>::empty());
    while k < entries.len()
        invariant
            k <= entries.len(),
            gathers(songs@, hits_of(entries@.take(k as int), db@)),
            locates(positions@, songs@),
        decreases entries.len() - k,
    {
        let (address, couple) = entries[k];
        let ghost prefix = hits_of(entries@.take(k as int), db@);
        assert(entries@.take(k + 1).drop_last() == entries@.take(k as int));
        assert(entries@.take(k + 1).last() == (address, couple));
        match db.get(&address) {
            Some(indexed) => {
                let mut m: usize = 0;
                assert(prefix + couple_hits(couple, indexed@.take(0)) == prefix);
                while m < indexed.len()
                    invariant
                        m <= indexed.len(),
                        gathers(songs@, prefix + couple_hits(couple, indexed@.take(m as int))),
                        locates(positions@, songs@),
                    decreases indexed.len() - m,
                {
                    let (indexed_couple, file) = indexed[m];
                    let hit: Hit = (couple.anchor_time_ms, indexed_couple.anchor_time_ms, file);
                    let ghost so_far = prefix + couple_hits(couple, indexed@.take(m as int));
                    add_hit(&mut songs, &mut positions, hit, Ghost(so_far));
                    assert(prefix + couple_hits(couple, indexed@.take(m + 1)) == so_far.push(hit));
                    m = m + 1;
                }
                assert(indexed@.take(indexed.len() as int) == indexed@);
            },
            None => {
                assert(prefix + Seq::<Hit>::empty() == prefix);
            },
        }
        k = k + 1;
    }
    assert(entries@.take(entries.len() as int) == entries@);
    songs
}

/// Sorts matches by decreasing score, moving whole matches only.
fn sort_by_score(matches: &mut Vec<Match>)
    requires
        forall|k: int, l: int|
            0 <= k < l < old(matches).len() ==> #[trigger] old(matches)[k].file_index
                != #[trigger] old(matches)[l].file_index,
    ensures
        final(matches).len() == old(matches).len(),
        forall|k: int| 0 <= k < final(matches).len() ==> #[trigger] old(matches)@.contains(final(matches)[k]),
        forall|l: int| 0 <= l < old(matches).len() ==> #[trigger] final(matches)@.contains(old(matches)[l]),
        forall|k: int, l: int|
            0 <= k < l < final(matches).len() ==> #[trigger] final(matches)[k].file_index
                != #[trigger] final(matches)[l].file_index,
        forall|k: int, l: int|
            0 <= k < l < final(matches).len() ==> #[trigger] final(matches)[k].score
                >= #[trigger] final(matches)[l].score,
{
    let ghost orig = matches@;
    let n: usize = matches.len();
    let mut i: usize = 0;
    while i < n
        invariant
            i <= n,
            n == matches.len(),
            orig.len() == n,
            forall|k: int| 0 <= k < n ==> #[trigger] orig.contains(matches[k]),
            forall|l: int| 0 <= l < n ==> #[trigger] matches@.contains(orig[l]),
            forall|k: int, l: int| 0 <= k < l < n ==> #[trigger] matches[k].file_index != #[trigger] matches[l].file_index,
            forall|k: int, l: int| 0 <= k < l < i ==> #[trigger] matches[k].score >= #[trigger] matches[l].score,
        decreases n - i,
    {
        let mut j: usize = i;
        while j > 0 && matches[j - 1].score < matches[j].score
            invariant
                j <= i < n,
                n == matches.len(),
                orig.len() == n,
                forall|k: int| 0 <= k < n ==> #[trigger] orig.contains(matches[k]),
                forall|l: int| 0 <= l < n ==> #[trigger] matches@.contains(orig[l]),
                forall|k: int, l: int| 0 <= k < l < n ==> #[trigger] matches[k].file_index != #[trigger] matches[l].file_index,
                forall|k: int, l: int| 0 <= k < l <= i && k != j && l != j ==> #[trigger] matches[k].score >= #[trigger] matches[l].score,
                forall|l: int| j < l <= i ==> matches[j as int].score >= #[trigger] matches[l].score,
            decreases j,
        {
            let ghost before = matches@;
            let upper = matches[j - 1];
            let lower = matches[j];
            matches.set(j - 1, lower);
            matches.set(j, upper);
            assert forall|k: int| 0 <= k < n implies #[trigger] orig.contains(matches[k]) by {
                if k == j - 1 {
                    assert(before[j as int] == matches[k]);
                } else if k == j {
                    assert(before[j - 1] == matches[k]);
                } else {
                    assert(before[k] == matches[k]);
                }
            }
            assert forall|l: int| 0 <= l < n implies #[trigger] matches@.contains(orig[l]) by {
                assert(before.contains(orig[l]));
                let k = choose|k: int| 0 <= k < before.len() && before[k] == orig[l];
                if k == j - 1 {
                    assert(matches@[j as int] == orig[l]);
                } else if k == j {
                    assert(matches@[j - 1] == orig[l]);
                } else {
                    assert(matches@[k] == orig[l]);
                }
            }
            assert forall|k: int, l: int| 0 <= k < l < n implies #[trigger] matches[k].file_index != #[trigger] matches[l].file_index by {
                let kk = if k == j - 1 { j as int } else if k == j { j - 1 } else { k };
                let ll = if l == j - 1 { j as int } else if l == j { j - 1 } else { l };
                assert(matches[k] == before[kk]);
                assert(matches[l] == before[ll]);
                assert(kk != ll);
                if kk < ll {
                    assert(before[kk].file_index != before[ll].file_index);
                } else {
                    assert(before[ll].file_index != before[kk].file_index);
                }
            }
            j = j - 1;
        }
        i = i + 1;
    }
}

/// Turns the hits gathered per file into matches, best score first.
fn rank_gathered(songs: &Vec<SongHits>, Ghost(hits): Ghost<Seq<Hit>>) -> (matches: Vec<Match>)
    requires
        gathers(songs@, hits),
    ensures
        ranks_hits(matches@, hits),
{
    let mut matches: Vec<Match> = Vec::new();
    let mut k: usize = 0;
    while k < songs.len()
        invariant
            k <= songs.len(),
            gathers(songs@, hits),
            matches.len() == k,
            forall|i: int| 0 <= i < k ==> (#[trigger] matches[i]).file_index == songs@[i].file,
            forall|i: int|
                0 <= i < k ==> {
                    let times = #[trigger] times_of(hits, matches[i].file_index);
                    &&& times.len() > 0
                    &&& matches[i].score == saturated(pair_score(times))
                    &&& matches[i].timestamp == earliest(times)
                },
        decreases songs.len() - k,
    {
        let score: u64 = score_times(songs[k].times.as_slice());
        matches.push(Match { file_index: songs[k].file, score, timestamp: songs[k].timestamp });
        assert(times_of(hits, songs@[k as int].file).len() > 0);
        k = k + 1;
    }
    assert forall|f: usize| #[trigger] times_of(hits, f).len() > 0 implies exists|i: int|
        0 <= i < matches.len() && #[trigger] matches[i].file_index == f by {
        let i = choose|i: int| 0 <= i < songs.len() && #[trigger] songs@[i].file == f;
        assert(matches[i].file_index == f);
    }
    assert forall|i: int, l: int| 0 <= i < l < matches.len() implies #[trigger] matches[i].file_index != #[trigger] matches[l].file_index by {
        assert(songs@[i].file != songs@[l].file);
    }
    let ghost unsorted = matches@;
    sort_by_score(&mut matches);
    assert forall|i: int| 0 <= i < matches.len() implies {
        let times = #[trigger] times_of(hits, matches[i].file_index);
        &&& times.len() > 0
        &&& matches[i].score == saturated(pair_score(times))
        &&& matches[i].timestamp == earliest(times)
    } by {
        assert(unsorted.contains(matches[i]));
        let u = choose|u: int| 0 <= u < unsorted.len() && unsorted[u] == matches[i];
        assert(times_of(hits, unsorted[u].file_index).len() > 0);
    }
    assert forall|f: usize| #[trigger] times_of(hits, f).len() > 0 implies exists|i: int|
        0 <= i < matches.len() && #[trigger] matches[i].file_index == f by {
        let u = choose|u: int| 0 <= u < unsorted.len() && #[trigger] unsorted[u].file_index == f;
        assert(matches@.contains(unsorted[u]));
        let i = choose|i: int| 0 <= i < matches.len() && matches@[i] == unsorted[u];
        assert(matches[i].file_index == f);
    }
    matches
}

/// Ranks the indexed songs against a sample whose fingerprint entries are
/// walked in the order given.
pub fn rank_matches(entries: &[(u32, Couple)], db: &HashMap<u32, Vec<(Couple, usize)>>) -> (matches: Vec<Match>)
    ensures
        ranks_hits(matches@, hits_of(entries@, db@)),
{
    let songs = gather_hits(entries, db);
    rank_gathered(&songs, Ghost(hits_of(entries@, db@)))
}


/// `entries` walks every entry of `fingerprint` exactly once.
pub open spec fn walks(entries: Seq<(u32, Couple)>, fingerprint: Map<u32, Couple>) -> bool {
    &&& entries.len() == fingerprint.dom().len()
    &&& forall|k: int|
        0 <= k < entries.len() ==> fingerprint.contains_key(#[trigger] entries[k].0)
            && fingerprint[entries[k].0] == entries[k].1
    &&& forall|a: u32|
        #[trigger] fingerprint.contains_key(a) ==> exists|k: int|
            0 <= k < entries.len() && #[trigger] entries[k].0 == a
    &&& forall|k: int, l: int| 0 <= k < l < entries.len() ==> #[trigger] entries[k].0 != #[trigger] entries[l].0
}

/// Ranks the indexed songs against the fingerprint of a sample: the ranking
/// holds of the hits of every walk of the sample's entries.
pub fn find_matches(sample: &HashMap<u32, Couple>, db: &HashMap<u32, Vec<(Couple, usize)>>) -> (matches: Vec<Match>)
    ensures
        exists|entries: Seq<(u32, Couple)>| #[trigger] walks(entries, sample@),
        forall|entries: Seq<(u32, Couple)>|
            #[trigger] walks(entries, sample@) ==> ranks_hits(matches@, hits_of(entries, db@)),
{
    broadcast use vstd::std_specs::hash::group_hash_axioms;

    let ghost walk = vstd::std_specs::hash::spec_hash_map_iter(sample).remaining();
    let walker = sample.iter();
    assert(walk.no_duplicates());
    let mut entries: Vec<(u32, Couple)> = Vec::new();
    for pair in it: walker
        invariant
            it.seq() == walk,
            entries@ == walk.take(it.index() as int).map_values(|p: (&u32, &Couple)| (*p.0, *p.1)),
        ensures
            entries@ == walk.map_values(|p: (&u32, &Couple)| (*p.0, *p.1)),
    {
        entries.push((*pair.0, *pair.1));
    }
    assert(walk.len() == sample@.dom().len());
    assert forall|a: u32| #[trigger] sample@.contains_key(a) implies exists|k: int|
        0 <= k < entries@.len() && #[trigger] entries@[k].0 == a by {
        assert(walk.contains((&a, &sample@[a])));
        let k = choose|k: int| 0 <= k < walk.len() && walk[k] == (&a, &sample@[a]);
        assert(entries@[k].0 == a);
    }
    assert forall|k: int, l: int| 0 <= k < l < entries@.len() implies #[trigger] entries@[k].0 != #[trigger] entries@[l].0 by {
        if entries@[k].0 == entries@[l].0 {
            assert(sample@.contains_key(*walk[k].0) && sample@[*walk[k].0] == *walk[k].1);
            assert(sample@.contains_key(*walk[l].0) && sample@[*walk[l].0] == *walk[l].1);
            assert(walk[k] == walk[l]);
        }
    }
    assert(walks(entries@, sample@));
    let matches = rank_matches(entries.as_slice(), db);
    assert forall|other: Seq<(u32, Couple)>| #[trigger] walks(other, sample@) implies ranks_hits(matches@, hits_of(other, db@)) by {
        lemma_ranking_order_independent(entries@, other, sample@, db@, matches@);
    }
    matches
}


/// Agreement in time is symmetric.
pub proof fn lemma_coherent_symmetric(x: (u32, u32), y: (u32, u32))
    ensures
        coherent(x, y) == coherent(y, x),
{
}

/// Taking one element out of `times` lowers its agreement count with `y`
/// by one exactly when that element agrees with `y`.
proof fn lemma_count_remove(times: Seq<(u32, u32)>, p: int, y: (u32, u32))
    requires
        0 <= p < times.len(),
    ensures
        coherent_count(times, y) == coherent_count(times.remove(p), y) + if coherent(times[p], y) {
            1nat
        } else {
            0nat
        },
    decreases times.len(),
{
    if p == times.len() - 1 {
        assert(times.remove(p) == times.drop_last());
    } else {
        let prefix = times.drop_last();
        lemma_count_remove(prefix, p, y);
        assert(times.remove(p).drop_last() == prefix.remove(p));
        assert(times.remove(p).last() == times.last());
    }
}

/// Taking one element out of `times` lowers its score by the number of
/// remaining elements that agree with it.
proof fn lemma_score_remove(times: Seq<(u32, u32)>, p: int)
    requires
        0 <= p < times.len(),
    ensures
        pair_score(times) == pair_score(times.remove(p)) + coherent_count(times.remove(p), times[p]),
    decreases times.len(),
{
    if p == times.len() - 1 {
        assert(times.remove(p) == times.drop_last());
    } else {
        let prefix = times.drop_last();
        let x = times[p];
        let y = times.last();
        lemma_score_remove(prefix, p);
        assert(times.remove(p).drop_last() == prefix.remove(p));
        assert(times.remove(p).last() == y);
        assert(prefix[p] == x);
        lemma_count_remove(prefix, p, y);
        lemma_coherent_symmetric(x, y);
    }
}

/// The earliest song time of `times` is that of `times` without one element,
/// or that element's song time if earlier.
proof fn lemma_earliest_remove(times: Seq<(u32, u32)>, p: int)
    requires
        0 <= p < times.len(),
    ensures
        earliest(times) == if times[p].1 < earliest(times.remove(p)) {
            times[p].1
        } else {
            earliest(times.remove(p))
        },
    decreases times.len(),
{
    if p == times.len() - 1 {
        assert(times.remove(p) == times.drop_last());
    } else {
        let prefix = times.drop_last();
        lemma_earliest_remove(prefix, p);
        assert(times.remove(p).drop_last() == prefix.remove(p));
        assert(times.remove(p).last() == times.last());
        assert(prefix[p] == times[p]);
    }
}

/// Score, earliest time and agreement counts of a list of hits depend only
/// on which hits it holds, not on their order.
pub proof fn lemma_times_order_independent(a: Seq<(u32, u32)>, b: Seq<(u32, u32)>)
    requires
        a.to_multiset() == b.to_multiset(),
    ensures
        a.len() == b.len(),
        pair_score(a) == pair_score(b),
        earliest(a) == earliest(b),
        forall|y: (u32, u32)| #[trigger] coherent_count(a, y) == coherent_count(b, y),
    decreases a.len(),
{
    broadcast use vstd::seq_lib::group_to_multiset_ensures;
    broadcast use vstd::multiset::group_multiset_axioms;

    a.to_multiset_ensures();
    b.to_multiset_ensures();
    if a.len() == 0 {
        assert(b.len() == 0);
        assert(a == b);
    } else {
        let x = a.last();
        let rest = a.drop_last();
        assert(a == rest.push(x));
        rest.to_multiset_ensures();
        assert(b.to_multiset().count(x) > 0);
        assert(b.contains(x));
        let p = choose|p: int| 0 <= p < b.len() && b[p] == x;
        let others = b.remove(p);
        assert(rest.to_multiset() =~= others.to_multiset());
        lemma_times_order_independent(rest, others);
        lemma_score_remove(b, p);
        lemma_earliest_remove(b, p);
        assert forall|y: (u32, u32)| #[trigger] coherent_count(a, y) == coherent_count(b, y) by {
            lemma_count_remove(b, p, y);
            assert(coherent_count(rest, y) == coherent_count(others, y));
            assert(a.drop_last() == rest);
        }
    }
}

proof fn lemma_times_concat(first: Seq<Hit>, second: Seq<Hit>, file: usize)
    ensures
        times_of(first + second, file) == times_of(first, file) + times_of(second, file),
    decreases second.len(),
{
    if second.len() == 0 {
        assert(first + second == first);
    } else {
        lemma_times_concat(first, second.drop_last(), file);
        assert((first + second).drop_last() == first + second.drop_last());
    }
}

/// The hits of one file, as a multiset, are those of the walk without the
/// entry at `p` together with those of that entry.
proof fn lemma_hits_remove(entries: Seq<(u32, Couple)>, p: int, db: Map<u32, Vec<(Couple, usize)>>, file: usize)
    requires
        0 <= p < entries.len(),
    ensures
        times_of(hits_of(entries, db), file).to_multiset() == times_of(hits_of(entries.remove(p), db), file).to_multiset().add(
            times_of(entry_hits(entries[p], db), file).to_multiset(),
        ),
    decreases entries.len(),
{
    broadcast use vstd::seq_lib::lemma_multiset_commutative;
    broadcast use vstd::multiset::group_multiset_axioms;

    let rest = entries.drop_last();
    lemma_times_concat(hits_of(rest, db), entry_hits(entries.last(), db), file);
    if p == entries.len() - 1 {
        assert(entries.remove(p) == rest);
    } else {
        let removed = entries.remove(p);
        assert(removed.drop_last() == rest.remove(p));
        assert(removed.last() == entries.last());
        assert(rest[p] == entries[p]);
        lemma_hits_remove(rest, p, db, file);
        lemma_times_concat(hits_of(rest.remove(p), db), entry_hits(entries.last(), db), file);
        let a = times_of(hits_of(rest.remove(p), db), file).to_multiset();
        let b = times_of(entry_hits(entries[p], db), file).to_multiset();
        let c = times_of(entry_hits(entries.last(), db), file).to_multiset();
        assert(a.add(b).add(c) =~= a.add(c).add(b));
    }
}

/// Each entry of `a` is an entry of `b` and back, and neither repeats a key.
pub open spec fn same_entries(a: Seq<(u32, Couple)>, b: Seq<(u32, Couple)>) -> bool {
    &&& forall|k: int| 0 <= k < a.len() ==> #[trigger] b.contains(a[k])
    &&& forall|k: int| 0 <= k < b.len() ==> #[trigger] a.contains(b[k])
    &&& forall|k: int, l: int| 0 <= k < l < a.len() ==> #[trigger] a[k].0 != #[trigger] a[l].0
    &&& forall|k: int, l: int| 0 <= k < l < b.len() ==> #[trigger] b[k].0 != #[trigger] b[l].0
}

/// Two walks over the same entries give every file the same hits, up to order.
proof fn lemma_same_entries_same_times(
    a: Seq<(u32, Couple)>,
    b: Seq<(u32, Couple)>,
    db: Map<u32, Vec<(Couple, usize)>>,
    file: usize,
)
    requires
        same_entries(a, b),
    ensures
        times_of(hits_of(a, db), file).to_multiset() == times_of(hits_of(b, db), file).to_multiset(),
    decreases a.len(),
{
    broadcast use vstd::seq_lib::lemma_multiset_commutative;
    broadcast use vstd::multiset::group_multiset_axioms;

    if a.len() == 0 {
        if b.len() > 0 {
            assert(a.contains(b[0]));
        }
        assert(b.len() == 0);
        assert(a == b);
    } else {
        let x = a.last();
        let rest = a.drop_last();
        assert(b.contains(a[a.len() - 1]));
        let p = choose|p: int| 0 <= p < b.len() && b[p] == x;
        let others = b.remove(p);
        assert forall|k: int| 0 <= k < rest.len() implies #[trigger] others.contains(rest[k]) by {
            assert(rest[k] == a[k]);
            assert(b.contains(a[k]));
            let l = choose|l: int| 0 <= l < b.len() && b[l] == a[k];
            assert(a[k].0 != a[a.len() - 1].0);
            if l < p {
                assert(others[l] == b[l]);
            } else {
                assert(l != p);
                assert(others[l - 1] == b[l]);
            }
        }
        assert forall|k: int| 0 <= k < others.len() implies #[trigger] rest.contains(others[k]) by {
            let l = if k < p { k } else { k + 1 };
            assert(others[k] == b[l]);
            assert(a.contains(b[l]));
            let j = choose|j: int| 0 <= j < a.len() && a[j] == b[l];
            assert(b[l].0 != b[p].0);
            assert(j != a.len() - 1);
            assert(rest[j] == a[j]);
        }
        assert forall|k: int, l: int| 0 <= k < l < rest.len() implies #[trigger] rest[k].0 != #[trigger] rest[l].0 by {
            assert(rest[k] == a[k] && rest[l] == a[l]);
        }
        assert forall|k: int, l: int| 0 <= k < l < others.len() implies #[trigger] others[k].0 != #[trigger] others[l].0 by {
            let kk = if k < p { k } else { k + 1 };
            let ll = if l < p { l } else { l + 1 };
            assert(others[k] == b[kk] && others[l] == b[ll]);
        }
        lemma_same_entries_same_times(rest, others, db, file);
        lemma_hits_remove(a, a.len() - 1, db, file);
        assert(a.remove(a.len() - 1) == rest);
        lemma_hits_remove(b, p, db, file);
    }
}

/// Two walks of the same fingerprint hold the same entries.
proof fn lemma_walks_same_entries(a: Seq<(u32, Couple)>, b: Seq<(u32, Couple)>, sample: Map<u32, Couple>)
    requires
        walks(a, sample),
        walks(b, sample),
    ensures
        same_entries(a, b),
{
    assert forall|k: int| 0 <= k < a.len() implies #[trigger] b.contains(a[k]) by {
        assert(sample.contains_key(a[k].0));
        let l = choose|l: int| 0 <= l < b.len() && #[trigger] b[l].0 == a[k].0;
        assert(b[l] == a[k]);
    }
    assert forall|k: int| 0 <= k < b.len() implies #[trigger] a.contains(b[k]) by {
        assert(sample.contains_key(b[k].0));
        let l = choose|l: int| 0 <= l < a.len() && #[trigger] a[l].0 == b[k].0;
        assert(a[l] == b[k]);
    }
}

/// The ranking of a sample holds of every walk of its fingerprint once it
/// holds of one: the order in which the fingerprint is walked does not
/// matter.
pub proof fn lemma_ranking_order_independent(
    a: Seq<(u32, Couple)>,
    b: Seq<(u32, Couple)>,
    sample: Map<u32, Couple>,
    db: Map<u32, Vec<(Couple, usize)>>,
    matches: Seq<Match>,
)
    requires
        walks(a, sample),
        walks(b, sample),
        ranks_hits(matches, hits_of(a, db)),
    ensures
        ranks_hits(matches, hits_of(b, db)),
{
    lemma_walks_same_entries(a, b, sample);
    assert forall|f: usize| #![trigger times_of(hits_of(b, db), f)] {
        let ta = times_of(hits_of(a, db), f);
        let tb = times_of(hits_of(b, db), f);
        &&& ta.len() == tb.len()
        &&& pair_score(ta) == pair_score(tb)
        &&& earliest(ta) == earliest(tb)
    } by {
        lemma_same_entries_same_times(a, b, db, f);
        lemma_times_order_independent(times_of(hits_of(a, db), f), times_of(hits_of(b, db), f));
    }
    assert forall|f: usize| #[trigger] times_of(hits_of(b, db), f).len() > 0 implies exists|k: int|
        0 <= k < matches.len() && #[trigger] matches[k].file_index == f by {
        assert(times_of(hits_of(a, db), f).len() > 0);
    }
    assert forall|k: int| 0 <= k < matches.len() implies {
        let times = #[trigger] times_of(hits_of(b, db), matches[k].file_index);
        &&& times.len() > 0
        &&& matches[k].score == saturated(pair_score(times))
        &&& matches[k].timestamp == earliest(times)
    } by {
        assert(times_of(hits_of(a, db), matches[k].file_index).len() > 0);
    }
}


/// Two lists of hits agree pair by pair in time: then their agreement
/// counts with corresponding elements agree.
proof fn lemma_count_same_coherence(a: Seq<(u32, u32)>, b: Seq<(u32, u32)>, y: (u32, u32), z: (u32, u32))
    requires
        a.len() == b.len(),
        forall|i: int| 0 <= i < a.len() ==> coherent(#[trigger] a[i], y) == coherent(b[i], z),
    ensures
        coherent_count(a, y) == coherent_count(b, z),
    decreases a.len(),
{
    if a.len() > 0 {
        let (pa, pb) = (a.drop_last(), b.drop_last());
        assert forall|i: int| 0 <= i < pa.len() implies coherent(#[trigger] pa[i], y) == coherent(pb[i], z) by {
            assert(pa[i] == a[i] && pb[i] == b[i]);
        }
        lemma_count_same_coherence(pa, pb, y, z);
        assert(coherent(a[a.len() - 1], y) == coherent(b[a.len() - 1], z));
    }
}

/// Two lists of hits whose elements agree in time pair by pair as each
/// other's do have the same score.
proof fn lemma_score_same_coherence(a: Seq<(u32, u32)>, b: Seq<(u32, u32)>)
    requires
        a.len() == b.len(),
        forall|i: int, j: int|
            0 <= i < a.len() && 0 <= j < a.len() ==> coherent(#[trigger] a[i], #[trigger] a[j]) == coherent(b[i], b[j]),
    ensures
        pair_score(a) == pair_score(b),
    decreases a.len(),
{
    if a.len() > 0 {
        let (pa, pb) = (a.drop_last(), b.drop_last());
        let last = a.len() - 1;
        assert forall|i: int, j: int|
            0 <= i < pa.len() && 0 <= j < pa.len() implies coherent(#[trigger] pa[i], #[trigger] pa[j]) == coherent(pb[i], pb[j]) by {
            assert(pa[i] == a[i] && pa[j] == a[j] && pb[i] == b[i] && pb[j] == b[j]);
            assert(coherent(a[i], a[j]) == coherent(b[i], b[j]));
        }
        lemma_score_same_coherence(pa, pb);
        assert forall|i: int| 0 <= i < pa.len() implies coherent(#[trigger] pa[i], a[last]) == coherent(pb[i], b[last]) by {
            assert(pa[i] == a[i] && pb[i] == b[i]);
            assert(coherent(a[i], a[last]) == coherent(b[i], b[last]));
        }
        lemma_count_same_coherence(pa, pb, a[last], b[last]);
    }
}

/// Two lists of hits with the same song times have the same earliest time.
proof fn lemma_earliest_same_song_times(a: Seq<(u32, u32)>, b: Seq<(u32, u32)>)
    requires
        a.len() == b.len(),
        forall|i: int| 0 <= i < a.len() ==> (#[trigger] a[i]).1 == b[i].1,
    ensures
        earliest(a) == earliest(b),
    decreases a.len(),
{
    if a.len() > 0 {
        let (pa, pb) = (a.drop_last(), b.drop_last());
        assert forall|i: int| 0 <= i < pa.len() implies (#[trigger] pa[i]).1 == pb[i].1 by {
            assert(pa[i] == a[i] && pb[i] == b[i]);
        }
        lemma_earliest_same_song_times(pa, pb);
        assert(a[a.len() - 1].1 == b[a.len() - 1].1);
    }
}

/// Song times moved `k` ms later.
pub open spec fn later_song_times(times: Seq<(u32, u32)>, k: u32) -> Seq<(u32, u32)> {
    times.map_values(|t: (u32, u32)| (t.0, (t.1 + k) as u32))
}

/// Moving every song time `k` ms later (none past `u32::MAX`) moves the
/// earliest one `k` ms later.
proof fn lemma_earliest_later(times: Seq<(u32, u32)>, k: u32)
    requires
        times.len() > 0,
        forall|i: int| 0 <= i < times.len() ==> (#[trigger] times[i]).1 + k <= u32::MAX,
    ensures
        earliest(later_song_times(times, k)) == earliest(times) + k,
    decreases times.len(),
{
    let moved = later_song_times(times, k);
    let prefix = times.drop_last();
    assert(moved.drop_last() =~= later_song_times(prefix, k));
    assert(moved.last() == (times.last().0, (times.last().1 + k) as u32));
    assert(times[times.len() - 1].1 + k <= u32::MAX);
    let last = times.last().1;
    let moved_rest = earliest(later_song_times(prefix, k));
    let rest = earliest(prefix);
    assert(earliest(moved) == if last + k < moved_rest { (last + k) as u32 } else { moved_rest });
    assert(earliest(times) == if last < rest { last } else { rest });
    if prefix.len() > 0 {
        assert forall|i: int| 0 <= i < prefix.len() implies (#[trigger] prefix[i]).1 + k <= u32::MAX by {
            assert(prefix[i] == times[i]);
        }
        lemma_earliest_later(prefix, k);
    } else {
        assert(later_song_times(prefix, k) =~= Seq::<(u32, u32)>::empty());
        assert(moved_rest == u32::MAX && rest == u32::MAX);
    }
}

/// A hit of `file` with its song time moved `k` ms later.
pub open spec fn later_hit(hit: Hit, file: usize, k: u32) -> Hit {
    if hit.2 == file {
        (hit.0, (hit.1 + k) as u32, hit.2)
    } else {
        hit
    }
}

/// An indexed couple of `file` with its anchor time moved `k` ms later.
pub open spec fn later_entry(entry: (Couple, usize), file: usize, k: u32) -> (Couple, usize) {
    if entry.1 == file {
        (Couple { anchor_time_ms: (entry.0.anchor_time_ms + k) as u32, song_id: entry.0.song_id }, entry.1)
    } else {
        entry
    }
}

/// `moved` is `db` with every indexed couple of `file` moved `k` ms later,
/// none past `u32::MAX`.
pub open spec fn file_moved_later(
    db: Map<u32, Vec<(Couple, usize)>>,
    moved: Map<u32, Vec<(Couple, usize)>>,
    file: usize,
    k: u32,
) -> bool {
    &&& forall|a: u32| #[trigger] db.contains_key(a) <==> moved.contains_key(a)
    &&& forall|a: u32|
        #[trigger] db.contains_key(a) ==> moved[a]@ == db[a]@.map_values(|e: (Couple, usize)| later_entry(e, file, k))
    &&& forall|a: u32, i: int|
        db.contains_key(a) && 0 <= i < db[a]@.len() && (#[trigger] db[a]@[i]).1 == file ==> db[a]@[i].0.anchor_time_ms + k
            <= u32::MAX
}

proof fn lemma_hits_file_later(
    entries: Seq<(u32, Couple)>,
    db: Map<u32, Vec<(Couple, usize)>>,
    moved: Map<u32, Vec<(Couple, usize)>>,
    file: usize,
    k: u32,
)
    requires
        file_moved_later(db, moved, file, k),
    ensures
        hits_of(entries, moved) == hits_of(entries, db).map_values(|h: Hit| later_hit(h, file, k)),
        forall|i: int|
            0 <= i < hits_of(entries, db).len() && (#[trigger] hits_of(entries, db)[i]).2 == file ==> hits_of(entries, db)[i].1
                + k <= u32::MAX,
    decreases entries.len(),
{
    if entries.len() > 0 {
        let prefix = entries.drop_last();
        let (address, couple) = entries.last();
        lemma_hits_file_later(prefix, db, moved, file, k);
        let before = entry_hits(entries.last(), db);
        let after = entry_hits(entries.last(), moved);
        assert(after =~= before.map_values(|h: Hit| later_hit(h, file, k))) by {
            if db.contains_key(address) {
                assert(moved[address]@ == db[address]@.map_values(|e: (Couple, usize)| later_entry(e, file, k)));
            }
        }
        let earlier = hits_of(prefix, db);
        assert(hits_of(entries, db) == earlier + before);
        assert((earlier + before).map_values(|h: Hit| later_hit(h, file, k)) =~= earlier.map_values(
            |h: Hit| later_hit(h, file, k),
        ) + before.map_values(|h: Hit| later_hit(h, file, k)));
        assert forall|i: int|
            0 <= i < hits_of(entries, db).len() && (#[trigger] hits_of(entries, db)[i]).2 == file implies hits_of(
                entries,
                db,
            )[i].1 + k <= u32::MAX by {
            if i < earlier.len() {
                assert(hits_of(entries, db)[i] == earlier[i]);
            } else {
                let m = i - earlier.len();
                assert(hits_of(entries, db)[i] == before[m]);
                assert(db.contains_key(address));
                assert(before[m].1 == db[address]@[m].0.anchor_time_ms);
                assert(db[address]@[m].1 == file);
            }
        }
    }
}

proof fn lemma_times_file_later(hits: Seq<Hit>, file: usize, k: u32, f: usize)
    ensures
        times_of(hits.map_values(|h: Hit| later_hit(h, file, k)), f) == if f == file {
            later_song_times(times_of(hits, f), k)
        } else {
            times_of(hits, f)
        },
    decreases hits.len(),
{
    let moved = hits.map_values(|h: Hit| later_hit(h, file, k));
    if hits.len() == 0 {
        assert(later_song_times(Seq::<(u32, u32)>::empty(), k) == Seq::<(u32, u32)>::empty());
    } else {
        let prefix = hits.drop_last();
        lemma_times_file_later(prefix, file, k, f);
        assert(moved.drop_last() == prefix.map_values(|h: Hit| later_hit(h, file, k)));
        assert(moved.last() == later_hit(hits.last(), file, k));
        if f == file {
            let t = times_of(prefix, f);
            let h = hits.last();
            assert(later_song_times(t.push((h.0, h.1)), k) == later_song_times(t, k).push((h.0, (h.1 + k) as u32)));
        }
    }
}

proof fn lemma_times_bound(hits: Seq<Hit>, file: usize, k: u32)
    requires
        forall|i: int| 0 <= i < hits.len() && (#[trigger] hits[i]).2 == file ==> hits[i].1 + k <= u32::MAX,
    ensures
        forall|i: int| 0 <= i < times_of(hits, file).len() ==> (#[trigger] times_of(hits, file)[i]).1 + k <= u32::MAX,
    decreases hits.len(),
{
    if hits.len() > 0 {
        let prefix = hits.drop_last();
        assert forall|i: int| 0 <= i < prefix.len() && (#[trigger] prefix[i]).2 == file implies prefix[i].1 + k <= u32::MAX by {
            assert(prefix[i] == hits[i]);
        }
        lemma_times_bound(prefix, file, k);
        assert(hits[hits.len() - 1] == hits.last());
        let t = times_of(prefix, file);
        assert forall|i: int| 0 <= i < times_of(hits, file).len() implies (#[trigger] times_of(hits, file)[i]).1 + k <= u32::MAX by {
            if i < t.len() {
                assert(times_of(hits, file)[i] == t[i]);
            }
        }
    }
}

/// The hits of one file after its couples moved `k` ms later: as many, the
/// same score, and the earliest time moved `k` ms later; other files keep
/// theirs.
proof fn lemma_file_later_times(
    entries: Seq<(u32, Couple)>,
    db: Map<u32, Vec<(Couple, usize)>>,
    moved: Map<u32, Vec<(Couple, usize)>>,
    file: usize,
    k: u32,
    f: usize,
)
    requires
        file_moved_later(db, moved, file, k),
    ensures
        ({
            let t = times_of(hits_of(entries, db), f);
            let u = times_of(hits_of(entries, moved), f);
            &&& u.len() == t.len()
            &&& pair_score(u) == pair_score(t)
            &&& u.len() > 0 ==> earliest(u) == if f == file {
                earliest(t) + k
            } else {
                earliest(t) as int
            }
        }),
{
    lemma_hits_file_later(entries, db, moved, file, k);
    let old_hits = hits_of(entries, db);
    lemma_times_bound(old_hits, file, k);
    lemma_times_file_later(old_hits, file, k, f);
    let t = times_of(old_hits, f);
    let u = times_of(hits_of(entries, moved), f);
    if f == file {
        assert forall|i: int, j: int|
            0 <= i < u.len() && 0 <= j < u.len() implies coherent(#[trigger] u[i], #[trigger] u[j]) == coherent(t[i], t[j]) by {
            assert(t[i].1 + k <= u32::MAX && t[j].1 + k <= u32::MAX);
        }
        lemma_score_same_coherence(u, t);
        if u.len() > 0 {
            lemma_earliest_later(t, k);
        }
    }
}

/// `after` is `before` for the same file, with the same score and the
/// timestamp moved `k` ms later if the file is `file`.
pub open spec fn moved_match(before: Match, after: Match, file: usize, k: u32) -> bool {
    &&& after.file_index == before.file_index
    &&& after.score == before.score
    &&& after.timestamp == if before.file_index == file {
        before.timestamp + k
    } else {
        before.timestamp as int
    }
}

/// Some match of `matches` is `m` moved as `moved_match` says.
pub open spec fn has_moved_match(matches: Seq<Match>, m: Match, file: usize, k: u32) -> bool {
    exists|j: int| 0 <= j < matches.len() && moved_match(m, #[trigger] matches[j], file, k)
}

/// Some match of `matches` is for `file`.
pub open spec fn lists_file(matches: Seq<Match>, file: usize) -> bool {
    exists|i: int| 0 <= i < matches.len() && (#[trigger] matches[i]).file_index == file
}

/// Moving every indexed couple of one file `k` ms later keeps every score,
/// moves that file's timestamp `k` ms later and leaves every other match as
/// it is: the two rankings hold the same files, each with the same score.
pub proof fn lemma_file_moved_later(
    entries: Seq<(u32, Couple)>,
    db: Map<u32, Vec<(Couple, usize)>>,
    moved: Map<u32, Vec<(Couple, usize)>>,
    file: usize,
    k: u32,
    before: Seq<Match>,
    after: Seq<Match>,
)
    requires
        file_moved_later(db, moved, file, k),
        ranks_hits(before, hits_of(entries, db)),
        ranks_hits(after, hits_of(entries, moved)),
    ensures
        forall|i: int| 0 <= i < before.len() ==> has_moved_match(after, #[trigger] before[i], file, k),
        forall|j: int| 0 <= j < after.len() ==> lists_file(before, (#[trigger] after[j]).file_index),
{
    let old_hits = hits_of(entries, db);
    let new_hits = hits_of(entries, moved);
    assert forall|i: int| 0 <= i < before.len() implies has_moved_match(after, #[trigger] before[i], file, k) by {
        let f = before[i].file_index;
        lemma_file_later_times(entries, db, moved, file, k, f);
        assert(times_of(old_hits, f).len() > 0);
        assert(times_of(new_hits, f).len() > 0);
        let j = choose|j: int| 0 <= j < after.len() && #[trigger] after[j].file_index == f;
        assert(times_of(new_hits, after[j].file_index).len() > 0);
        assert(after[j].score == saturated(pair_score(times_of(new_hits, f))));
        assert(before[i].score == saturated(pair_score(times_of(old_hits, f))));
        assert(moved_match(before[i], after[j], file, k));
    }
    assert forall|j: int| 0 <= j < after.len() implies lists_file(before, (#[trigger] after[j]).file_index) by {
        let f = after[j].file_index;
        lemma_file_later_times(entries, db, moved, file, k, f);
        assert(times_of(new_hits, f).len() > 0);
        assert(times_of(old_hits, f).len() > 0);
        let i = choose|i: int| 0 <= i < before.len() && #[trigger] before[i].file_index == f;
        assert(before[i].file_index == after[j].file_index);
    }
}


/// `moved` is the walk `entries` with every sample anchor time moved `k` ms
/// later (so none past `u32::MAX`).
pub open spec fn sample_moved_later(entries: Seq<(u32, Couple)>, moved: Seq<(u32, Couple)>, k: u32) -> bool {
    &&& moved.len() == entries.len()
    &&& forall|i: int|
        0 <= i < entries.len() ==> {
            &&& (#[trigger] moved[i]).0 == entries[i].0
            &&& moved[i].1.song_id == entries[i].1.song_id
            &&& moved[i].1.anchor_time_ms == entries[i].1.anchor_time_ms + k
        }
}

/// A hit with its sample time moved `k` ms later.
pub open spec fn later_sample_hit(hit: Hit, k: u32) -> Hit {
    ((hit.0 + k) as u32, hit.1, hit.2)
}

proof fn lemma_hits_sample_later(entries: Seq<(u32, Couple)>, moved: Seq<(u32, Couple)>, k: u32, db: Map<u32, Vec<(Couple, usize)>>)
    requires
        sample_moved_later(entries, moved, k),
    ensures
        hits_of(moved, db) == hits_of(entries, db).map_values(|h: Hit| later_sample_hit(h, k)),
        forall|i: int| 0 <= i < hits_of(entries, db).len() ==> (#[trigger] hits_of(entries, db)[i]).0 + k <= u32::MAX,
    decreases entries.len(),
{
    if entries.len() > 0 {
        let prefix = entries.drop_last();
        let moved_prefix = moved.drop_last();
        assert forall|i: int| 0 <= i < prefix.len() implies {
            &&& (#[trigger] moved_prefix[i]).0 == prefix[i].0
            &&& moved_prefix[i].1.song_id == prefix[i].1.song_id
            &&& moved_prefix[i].1.anchor_time_ms == prefix[i].1.anchor_time_ms + k
        } by {
            assert(moved_prefix[i] == moved[i] && prefix[i] == entries[i]);
        }
        lemma_hits_sample_later(prefix, moved_prefix, k, db);
        let last = entries.len() - 1;
        assert(moved[last].0 == entries[last].0);
        let before = entry_hits(entries.last(), db);
        let after = entry_hits(moved.last(), db);
        assert(after =~= before.map_values(|h: Hit| later_sample_hit(h, k)));
        let earlier = hits_of(prefix, db);
        assert(hits_of(entries, db) == earlier + before);
        assert(hits_of(moved, db) == hits_of(moved_prefix, db) + after);
        assert((earlier + before).map_values(|h: Hit| later_sample_hit(h, k)) =~= earlier.map_values(
            |h: Hit| later_sample_hit(h, k),
        ) + before.map_values(|h: Hit| later_sample_hit(h, k)));
        assert forall|i: int| 0 <= i < hits_of(entries, db).len() implies (#[trigger] hits_of(entries, db)[i]).0 + k
            <= u32::MAX by {
            if i < earlier.len() {
                assert(hits_of(entries, db)[i] == earlier[i]);
            } else {
                assert(hits_of(entries, db)[i] == before[i - earlier.len()]);
            }
        }
    }
}

proof fn lemma_times_sample_later(hits: Seq<Hit>, k: u32, f: usize)
    requires
        forall|i: int| 0 <= i < hits.len() ==> (#[trigger] hits[i]).0 + k <= u32::MAX,
    ensures
        ({
            let t = times_of(hits, f);
            let u = times_of(hits.map_values(|h: Hit| later_sample_hit(h, k)), f);
            &&& u.len() == t.len()
            &&& forall|i: int| 0 <= i < t.len() ==> (#[trigger] u[i]).0 == t[i].0 + k && u[i].1 == t[i].1
        }),
    decreases hits.len(),
{
    if hits.len() > 0 {
        let prefix = hits.drop_last();
        assert forall|i: int| 0 <= i < prefix.len() implies (#[trigger] prefix[i]).0 + k <= u32::MAX by {
            assert(prefix[i] == hits[i]);
        }
        lemma_times_sample_later(prefix, k, f);
        let moved = hits.map_values(|h: Hit| later_sample_hit(h, k));
        assert(moved.drop_last() == prefix.map_values(|h: Hit| later_sample_hit(h, k)));
        assert(moved.last() == later_sample_hit(hits.last(), k));
        assert(hits[hits.len() - 1] == hits.last());
        let t0 = times_of(prefix, f);
        let u0 = times_of(prefix.map_values(|h: Hit| later_sample_hit(h, k)), f);
        let t = times_of(hits, f);
        let u = times_of(moved, f);
        assert forall|i: int| 0 <= i < t.len() implies (#[trigger] u[i]).0 == t[i].0 + k && u[i].1 == t[i].1 by {
            if i < t0.len() {
                assert(u[i] == u0[i] && t[i] == t0[i]);
            }
        }
    }
}

/// Moving every anchor time of the sample `k` ms later changes no match:
/// both rankings hold the same matches.
pub proof fn lemma_sample_moved_later(
    entries: Seq<(u32, Couple)>,
    moved: Seq<(u32, Couple)>,
    k: u32,
    db: Map<u32, Vec<(Couple, usize)>>,
    before: Seq<Match>,
    after: Seq<Match>,
)
    requires
        sample_moved_later(entries, moved, k),
        ranks_hits(before, hits_of(entries, db)),
        ranks_hits(after, hits_of(moved, db)),
    ensures
        forall|i: int| 0 <= i < before.len() ==> after.contains(#[trigger] before[i]),
        forall|j: int| 0 <= j < after.len() ==> before.contains(#[trigger] after[j]),
{
    lemma_hits_sample_later(entries, moved, k, db);
    let old_hits = hits_of(entries, db);
    let new_hits = hits_of(moved, db);
    assert forall|f: usize| #![trigger times_of(new_hits, f)] #![trigger times_of(old_hits, f)] {
        let t = times_of(old_hits, f);
        let u = times_of(new_hits, f);
        &&& u.len() == t.len()
        &&& pair_score(u) == pair_score(t)
        &&& earliest(u) == earliest(t)
    } by {
        lemma_times_sample_later(old_hits, k, f);
        let t = times_of(old_hits, f);
        let u = times_of(new_hits, f);
        assert forall|i: int, j: int|
            0 <= i < u.len() && 0 <= j < u.len() implies coherent(#[trigger] u[i], #[trigger] u[j]) == coherent(t[i], t[j]) by {}
        lemma_score_same_coherence(u, t);
        assert forall|i: int| 0 <= i < u.len() implies (#[trigger] u[i]).1 == t[i].1 by {}
        lemma_earliest_same_song_times(u, t);
    }
    assert forall|i: int| 0 <= i < before.len() implies after.contains(#[trigger] before[i]) by {
        let f = before[i].file_index;
        assert(times_of(old_hits, f).len() > 0);
        assert(times_of(new_hits, f).len() > 0);
        let j = choose|j: int| 0 <= j < after.len() && #[trigger] after[j].file_index == f;
        assert(times_of(new_hits, after[j].file_index).len() > 0);
        assert(after[j] == before[i]);
    }
    assert forall|j: int| 0 <= j < after.len() implies before.contains(#[trigger] after[j]) by {
        let f = after[j].file_index;
        assert(times_of(new_hits, f).len() > 0);
        assert(times_of(old_hits, f).len() > 0);
        let i = choose|i: int| 0 <= i < before.len() && #[trigger] before[i].file_index == f;
        assert(times_of(old_hits, before[i].file_index).len() > 0);
        assert(before[i] == after[j]);
    }
}


/// Two hits agree in time: the absolute distance between their sample times
/// and the absolute distance between their song times differ by less than
/// 100 ms. Written out apart from the scoring functions.
pub open spec fn agree_in_time(x: (u32, u32), y: (u32, u32)) -> bool {
    let sample_distance: int = if x.0 >= y.0 { x.0 - y.0 } else { y.0 - x.0 };
    let song_distance: int = if x.1 >= y.1 { x.1 - y.1 } else { y.1 - x.1 };
    -100 < sample_distance - song_distance < 100
}

proof fn lemma_count_is_filter(times: Seq<(u32, u32)>, y: (u32, u32))
    ensures
        coherent_count(times, y) == times.filter(|x: (u32, u32)| agree_in_time(x, y)).len(),
    decreases times.len(),
{
    if times.len() > 0 {
        let prefix = times.drop_last();
        lemma_count_is_filter(prefix, y);
        assert(times == prefix.push(times.last()));
        prefix.lemma_filter_len_push(|x: (u32, u32)| agree_in_time(x, y), times.last());
    }
}

/// The score of no hits is zero, and adding a hit to a list adds to its score
/// the number of hits already in the list that agree with it in time.
pub proof fn lemma_score_push(times: Seq<(u32, u32)>, y: (u32, u32))
    ensures
        pair_score(Seq::<(u32, u32)>::empty()) == 0,
        pair_score(times.push(y)) == pair_score(times) + times.filter(|x: (u32, u32)| agree_in_time(x, y)).len(),
{
    assert(times.push(y).drop_last() == times);
    lemma_count_is_filter(times, y);
}

/// A list of two hits scores one when they agree in time and zero when they
/// do not.
pub proof fn lemma_score_of_two_hits(x: (u32, u32), y: (u32, u32))
    ensures
        pair_score(seq![x, y]) == if agree_in_time(x, y) {
            1nat
        } else {
            0nat
        },
{
    let one = seq![x];
    assert(seq![x, y] == one.push(y));
    assert(one == Seq::<(u32, u32)>::empty().push(x));
    lemma_score_push(Seq::<(u32, u32)>::empty(), x);
    lemma_score_push(one, y);
    assert(Seq::<(u32, u32)>::empty().filter(|z: (u32, u32)| agree_in_time(z, x)).len() == 0);
    Seq::<(u32, u32)>::empty().lemma_filter_len_push(|z: (u32, u32)| agree_in_time(z, y), x);
}

} // verus!
