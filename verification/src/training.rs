use std::collections::HashMap;
use vstd::prelude::*;

use crate::fingerprint::{fingerprint_of, generate_fingerprint};
use crate::models::{Couple, PeakPair};

verus! {

/// Draws a `u32` from the thread-local generator of `rand`
/// (`rand::rng()` then `Rng::random::<u32>()`). Nothing is claimed of the
/// value: it comes from a generator seeded by the operating system. Left
/// unsaid: `rand::rng()` panics when that seeding fails.
#[verifier::external_body]
fn random_u32() -> u32 {
    let mut generator = rand::rng();
    rand::Rng::random::<u32>(&mut generator)
}

/// Draws a random song id.
pub fn generate_unique_id() -> (id: u32) {
    random_u32()
}

/// A song to index: the name of its audio file and the couples of peaks
/// found in it.
pub struct TrainingSong {
    pub file_name: String,
    pub pairs: Vec<PeakPair>,
}

/// An indexed song: where its fingerprint is stored and the fingerprint.
pub struct TrainedSong {
    pub path: String,
    pub fingerprint: HashMap<u32, Couple>,
}

/// The directory that holds the stored fingerprints.
pub open spec fn hashes_dir() -> Seq<char> {
    seq!['.', '/', 'h', 'a', 's', 'h', 'e', 's', '/']
}

/// `fingerprint` is the fingerprint of the couples `pairs` under some song id.
pub open spec fn fingerprint_of_some_id(fingerprint: Map<u32, Couple>, pairs: Seq<PeakPair>) -> bool {
    exists|id: u32| fingerprint == fingerprint_of(pairs, id)
}

/// Fingerprints every song under a freshly drawn song id and names the file
/// it is stored in after the song's audio file.
pub fn train(songs: &[TrainingSong]) -> (trained: Vec<TrainedSong>)
    ensures
        trained.len() == songs.len(),
        forall|k: int|
            0 <= k < songs.len() ==> (#[trigger] trained[k]).path@ == hashes_dir() + songs[k].file_name@,
        forall|k: int|
            0 <= k < songs.len() ==> fingerprint_of_some_id((#[trigger] trained[k]).fingerprint@, songs[k].pairs@),
{
    let mut trained: Vec<TrainedSong> = Vec::new();
    let mut k: usize = 0;
    while k < songs.len()
        invariant
            k <= songs.len(),
            trained.len() == k,
            forall|i: int| 0 <= i < k ==> (#[trigger] trained[i]).path@ == hashes_dir() + songs[i].file_name@,
            forall|i: int|
                0 <= i < k ==> fingerprint_of_some_id((#[trigger] trained[i]).fingerprint@, songs[i].pairs@),
        decreases songs.len() - k,
    {
        let song = &songs[k];
        let id: u32 = generate_unique_id();
        let fingerprint = generate_fingerprint(song.pairs.as_slice(), id);
        let mut path = String::from_str("./hashes/");
        proof {
            reveal_strlit("./hashes/");
        }
        assert(path@ == hashes_dir());
        path.append(song.file_name.as_str());
        let ghost before = trained@;
        trained.push(TrainedSong { path, fingerprint });
        assert forall|i: int| 0 <= i < k + 1 implies fingerprint_of_some_id((#[trigger] trained[i]).fingerprint@, songs[i].pairs@) by {
            if i == k {
                assert(trained[i].fingerprint@ == fingerprint_of(songs[i].pairs@, id));
            } else {
                assert(trained[i] == before[i]);
            }
        }
        k = k + 1;
    }
    trained
}

} // verus!
