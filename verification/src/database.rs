use std::collections::{HashMap, HashSet};
use vstd::prelude::*;
use vstd::std_specs::iter::IteratorSpec;

use crate::models::Couple;

verus! {

/// The fingerprints of the indexed files, as maps.
pub open spec fn fingerprint_views(files: Seq<HashMap<u32, Couple>>) -> Seq<Map<u32, Couple>> {
    files.map_values(|file: HashMap<u32, Couple>| file@)
}

/// The indexed couples stored under `address`: for every file, in file
/// order, the couple that the file holds under `address` together with the
/// file's position, provided `address` is one of the requested addresses.
pub open spec fn indexed_couples(addresses: Seq<u32>, files: Seq<Map<u32, Couple>>, address: u32) -> Seq<(Couple, usize)>
    decreases files.len(),
{
    if files.len() == 0 {
        Seq::empty()
    } else {
        let rest = indexed_couples(addresses, files.drop_last(), address);
        let file = files.last();
        if addresses.contains(address) && file.contains_key(address) {
            rest.push((file[address], (files.len() - 1) as usize))
        } else {
            rest
        }
    }
}

/// `db` holds under each address exactly its indexed couples, and no other
/// address.
pub open spec fn indexes(db: Map<u32, Vec<(Couple, usize)>>, addresses: Seq<u32>, files: Seq<Map<u32, Couple>>) -> bool {
    forall|address: u32|
        #![trigger db.contains_key(address)]
        #![trigger indexed_couples(addresses, files, address)]
        {
            let expected = indexed_couples(addresses, files, address);
            &&& db.contains_key(address) <==> expected.len() > 0
            &&& db.contains_key(address) ==> db[address]@ == expected
        }
}

/// The keys among the first `n` entries of a walk over a map.
spec fn walked_keys(walk: Seq<(&u32, &Couple)>, n: int) -> Set<u32> {
    Set::new(|a: u32| exists|j: int| 0 <= j < n && *walk[j].0 == a)
}

/// `db` indexes `done`, and of `current` (the file at position `position`)
/// the entries whose keys are in `walked`.
spec fn indexes_partly(
    db: Map<u32, Vec<(Couple, usize)>>,
    addresses: Seq<u32>,
    done: Seq<Map<u32, Couple>>,
    current: Map<u32, Couple>,
    walked: Set<u32>,
    position: usize,
) -> bool {
    forall|address: u32|
        #![trigger db.contains_key(address)]
        #![trigger indexed_couples(addresses, done, address)]
        {
            let expected = indexed_couples(addresses, done, address) + if addresses.contains(address)
                && walked.contains(address) && current.contains_key(address) {
                seq![(current[address], position)]
            } else {
                Seq::empty()
            };
            &&& db.contains_key(address) <==> expected.len() > 0
            &&& db.contains_key(address) ==> db[address]@ == expected
        }
}

/// Every indexed couple under `address` comes from a file that holds it
/// under that address, `address` is one of the requested addresses, and
/// files appear in increasing position, each at most once. There are indexed
/// couples under `address` exactly when it is requested and some file holds
/// it.
pub proof fn lemma_indexed_couples(addresses: Seq<u32>, files: Seq<Map<u32, Couple>>, address: u32)
    requires
        files.len() <= usize::MAX,
    ensures
        forall|i: int|
            0 <= i < indexed_couples(addresses, files, address).len() ==> {
                let (couple, position) = #[trigger] indexed_couples(addresses, files, address)[i];
                &&& addresses.contains(address)
                &&& position < files.len()
                &&& files[position as int].contains_key(address)
                &&& files[position as int][address] == couple
            },
        forall|i: int, j: int|
            0 <= i < j < indexed_couples(addresses, files, address).len() ==> (#[trigger] indexed_couples(
                addresses,
                files,
                address,
            )[i]).1 < (#[trigger] indexed_couples(addresses, files, address)[j]).1,
        indexed_couples(addresses, files, address).len() > 0 <==> addresses.contains(address) && exists|f: int|
            0 <= f < files.len() && #[trigger] files[f].contains_key(address),
    decreases files.len(),
{
    if files.len() > 0 {
        let prefix = files.drop_last();
        lemma_indexed_couples(addresses, prefix, address);
        let before = indexed_couples(addresses, prefix, address);
        let now = indexed_couples(addresses, files, address);
        let grows = addresses.contains(address) && files.last().contains_key(address);
        assert(now == if grows {
            before.push((files.last()[address], (files.len() - 1) as usize))
        } else {
            before
        });
        assert forall|i: int| 0 <= i < now.len() implies {
            let (couple, position) = #[trigger] now[i];
            &&& addresses.contains(address)
            &&& position < files.len()
            &&& files[position as int].contains_key(address)
            &&& files[position as int][address] == couple
        } by {
            if i < before.len() {
                assert(now[i] == before[i]);
                assert(files[before[i].1 as int] == prefix[before[i].1 as int]);
            } else {
                assert(now[i] == (files.last()[address], (files.len() - 1) as usize));
            }
        }
        assert forall|i: int, j: int| 0 <= i < j < now.len() implies (#[trigger] now[i]).1 < (#[trigger] now[j]).1 by {
            assert(now[i] == before[i]);
            assert(before[i].1 < prefix.len());
            if j < before.len() {
                assert(now[j] == before[j]);
            } else {
                assert(now[j] == (files.last()[address], (files.len() - 1) as usize));
            }
        }
        if addresses.contains(address) && (exists|f: int| 0 <= f < files.len() && #[trigger] files[f].contains_key(address)) {
            let f = choose|f: int| 0 <= f < files.len() && #[trigger] files[f].contains_key(address);
            if f < files.len() - 1 {
                assert(prefix[f] == files[f]);
            }
        }
        if before.len() > 0 {
            let f = choose|f: int| 0 <= f < prefix.len() && #[trigger] prefix[f].contains_key(address);
            assert(files[f] == prefix[f]);
        }
    }
}

/// The index misses nothing: under a requested address, every file that
/// holds the address contributes its couple and its position, so there are
/// as many indexed couples as files holding the address (and none under an
/// address that was not requested).
pub proof fn lemma_indexed_couples_complete(addresses: Seq<u32>, files: Seq<Map<u32, Couple>>, address: u32)
    requires
        files.len() <= usize::MAX,
    ensures
        forall|f: int|
            0 <= f < files.len() && addresses.contains(address) && #[trigger] files[f].contains_key(address)
                ==> indexed_couples(addresses, files, address).contains((files[f][address], f as usize)),
        indexed_couples(addresses, files, address).len() == if addresses.contains(address) {
            files.filter(|file: Map<u32, Couple>| file.contains_key(address)).len()
        } else {
            0
        },
    decreases files.len(),
{
    if files.len() > 0 {
        let prefix = files.drop_last();
        lemma_indexed_couples_complete(addresses, prefix, address);
        let before = indexed_couples(addresses, prefix, address);
        let now = indexed_couples(addresses, files, address);
        let last = files.last();
        let grows = addresses.contains(address) && last.contains_key(address);
        assert(now == if grows {
            before.push((last[address], (files.len() - 1) as usize))
        } else {
            before
        });
        assert(files == prefix.push(last));
        prefix.lemma_filter_len_push(|file: Map<u32, Couple>| file.contains_key(address), last);
        assert forall|f: int|
            0 <= f < files.len() && addresses.contains(address) && #[trigger] files[f].contains_key(address)
                implies now.contains((files[f][address], f as usize)) by {
            if f < prefix.len() {
                assert(prefix[f] == files[f]);
                assert(prefix[f].contains_key(address));
                let i = choose|i: int| 0 <= i < before.len() && before[i] == (prefix[f][address], f as usize);
                assert(now[i] == before[i]);
            } else {
                assert(now[now.len() - 1] == (files[f][address], f as usize));
            }
        }
    }
}

/// Indexes the couples of the given files, keeping only the requested
/// addresses; a file is named by its position in `files`.
pub fn get_db_couples(addresses: &[u32], files: &[HashMap<u32, Couple>]) -> (db: HashMap<u32, Vec<(Couple, usize)>>)
    ensures
        indexes(db@, addresses@, fingerprint_views(files@)),
        forall|f: int, address: u32|
            0 <= f < files.len() && addresses@.contains(address) && #[trigger] files@[f]@.contains_key(address) ==> {
                &&& db@.contains_key(address)
                &&& db@[address]@.contains((files@[f]@[address], f as usize))
            },
{
    broadcast use vstd::std_specs::hash::group_hash_axioms;

    let mut address_set: HashSet<u32> = HashSet::new();
    let mut k: usize = 0;
    while k < addresses.len()
        invariant
            k <= addresses.len(),
            forall|a: u32| #[trigger] address_set@.contains(a) <==> addresses@.take(k as int).contains(a),
        decreases addresses.len() - k,
    {
        let ghost before = address_set@;
        address_set.insert(addresses[k]);
        let ghost prev = addresses@.take(k as int);
        let ghost next = addresses@.take(k + 1);
        assert(next == prev.push(addresses@[k as int]));
        assert forall|a: u32| #[trigger] address_set@.contains(a) <==> next.contains(a) by {
            if prev.contains(a) {
                let j = choose|j: int| 0 <= j < prev.len() && prev[j] == a;
                assert(next[j] == a);
            }
            if a == addresses@[k as int] {
                assert(next[k as int] == a);
            }
            if next.contains(a) && a != addresses@[k as int] {
                let j = choose|j: int| 0 <= j < next.len() && next[j] == a;
                assert(prev[j] == a);
            }
        }
        k = k + 1;
    }
    assert(addresses@.take(addresses.len() as int) == addresses@);

    let ghost views = fingerprint_views(files@);
    let mut db: HashMap<u32, Vec<(Couple, usize)>> = HashMap::new();
    let mut f: usize = 0;
    assert(views.take(0) == Seq::<Map<u32, Couple>>::empty());
    while f < files.len()
        invariant
            f <= files.len(),
            views == fingerprint_views(files@),
            forall|a: u32| #[trigger] address_set@.contains(a) <==> addresses@.contains(a),
            indexes(db@, addresses@, views.take(f as int)),
        decreases files.len() - f,
    {
        let file = &files[f];
        let ghost done = views.take(f as int);
        let ghost walk = IteratorSpec::remaining(&vstd::std_specs::hash::spec_hash_map_iter(file));
        let walker = file.iter();
        assert(walk.no_duplicates());
        assert(walked_keys(walk, 0) == Set::<u32>::empty());
        for pair in it: walker
            invariant
                it.seq() == walk,
                walk == IteratorSpec::remaining(&vstd::std_specs::hash::spec_hash_map_iter(file)),
                walk.no_duplicates(),
                forall|a: u32| #[trigger] address_set@.contains(a) <==> addresses@.contains(a),
                indexes_partly(db@, addresses@, done, file@, walked_keys(walk, it.index() as int), f),
            ensures
                indexes_partly(db@, addresses@, done, file@, walked_keys(walk, walk.len() as int), f),
        {
            let ghost j = it.index() as int;
            let address = *pair.0;
            let couple = *pair.1;
            assert(0 <= j < walk.len());
            assert(walk[j] == pair);
            assert(file@.contains_key(address) && file@[address] == couple);
            assert(!walked_keys(walk, j).contains(address)) by {
                if walked_keys(walk, j).contains(address) {
                    let i = choose|i: int| 0 <= i < j && *walk[i].0 == address;
                    assert(walk[i] == walk[j]);
                }
            }
            assert(walked_keys(walk, j + 1) == walked_keys(walk, j).insert(address)) by {
                assert forall|a: u32| walked_keys(walk, j + 1).contains(a) implies walked_keys(walk, j).insert(address).contains(a) by {
                    let i = choose|i: int| 0 <= i < j + 1 && *walk[i].0 == a;
                    if i < j {
                        assert(walked_keys(walk, j).contains(a));
                    }
                }
                assert forall|a: u32| walked_keys(walk, j).insert(address).contains(a) implies walked_keys(walk, j + 1).contains(a) by {
                    if a == address {
                        assert(*walk[j].0 == a);
                    } else {
                        let i = choose|i: int| 0 <= i < j && *walk[i].0 == a;
                        assert(*walk[i].0 == a);
                    }
                }
            }
            if address_set.contains(&address) {
                let mut list: Vec<(Couple, usize)> = match db.remove(&address) {
                    Some(list) => list,
                    None => Vec::new(),
                };
                list.push((couple, f));
                db.insert(address, list);
            }
        }
        assert(walked_keys(walk, walk.len() as int) =~= file@.dom()) by {
            assert forall|a: u32| walked_keys(walk, walk.len() as int).contains(a) implies file@.dom().contains(a) by {
                let i = choose|i: int| 0 <= i < walk.len() && *walk[i].0 == a;
                assert(file@.contains_key(*walk[i].0));
            }
            assert forall|a: u32| file@.dom().contains(a) implies walked_keys(walk, walk.len() as int).contains(a) by {
                assert(walk.contains((&a, &file@[a])));
                let i = choose|i: int| 0 <= i < walk.len() && walk[i] == (&a, &file@[a]);
                assert(*walk[i].0 == a);
            }
        }
        assert(views.take(f + 1).drop_last() == done);
        assert(views.take(f + 1).last() == file@);
        assert forall|address: u32|
            #![trigger db@.contains_key(address)]
            #![trigger indexed_couples(addresses@, views.take(f + 1), address)]
            {
                let expected = indexed_couples(addresses@, views.take(f + 1), address);
                &&& db@.contains_key(address) <==> expected.len() > 0
                &&& db@.contains_key(address) ==> db@[address]@ == expected
            } by {}
        f = f + 1;
    }
    assert(views.take(files.len() as int) == views);
    assert forall|g: int, address: u32|
        0 <= g < files.len() && addresses@.contains(address) && #[trigger] files@[g]@.contains_key(address) implies {
            &&& db@.contains_key(address)
            &&& db@[address]@.contains((files@[g]@[address], g as usize))
        } by {
        lemma_indexed_couples_complete(addresses@, views, address);
        assert(views[g] == files@[g]@);
        assert(indexed_couples(addresses@, views, address).contains((files@[g]@[address], g as usize)));
        assert(db@.contains_key(address));
    }
    db
}

} // verus!
