use vstd::prelude::*;
use core::marker::PhantomData;

use crate::chunk_map::{chunk_lookup, Chunk, ChunkLocation, ChunkMap};
use crate::navigation::OutOfMemory;
use crate::pos_map::PosMap;
use crate::position::Position;

verus! {

/// The chunks of `entries`, by location; a later entry for a location wins.
pub open spec fn entry_map<C>(entries: Seq<(ChunkLocation, C)>) -> Map<(int, int), C>
    decreases entries.len(),
{
    if entries.len() == 0 {
        Map::empty()
    } else {
        entry_map(entries.drop_last()).insert(entries.last().0@, entries.last().1)
    }
}

/// No location occurs twice among `entries`.
pub open spec fn distinct_locations<C>(entries: Seq<(ChunkLocation, C)>) -> bool {
    forall|i: int, j: int|
        0 <= i < j < entries.len() ==> #[trigger] entries[i].0@ != #[trigger] entries[j].0@
}

/// A location is held exactly where some entry has it, with that entry's chunk.
proof fn lemma_entry_map<C>(entries: Seq<(ChunkLocation, C)>)
    requires
        distinct_locations(entries),
    ensures
        forall|l: (int, int)|
            #[trigger] entry_map(entries).contains_key(l) <==> exists|i: int|
                0 <= i < entries.len() && entries[i].0@ == l,
        forall|i: int|
            0 <= i < entries.len() ==> #[trigger] entry_map(entries)[entries[i].0@] == entries[i].1,
    decreases entries.len(),
{
    if entries.len() > 0 {
        let init = entries.drop_last();
        assert forall|i: int, j: int| 0 <= i < j < init.len() implies #[trigger] init[i].0@ != #[trigger] init[j].0@ by {
            assert(init[i] == entries[i] && init[j] == entries[j]);
        }
        lemma_entry_map(init);
        assert forall|l: (int, int)|
            #[trigger] entry_map(entries).contains_key(l) implies exists|i: int|
                0 <= i < entries.len() && entries[i].0@ == l by {
            if l != entries.last().0@ {
                assert(entry_map(init).contains_key(l));
                let i = choose|i: int| 0 <= i < init.len() && init[i].0@ == l;
                assert(entries[i] == init[i]);
            }
        }
        assert forall|l: (int, int)|
            (exists|i: int| 0 <= i < entries.len() && entries[i].0@ == l) implies #[trigger] entry_map(
            entries,
        ).contains_key(l) by {
            let i = choose|i: int| 0 <= i < entries.len() && entries[i].0@ == l;
            if i < init.len() {
                assert(init[i] == entries[i]);
                assert(entry_map(init).contains_key(init[i].0@));
            }
        }
        assert forall|i: int| 0 <= i < entries.len() implies #[trigger] entry_map(
            entries,
        )[entries[i].0@] == entries[i].1 by {
            if i < init.len() {
                assert(init[i] == entries[i]);
                assert(entries[i].0@ != entries[entries.len() - 1].0@);
                assert(entry_map(init)[init[i].0@] == init[i].1);
            }
        }
    }
}

/// Replacing the chunk of an entry replaces it in the map.
proof fn lemma_entry_map_update<C>(entries: Seq<(ChunkLocation, C)>, i: int, c: C)
    requires
        distinct_locations(entries),
        0 <= i < entries.len(),
    ensures
        entry_map(entries.update(i, (entries[i].0, c))) == entry_map(entries).insert(entries[i].0@, c),
    decreases entries.len(),
{
    let e = (entries[i].0, c);
    let updated = entries.update(i, e);
    if i == entries.len() - 1 {
        assert(updated.drop_last() =~= entries.drop_last());
    } else {
        let init = entries.drop_last();
        lemma_entry_map_update(init, i, c);
        assert(updated.drop_last() =~= init.update(i, e));
        assert(entries[i].0@ != entries.last().0@);
        assert(entry_map(updated) =~= entry_map(entries).insert(entries[i].0@, c));
    }
}

/// A map of positions to values held in chunks of 8 by 8 cells, at most `N` chunks.
pub struct ChunkMapHash<const N: usize, T, C: Chunk<T>> {
    data: Vec<(ChunkLocation, C)>,
    _phantom: PhantomData<T>,
}

impl<const N: usize, T, C: Chunk<T>> ChunkMapHash<N, T, C> {
    /// A map without chunks.
    pub fn new() -> (r: Self)
        ensures
            r.wf(),
            r.chunks() == Map::<(int, int), C>::empty(),
    {
        Self { data: Vec::new(), _phantom: PhantomData }
    }

    /// Every chunk has its place among the entries.
    proof fn lemma_chunks(&self)
        requires
            self.wf(),
        ensures
            forall|l: (int, int)|
                #[trigger] self.chunks().contains_key(l) <==> exists|i: int|
                    0 <= i < self.data@.len() && self.data@[i].0@ == l,
            forall|i: int|
                0 <= i < self.data@.len() ==> #[trigger] self.chunks()[self.data@[i].0@]
                    == self.data@[i].1,
    {
        lemma_entry_map(self.data@);
    }

    /// The index of the entry for `location`, if there is one.
    fn find(&self, location: ChunkLocation) -> (r: Option<usize>)
        requires
            self.wf(),
        ensures
            r is None <==> !self.chunks().contains_key(location@),
            r matches Some(i) ==> i < self.data@.len() && self.data@[i as int].0@ == location@,
    {
        proof {
            self.lemma_chunks();
        }
        let mut i: usize = 0;
        while i < self.data.len()
            invariant
                i <= self.data@.len(),
                self.wf(),
                forall|j: int| 0 <= j < i ==> self.data@[j].0@ != location@,
            decreases self.data@.len() - i,
        {
            if self.data[i].0 == location {
                proof {
                    self.lemma_chunks();
                    assert(self.data@[i as int].0@ == location@);
                    assert(self.chunks().contains_key(self.data@[i as int].0@));
                }
                return Some(i);
            }
            proof {
                if self.data@[i as int].0@ == location@ {
                    ChunkLocation::lemma_view_injective(self.data@[i as int].0, location);
                }
            }
            i = i + 1;
        }
        None
    }
}

impl<const N: usize, T, C: Chunk<T>> Default for ChunkMapHash<N, T, C> {
    fn default() -> (r: Self)
        ensures
            r.wf(),
            r.chunks() == Map::<(int, int), C>::empty(),
    {
        Self::new()
    }
}

impl<const N: usize, T, C: Chunk<T>> ChunkMap<T, C> for ChunkMapHash<N, T, C> {
    closed spec fn wf(&self) -> bool {
        &&& self.data@.len() <= N
        &&& distinct_locations(self.data@)
    }

    closed spec fn chunks(&self) -> Map<(int, int), C> {
        entry_map(self.data@)
    }

    closed spec fn has_room(&self) -> bool {
        self.data@.len() < N
    }

    open spec fn room_when_clear() -> bool {
        0 < N
    }

    fn get_chunk_mut_or_new(&mut self, location: ChunkLocation) -> (r: Result<&mut C, OutOfMemory>) {
        let ghost before = self.data@;
        proof {
            lemma_entry_map(before);
        }
        let i = match self.find(location) {
            Some(i) => i,
            None => {
                if self.data.len() >= N {
                    return Err(OutOfMemory);
                }
                self.data.push((location, C::new()));
                proof {
                    assert(self.data@.drop_last() =~= before);
                    assert forall|a: int, b: int| 0 <= a < b < self.data@.len() implies #[trigger] self.data@[a].0@
                        != #[trigger] self.data@[b].0@ by {
                        if b == before.len() {
                            assert(self.data@[a] == before[a]);
                        } else {
                            assert(self.data@[a] == before[a]);
                            assert(self.data@[b] == before[b]);
                        }
                    }
                    lemma_entry_map(self.data@);
                }
                self.data.len() - 1
            },
        };
        let ghost mid = self.data@;
        proof {
            lemma_entry_map(mid);
            ChunkLocation::lemma_view_injective(mid[i as int].0, location);
            broadcast use lemma_entry_map_update_broadcast;
        }
        let entry = &mut self.data[i];
        Ok(&mut entry.1)
    }

    fn get_chunk(&self, location: ChunkLocation) -> (r: Option<&C>) {
        proof {
            self.lemma_chunks();
        }
        match self.find(location) {
            Some(i) => Some(&self.data[i].1),
            None => None,
        }
    }

    fn clear(&mut self) {
        self.data.clear();
        assert(entry_map(self.data@) =~= Map::<(int, int), C>::empty());
    }
}

/// Replacing the chunk of an entry replaces it in the map, for every entry and chunk.
broadcast proof fn lemma_entry_map_update_broadcast<C>(entries: Seq<(ChunkLocation, C)>, i: int, c: C)
    requires
        distinct_locations(entries),
        0 <= i < entries.len(),
    ensures
        #[trigger] entry_map(entries.update(i, (entries[i].0, c))) == entry_map(entries).insert(
            entries[i].0@,
            c,
        ),
{
    lemma_entry_map_update(entries, i, c);
}

impl<const N: usize, T, C: Chunk<T>> PosMap<T> for ChunkMapHash<N, T, C> {
    closed spec fn valid(&self) -> bool {
        ChunkMap::wf(self)
    }

    closed spec fn lookup(&self, pos: (int, int)) -> Option<T> {
        chunk_lookup(ChunkMap::chunks(self), pos)
    }

    open spec fn blank() -> T {
        C::blank()
    }

    closed spec fn accepts(&self, pos: (int, int)) -> bool {
        ChunkMap::has_room(self) || ChunkMap::chunks(self).contains_key(ChunkLocation::of(pos))
    }

    open spec fn accepts_when_clear() -> bool {
        0 < N
    }

    fn set(&mut self, pos: Position, t: T) -> (r: Result<(), T>) {
        self.set_value(pos, t)
    }

    fn get(&self, pos: Position) -> (r: Option<T>) {
        self.get_value(pos)
    }

    fn clear(&mut self) {
        ChunkMap::clear(self)
    }
}

} // verus!
