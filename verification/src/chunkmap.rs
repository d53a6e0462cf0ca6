//! A sparse mapping from chunk coordinate to block grid, backed by an
//! association vector with unique keys.
use vstd::prelude::*;
use crate::CHUNK_VOL;
use crate::grid::BlockType;
use crate::grid::BlockGrid;

verus! {

/// One coordinate/grid pair of the map.
pub struct ChunkEntry {
    pub key: (i32, i32),
    pub grid: BlockGrid,
}

/// The mathematical map an entry sequence denotes: later entries win, though
/// a well-formed map never repeats a key.
pub open spec fn map_of(s: Seq<ChunkEntry>) -> Map<(i32, i32), Seq<BlockType>>
    decreases s.len(),
{
    if s.len() == 0 {
        Map::empty()
    } else {
        map_of(s.drop_last()).insert(s.last().key, s.last().grid@)
    }
}

/// A key occurs in the entry sequence.
pub open spec fn has_key(s: Seq<ChunkEntry>, k: (i32, i32)) -> bool {
    exists|i: int| 0 <= i < s.len() && s[i].key == k
}

proof fn lemma_map_of_contains(s: Seq<ChunkEntry>, k: (i32, i32))
    ensures
        map_of(s).contains_key(k) <==> has_key(s, k),
    decreases s.len(),
{
    if s.len() > 0 {
        lemma_map_of_contains(s.drop_last(), k);
        if s.last().key == k {
            assert(s[s.len() - 1].key == k);
        } else {
            if has_key(s, k) {
                let i = choose|i: int| 0 <= i < s.len() && s[i].key == k;
                assert(s.drop_last()[i] == s[i]);
            }
            if has_key(s.drop_last(), k) {
                let i = choose|i: int| 0 <= i < s.drop_last().len() && s.drop_last()[i].key == k;
                assert(s[i].key == k);
            }
        }
    }
}

proof fn lemma_map_of_at(s: Seq<ChunkEntry>, i: int)
    requires
        0 <= i < s.len(),
        forall|j: int| i < j < s.len() ==> s[i].key != s[j].key,
    ensures
        map_of(s).contains_key(s[i].key),
        map_of(s)[s[i].key] == s[i].grid@,
    decreases s.len(),
{
    if i == s.len() - 1 {
    } else {
        assert(s.drop_last()[i] == s[i]);
        lemma_map_of_at(s.drop_last(), i);
    }
}

proof fn lemma_map_of_push(s: Seq<ChunkEntry>, e: ChunkEntry)
    ensures
        map_of(s.push(e)) == map_of(s).insert(e.key, e.grid@),
{
    assert(s.push(e).drop_last() =~= s);
    assert(s.push(e).last() == e);
}

proof fn lemma_map_of_remove(s: Seq<ChunkEntry>, i: int)
    requires
        0 <= i < s.len(),
        forall|j: int| 0 <= j < s.len() && j != i ==> s[j].key != s[i].key,
    ensures
        map_of(s.remove(i)) == map_of(s).remove(s[i].key),
    decreases s.len(),
{
    let k = s[i].key;
    if i == s.len() - 1 {
        assert(s.remove(i) =~= s.drop_last());
        lemma_map_of_contains(s.drop_last(), k);
        assert(!has_key(s.drop_last(), k)) by {
            if has_key(s.drop_last(), k) {
                let j = choose|j: int|
                    0 <= j < s.drop_last().len() && s.drop_last()[j].key == k;
                assert(s[j].key == k);
            }
        }
        assert(map_of(s.drop_last()).insert(k, s.last().grid@).remove(k)
            =~= map_of(s.drop_last()));
    } else {
        assert(s.remove(i).drop_last() =~= s.drop_last().remove(i));
        assert(s.remove(i).last() == s.last());
        assert(forall|j: int|
            0 <= j < s.drop_last().len() && j != i
                ==> s.drop_last()[j].key != s.drop_last()[i].key);
        assert(s.drop_last()[i] == s[i]);
        lemma_map_of_remove(s.drop_last(), i);
        assert(s.last().key != k);
        assert(map_of(s.drop_last()).remove(k).insert(s.last().key, s.last().grid@)
            =~= map_of(s.drop_last()).insert(s.last().key, s.last().grid@).remove(k));
    }
}

/// Coordinate-keyed storage of chunk grids with no repeated coordinate.
pub struct ChunkMap {
    entries: Vec<ChunkEntry>,
}

impl ChunkMap {
    /// The map as a mathematical `Map` from coordinate to cell sequence.
    pub closed spec fn view(&self) -> Map<(i32, i32), Seq<BlockType>> {
        map_of(self.entries@)
    }

    /// Keys are unique and every stored grid is well formed.
    pub closed spec fn wf(&self) -> bool {
        (forall|i: int, j: int|
            0 <= i < j < self.entries@.len()
                ==> #[trigger] self.entries@[i].key != #[trigger] self.entries@[j].key)
        && (forall|i: int| 0 <= i < self.entries@.len() ==> #[trigger] self.entries@[i].grid.wf())
    }

    /// Every grid a well-formed map holds has one cell per coordinate.
    pub proof fn lemma_wf_values(&self, k: (i32, i32))
        requires
            self.wf(),
            self@.contains_key(k),
        ensures
            self@[k].len() == CHUNK_VOL,
    {
        lemma_map_of_contains(self.entries@, k);
        let i = choose|i: int| 0 <= i < self.entries@.len() && self.entries@[i].key == k;
        lemma_map_of_at(self.entries@, i);
        assert(self.entries@[i].grid.wf());
    }

    /// An empty map.
    pub fn new() -> (r: ChunkMap)
        ensures
            r.wf(),
            r@ == Map::<(i32, i32), Seq<BlockType>>::empty(),
    {
        ChunkMap { entries: Vec::new() }
    }

    /// Position of the entry holding `k`, if any.
    fn find(&self, k: (i32, i32)) -> (r: Option<usize>)
        requires
            self.wf(),
        ensures
            match r {
                Some(i) => i < self.entries@.len() && self.entries@[i as int].key == k
                    && self@.contains_key(k)
                    && self@[k] == self.entries@[i as int].grid@,
                None => !self@.contains_key(k),
            },
    {
        let n = self.entries.len();
        let mut i: usize = 0;
        while i < n
            invariant
                self.wf(),
                n == self.entries@.len(),
                i <= n,
                forall|j: int| 0 <= j < i ==> self.entries@[j].key != k,
            decreases n - i,
        {
            let e = &self.entries[i];
            if e.key.0 == k.0 && e.key.1 == k.1 {
                proof {
                    lemma_map_of_at(self.entries@, i as int);
                }
                return Some(i);
            }
            i = i + 1;
        }
        proof {
            lemma_map_of_contains(self.entries@, k);
        }
        None
    }

    /// Whether a coordinate is present.
    pub fn contains(&self, k: (i32, i32)) -> (r: bool)
        requires
            self.wf(),
        ensures
            r == self@.contains_key(k),
    {
        self.find(k).is_some()
    }

    /// Borrow the grid stored under `k`, if present.
    pub fn get(&self, k: (i32, i32)) -> (r: Option<&BlockGrid>)
        requires
            self.wf(),
        ensures
            match r {
                Some(g) => self@.contains_key(k) && g@ == self@[k] && g.wf(),
                None => !self@.contains_key(k),
            },
    {
        match self.find(k) {
            Some(i) => Some(&self.entries[i].grid),
            None => None,
        }
    }

    /// Insert a grid under `k`, replacing any previous entry.
    pub fn insert(&mut self, k: (i32, i32), grid: BlockGrid)
        requires
            old(self).wf(),
            grid.wf(),
        ensures
            final(self).wf(),
            final(self)@ == old(self)@.insert(k, grid@),
    {
        match self.find(k) {
            Some(i) => {
                let ghost s0 = self.entries@;
                proof {
                    lemma_map_of_remove(s0, i as int);
                }
                let _replaced = self.entries.remove(i);
                let ghost s1 = self.entries@;
                self.entries.push(ChunkEntry { key: k, grid });
                proof {
                    lemma_map_of_push(s1, ChunkEntry { key: k, grid });
                    assert(forall|a: int| 0 <= a < s1.len() ==> #[trigger] s1[a]
                        == if a < i { s0[a] } else { s0[a + 1] });
                    assert(map_of(s0).remove(k).insert(k, grid@)
                        =~= map_of(s0).insert(k, grid@));
                }
            },
            None => {
                let ghost s0 = self.entries@;
                self.entries.push(ChunkEntry { key: k, grid });
                proof {
                    lemma_map_of_push(s0, ChunkEntry { key: k, grid });
                    lemma_map_of_contains(s0, k);
                }
            },
        }
    }

    /// Remove and return the grid under `k`; the entry is consumed.
    pub fn remove(&mut self, k: (i32, i32)) -> (r: Option<BlockGrid>)
        requires
            old(self).wf(),
        ensures
            final(self).wf(),
            match r {
                Some(g) => old(self)@.contains_key(k) && g@ == old(self)@[k] && g.wf()
                    && final(self)@ == old(self)@.remove(k),
                None => !old(self)@.contains_key(k) && final(self)@ == old(self)@
                    && *final(self) == *old(self),
            },
    {
        match self.find(k) {
            Some(i) => {
                let ghost s0 = self.entries@;
                proof {
                    lemma_map_of_remove(s0, i as int);
                }
                let e = self.entries.remove(i);
                proof {
                    assert(forall|a: int| 0 <= a < self.entries@.len()
                        ==> #[trigger] self.entries@[a]
                            == if a < i { s0[a] } else { s0[a + 1] });
                }
                Some(e.grid)
            },
            None => None,
        }
    }
}

} // verus!
