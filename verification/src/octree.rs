//! Sparse storage for the nodes of an octree, keyed by address.

use crate::address::{GridCell, NodeAddress};
use std::collections::HashMap;
use vstd::prelude::*;

verus! {

broadcast use vstd::std_specs::hash::group_hash_axioms;

/// Why an octree could not be made.
#[derive(Clone, Copy, Debug, PartialEq, Eq, Structural)]
pub enum OctreeError {
    /// A tree needs one level at least.
    InvalidHeight,
}

/// What `get_or_insert` found at an address, with the slot of the node.
#[derive(Clone, Copy, Debug, PartialEq, Eq, Structural)]
pub enum NodeEntry {
    /// The node was there already.
    Occupied(usize),
    /// The node was put in by this call.
    Inserted(usize),
}

impl NodeEntry {
    /// The slot of the node, whichever way it came to be there.
    pub open spec fn spec_slot(&self) -> usize {
        match *self {
            NodeEntry::Occupied(s) => s,
            NodeEntry::Inserted(s) => s,
        }
    }

    /// The slot of the node, whichever way it came to be there.
    #[verifier::when_used_as_spec(spec_slot)]
    pub fn slot(&self) -> (s: usize)
        ensures
            s == self.spec_slot(),
    {
        match *self {
            NodeEntry::Occupied(s) => s,
            NodeEntry::Inserted(s) => s,
        }
    }

    /// Whether the node was put in by the call that gave this entry.
    pub open spec fn spec_is_fresh(&self) -> bool {
        *self is Inserted
    }

    /// Whether the node was put in by the call that gave this entry.
    #[verifier::when_used_as_spec(spec_is_fresh)]
    pub fn is_fresh(&self) -> (b: bool)
        ensures
            b == self.spec_is_fresh(),
    {
        match *self {
            NodeEntry::Occupied(_) => false,
            NodeEntry::Inserted(_) => true,
        }
    }
}

/// The number under which an address is indexed: level and coordinates,
/// each coordinate moved into `[0, 2^32)`, written in base `2^32`.
pub open spec fn key_of(c: GridCell) -> int {
    ((c.level * 0x1_0000_0000 + (c.x + 0x8000_0000)) * 0x1_0000_0000 + (c.y + 0x8000_0000))
        * 0x1_0000_0000 + (c.z + 0x8000_0000)
}

/// Different addresses are indexed under different numbers.
pub proof fn lemma_key_injective(a: NodeAddress, b: NodeAddress)
    requires
        key_of(a@) == key_of(b@),
    ensures
        a == b,
{
    let ka = (a.level * 0x1_0000_0000 + (a.x + 0x8000_0000)) * 0x1_0000_0000 + (a.y
        + 0x8000_0000);
    let kb = (b.level * 0x1_0000_0000 + (b.x + 0x8000_0000)) * 0x1_0000_0000 + (b.y
        + 0x8000_0000);
    assert(ka == kb);
    let la = a.level * 0x1_0000_0000 + (a.x + 0x8000_0000);
    let lb = b.level * 0x1_0000_0000 + (b.x + 0x8000_0000);
    assert(la == lb);
}

fn slot_key(a: &NodeAddress) -> (k: u128)
    ensures
        k == key_of(a@),
{
    let l: u128 = a.level as u128;
    let x: u128 = (a.x as i64 + 0x8000_0000) as u128;
    let y: u128 = (a.y as i64 + 0x8000_0000) as u128;
    let z: u128 = (a.z as i64 + 0x8000_0000) as u128;
    ((l * 0x1_0000_0000 + x) * 0x1_0000_0000 + y) * 0x1_0000_0000 + z
}

/// A sparse octree of a fixed height. Only nodes that were put in exist;
/// each occupies one slot of a dense array, in the order of insertion, and
/// an index leads from its address to the slot.
pub struct SparseOctree {
    height: u8,
    slots: Vec<NodeAddress>,
    index: HashMap<u128, usize>,
}

impl View for SparseOctree {
    type V = Seq<NodeAddress>;

    /// The addresses of the nodes, in the order in which they were put in.
    closed spec fn view(&self) -> Seq<NodeAddress> {
        self.slots@
    }
}

impl SparseOctree {
    /// The number of levels.
    pub closed spec fn spec_height(&self) -> u8 {
        self.height
    }

    /// The level of the roots, the highest of the tree.
    pub open spec fn spec_root_level(&self) -> u8 {
        (self.spec_height() - 1) as u8
    }

    /// The index leads from each address in the tree to its slot, and to
    /// nothing else.
    pub closed spec fn indexed(&self) -> bool {
        &&& forall|k: u128| #[trigger]
            self.index@.contains_key(k) ==> self.index@[k] < self.slots@.len() && key_of(
                self.slots@[self.index@[k] as int]@,
            ) == k
        &&& forall|i: int|
            0 <= i < self.slots@.len() ==> self.index@.contains_key(
                key_of((#[trigger] self.slots@[i])@) as u128,
            ) && self.index@[key_of(self.slots@[i]@) as u128] == i
    }

    /// The invariant of the tree: it has a level, no address occurs twice,
    /// no node lies above the root level, and the index is in step.
    pub open spec fn wf(&self) -> bool {
        &&& self.spec_height() >= 1
        &&& self.indexed()
        &&& self@.no_duplicates()
        &&& forall|i: int| 0 <= i < self@.len() ==> (#[trigger] self@[i]).level <= self.spec_root_level()
    }

    /// Whether the tree holds a node at the cell `c`.
    pub open spec fn holds(&self, c: GridCell) -> bool {
        exists|i: int| 0 <= i < self@.len() && (#[trigger] self@[i])@ == c
    }

    /// Whether the cube of every root lies within the 32-bit index space.
    pub open spec fn roots_in_index_space(&self) -> bool {
        forall|i: int|
            0 <= i < self@.len() && (#[trigger] self@[i]).level == self.spec_root_level()
                ==> self@[i]@.in_index_space()
    }

    /// The cells of the nodes, in the order in which they were put in.
    pub open spec fn cell_seq(&self) -> Seq<GridCell> {
        self@.map_values(|a: NodeAddress| a@)
    }

    /// The cells at which the tree holds a node.
    pub open spec fn cells(&self) -> Set<GridCell> {
        Set::new(|c: GridCell| self.holds(c))
    }

    /// An empty tree of `height` levels, whose roots sit at level
    /// `height - 1`. A height of 0 is refused.
    pub fn new(height: u8) -> (r: Result<SparseOctree, OctreeError>)
        ensures
            height == 0 <==> r is Err,
            r is Err ==> r == Err::<SparseOctree, OctreeError>(OctreeError::InvalidHeight),
            r is Ok ==> {
                let t = r->Ok_0;
                &&& t.wf()
                &&& t.spec_height() == height
                &&& t.spec_root_level() == height - 1
                &&& t@ == Seq::<NodeAddress>::empty()
            },
    {
        if height == 0 {
            return Err(OctreeError::InvalidHeight);
        }
        let t = SparseOctree { height, slots: Vec::new(), index: HashMap::new() };
        Ok(t)
    }

    /// The number of levels.
    #[verifier::when_used_as_spec(spec_height)]
    pub fn height(&self) -> (h: u8)
        ensures
            h == self.spec_height(),
    {
        self.height
    }

    /// The level of the roots.
    #[verifier::when_used_as_spec(spec_root_level)]
    pub fn root_level(&self) -> (l: u8)
        requires
            self.wf(),
        ensures
            l == self.spec_root_level(),
            l == self.spec_height() - 1,
    {
        self.height - 1
    }

    /// The number of nodes.
    pub fn len(&self) -> (n: usize)
        ensures
            n == self@.len(),
    {
        self.slots.len()
    }

    /// Whether the tree holds no node.
    pub fn is_empty(&self) -> (b: bool)
        ensures
            b == (self@.len() == 0),
    {
        self.slots.len() == 0
    }

    /// The address of the node in `slot`, if there is such a slot.
    pub fn address_at(&self, slot: usize) -> (a: Option<NodeAddress>)
        ensures
            slot < self@.len() ==> a == Some(self@[slot as int]),
            slot >= self@.len() ==> a.is_none(),
    {
        if slot < self.slots.len() {
            Some(self.slots[slot])
        } else {
            None
        }
    }

    /// The slot of the node at `address`, if the tree holds one. Nothing is
    /// put in.
    pub fn get(&self, address: NodeAddress) -> (slot: Option<usize>)
        requires
            self.wf(),
        ensures
            match slot {
                Some(s) => s < self@.len() && self@[s as int] == address,
                None => !self@.contains(address),
            },
            slot.is_some() == self.holds(address@),
    {
        let k = slot_key(&address);
        let found = self.index.get(&k);
        match found {
            Some(s) => {
                proof {
                    lemma_key_injective(self.slots@[*s as int], address);
                }
                Some(*s)
            },
            None => {
                proof {
                    if self.holds(address@) {
                        let i = choose|i: int| 0 <= i < self@.len() && (#[trigger] self@[i])@ == address@;
                        assert(self.index@.contains_key(key_of(self.slots@[i]@) as u128));
                    }
                    if self@.contains(address) {
                        let i = choose|i: int| 0 <= i < self@.len() && self@[i] == address;
                        assert(self.index@.contains_key(key_of(self.slots@[i]@) as u128));
                    }
                }
                None
            },
        }
    }

    /// Whether the tree holds a node at `address`.
    pub fn contains(&self, address: NodeAddress) -> (b: bool)
        requires
            self.wf(),
        ensures
            b == self@.contains(address),
            b == self.holds(address@),
    {
        self.get(address).is_some()
    }

    /// The node at `address`: the one that is there, or else a new one, put
    /// in behind all others. Nothing else changes the tree.
    pub fn get_or_insert(&mut self, address: NodeAddress) -> (entry: NodeEntry)
        requires
            old(self).wf(),
            address.level <= old(self).spec_root_level(),
        ensures
            final(self).wf(),
            final(self).spec_height() == old(self).spec_height(),
            match entry {
                NodeEntry::Occupied(s) => {
                    &&& old(self)@.contains(address)
                    &&& final(self)@ == old(self)@
                    &&& s < old(self)@.len()
                    &&& old(self)@[s as int] == address
                },
                NodeEntry::Inserted(s) => {
                    &&& !old(self)@.contains(address)
                    &&& final(self)@ == old(self)@.push(address)
                    &&& s == old(self)@.len()
                },
            },
            final(self).holds(address@),
            final(self).cells() == old(self).cells().insert(address@),
    {
        let entry = match self.get(address) {
            Some(s) => NodeEntry::Occupied(s),
            None => {
                let s = self.slots.len();
                let k = slot_key(&address);
                self.slots.push(address);
                self.index.insert(k, s);
                proof {
                    let prev = old(self).slots@;
                    assert forall|j: int| 0 <= j < prev.len() implies key_of(prev[j]@) != k by {
                        if key_of(prev[j]@) == k {
                            lemma_key_injective(prev[j], address);
                        }
                    }
                    assert(self.indexed());
                }
                NodeEntry::Inserted(s)
            },
        };
        proof {
            let s = entry.spec_slot();
            assert(self@[s as int]@ == address@);
            assert forall|c: GridCell| self.holds(c) <==> (old(self).holds(c) || c == address@) by {
                if self.holds(c) {
                    let i = choose|i: int| 0 <= i < self@.len() && (#[trigger] self@[i])@ == c;
                    if i < old(self)@.len() {
                        assert(old(self)@[i]@ == c);
                    }
                }
                if old(self).holds(c) {
                    let i = choose|i: int|
                        0 <= i < old(self)@.len() && (#[trigger] old(self)@[i])@ == c;
                    assert(self@[i]@ == c);
                }
            }
            assert(self.cells() =~= old(self).cells().insert(address@));
        }
        entry
    }

    /// The addresses of the nodes at the root level, in the order in which
    /// they were put in.
    pub fn roots(&self) -> (r: Vec<NodeAddress>)
        requires
            self.wf(),
        ensures
            r@ == self@.filter(|a: NodeAddress| a.level == self.spec_root_level()),
            forall|k: int|
                0 <= k < r@.len() ==> self@.contains(#[trigger] r@[k]) && r@[k].level
                    == self.spec_root_level(),
    {
        let top = self.root_level();
        let ghost pred = |a: NodeAddress| a.level == self.spec_root_level();
        let mut r: Vec<NodeAddress> = Vec::new();
        let mut i: usize = 0;
        proof {
            reveal(Seq::filter);
            assert(self@.take(0) =~= Seq::<NodeAddress>::empty());
        }
        while i < self.slots.len()
            invariant
                i <= self.slots@.len(),
                top == self.spec_root_level(),
                pred == (|a: NodeAddress| a.level == self.spec_root_level()),
                r@ == self@.take(i as int).filter(pred),
                forall|k: int|
                    0 <= k < r@.len() ==> self@.contains(#[trigger] r@[k]) && r@[k].level == top,
            decreases self.slots@.len() - i,
        {
            let a = self.slots[i];
            proof {
                reveal(Seq::filter);
                let next = self@.take(i + 1);
                assert(next.drop_last() =~= self@.take(i as int));
                assert(next.last() == a);
                assert(self@[i as int] == a);
            }
            if a.level == top {
                r.push(a);
            }
            i = i + 1;
        }
        proof {
            assert(self@.take(i as int) =~= self@);
        }
        r
    }
}

} // verus!
