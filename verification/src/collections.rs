//! Collections of outside crates, each with a view of what it holds.
//!
//! Operand lists, phi edges and predecessor lists nearly always hold one or
//! two items, so they live in a `SmallVec` with room for two inline. Sets and
//! maps over small integers use the Fx hash.
use crate::ir::{Block, Value};
use vstd::prelude::*;

verus! {

/// The operands of a call.
#[verifier::external_body]
#[derive(Debug, PartialEq, Eq, Hash)]
pub struct ValueList {
    items: smallvec::SmallVec<[Value; 2]>,
}

/// The items of a [`ValueList`], in order.
pub uninterp spec fn value_items(list: &ValueList) -> Seq<Value>;

impl View for ValueList {
    type V = Seq<Value>;

    open spec fn view(&self) -> Seq<Value> {
        value_items(self)
    }
}

impl ValueList {
    /// Calls `SmallVec::new`, which makes a list without items.
    #[verifier::external_body]
    pub fn new() -> (list: ValueList)
        ensures
            value_items(&list) == Seq::<Value>::empty(),
    {
        ValueList { items: smallvec::SmallVec::new() }
    }

    /// Calls `SmallVec::push`, which puts one item behind the others.
    #[verifier::external_body]
    pub fn push(&mut self, item: Value)
        ensures
            value_items(&*final(self)) == value_items(&*old(self)).push(item),
    {
        self.items.push(item)
    }

    /// Calls `SmallVec::len`, which counts the items.
    #[verifier::external_body]
    pub fn len(&self) -> (count: usize)
        ensures
            count == value_items(self).len(),
    {
        self.items.len()
    }

    /// Indexes the `SmallVec`, which hands out the item at that place and
    /// panics behind the last one.
    #[verifier::external_body]
    pub fn get(&self, index: usize) -> (item: Value)
        requires
            index < value_items(self).len(),
        ensures
            item == value_items(self)[index as int],
    {
        self.items[index]
    }
}

/// The incoming edges of a phi: for each predecessor, the value that arrives from it.
#[verifier::external_body]
#[derive(Debug, PartialEq, Eq, Hash)]
pub struct EdgeList {
    items: smallvec::SmallVec<[(Block, Value); 2]>,
}

/// The items of a [`EdgeList`], in order.
pub uninterp spec fn edge_items(list: &EdgeList) -> Seq<(Block, Value)>;

impl View for EdgeList {
    type V = Seq<(Block, Value)>;

    open spec fn view(&self) -> Seq<(Block, Value)> {
        edge_items(self)
    }
}

impl EdgeList {
    /// Calls `SmallVec::new`, which makes a list without items.
    #[verifier::external_body]
    pub fn new() -> (list: EdgeList)
        ensures
            edge_items(&list) == Seq::<(Block, Value)>::empty(),
    {
        EdgeList { items: smallvec::SmallVec::new() }
    }

    /// Calls `SmallVec::push`, which puts one item behind the others.
    #[verifier::external_body]
    pub fn push(&mut self, item: (Block, Value))
        ensures
            edge_items(&*final(self)) == edge_items(&*old(self)).push(item),
    {
        self.items.push(item)
    }

    /// Calls `SmallVec::len`, which counts the items.
    #[verifier::external_body]
    pub fn len(&self) -> (count: usize)
        ensures
            count == edge_items(self).len(),
    {
        self.items.len()
    }

    /// Indexes the `SmallVec`, which hands out the item at that place and
    /// panics behind the last one.
    #[verifier::external_body]
    pub fn get(&self, index: usize) -> (item: (Block, Value))
        requires
            index < edge_items(self).len(),
        ensures
            item == edge_items(self)[index as int],
    {
        self.items[index]
    }
}

/// The predecessors of a block.
#[verifier::external_body]
#[derive(Debug, PartialEq, Eq, Hash)]
pub struct BlockList {
    items: smallvec::SmallVec<[Block; 2]>,
}

/// The items of a [`BlockList`], in order.
pub uninterp spec fn block_items(list: &BlockList) -> Seq<Block>;

impl View for BlockList {
    type V = Seq<Block>;

    open spec fn view(&self) -> Seq<Block> {
        block_items(self)
    }
}

impl BlockList {
    /// Calls `SmallVec::new`, which makes a list without items.
    #[verifier::external_body]
    pub fn new() -> (list: BlockList)
        ensures
            block_items(&list) == Seq::<Block>::empty(),
    {
        BlockList { items: smallvec::SmallVec::new() }
    }

    /// Calls `SmallVec::push`, which puts one item behind the others.
    #[verifier::external_body]
    pub fn push(&mut self, item: Block)
        ensures
            block_items(&*final(self)) == block_items(&*old(self)).push(item),
    {
        self.items.push(item)
    }

    /// Calls `SmallVec::len`, which counts the items.
    #[verifier::external_body]
    pub fn len(&self) -> (count: usize)
        ensures
            count == block_items(self).len(),
    {
        self.items.len()
    }

    /// Indexes the `SmallVec`, which hands out the item at that place and
    /// panics behind the last one.
    #[verifier::external_body]
    pub fn get(&self, index: usize) -> (item: Block)
        requires
            index < block_items(self).len(),
        ensures
            item == block_items(self)[index as int],
    {
        self.items[index]
    }
}

impl Default for BlockList {
    fn default() -> (list: BlockList)
        ensures
            list@ == Seq::<Block>::empty(),
    {
        BlockList::new()
    }
}

/// A set of small integers.
#[verifier::external_body]
#[derive(Debug)]
pub struct IndexSet {
    items: rustc_hash::FxHashSet<u32>,
}

/// The members of an [`IndexSet`].
pub uninterp spec fn index_members(set: &IndexSet) -> Set<u32>;

impl View for IndexSet {
    type V = Set<u32>;

    open spec fn view(&self) -> Set<u32> {
        index_members(self)
    }
}

impl IndexSet {
    /// Calls `FxHashSet::default`, which makes an empty set.
    #[verifier::external_body]
    pub fn new() -> (set: IndexSet)
        ensures
            index_members(&set) == Set::<u32>::empty(),
    {
        IndexSet { items: rustc_hash::FxHashSet::default() }
    }

    /// Calls `FxHashSet::insert`, which adds a member and tells whether it was
    /// new.
    #[verifier::external_body]
    pub fn insert(&mut self, item: u32) -> (fresh: bool)
        ensures
            index_members(&*final(self)) == index_members(&*old(self)).insert(item),
            fresh == !index_members(&*old(self)).contains(item),
    {
        self.items.insert(item)
    }

    /// Calls `FxHashSet::contains`, which tests membership.
    #[verifier::external_body]
    pub fn contains(&self, item: u32) -> (found: bool)
        ensures
            found == index_members(self).contains(item),
    {
        self.items.contains(&item)
    }
}

/// A map between small integers.
#[verifier::external_body]
#[derive(Debug)]
pub struct IndexMap {
    items: rustc_hash::FxHashMap<u32, u32>,
}

/// The entries of an [`IndexMap`].
pub uninterp spec fn index_entries(map: &IndexMap) -> Map<u32, u32>;

impl View for IndexMap {
    type V = Map<u32, u32>;

    open spec fn view(&self) -> Map<u32, u32> {
        index_entries(self)
    }
}

impl IndexMap {
    /// Calls `FxHashMap::default`, which makes an empty map.
    #[verifier::external_body]
    pub fn new() -> (map: IndexMap)
        ensures
            index_entries(&map).dom() == Set::<u32>::empty(),
    {
        IndexMap { items: rustc_hash::FxHashMap::default() }
    }

    /// Calls `FxHashMap::insert`, which enters a value under a key and drops
    /// the one that was there.
    #[verifier::external_body]
    pub fn insert(&mut self, key: u32, value: u32)
        ensures
            index_entries(&*final(self)) == index_entries(&*old(self)).insert(key, value),
    {
        self.items.insert(key, value);
    }

    /// Calls `FxHashMap::get`, which finds the value under a key.
    #[verifier::external_body]
    pub fn get(&self, key: u32) -> (found: Option<u32>)
        ensures
            match found {
                Some(value) => index_entries(self).dom().contains(key) && index_entries(self)[key]
                    == value,
                None => !index_entries(self).dom().contains(key),
            },
    {
        self.items.get(&key).copied()
    }
}

/// A map from small integers to lists of blocks.
#[verifier::external_body]
#[derive(Debug)]
pub struct BlockMap {
    items: rustc_hash::FxHashMap<u32, Vec<Block>>,
}

/// The entries of a [`BlockMap`].
pub uninterp spec fn block_entries(map: &BlockMap) -> Map<u32, Seq<Block>>;

impl View for BlockMap {
    type V = Map<u32, Seq<Block>>;

    open spec fn view(&self) -> Map<u32, Seq<Block>> {
        block_entries(self)
    }
}

impl BlockMap {
    /// Calls `FxHashMap::default`, which makes an empty map.
    #[verifier::external_body]
    pub fn new() -> (map: BlockMap)
        ensures
            block_entries(&map).dom() == Set::<u32>::empty(),
    {
        BlockMap { items: rustc_hash::FxHashMap::default() }
    }

    /// Calls `FxHashMap::insert`, which enters a list under a key and drops
    /// the one that was there.
    #[verifier::external_body]
    pub fn insert(&mut self, key: u32, list: Vec<Block>)
        ensures
            block_entries(&*final(self)) == block_entries(&*old(self)).insert(key, list@),
    {
        self.items.insert(key, list);
    }

    /// Calls `FxHashMap::get`, which finds the list under a key, and copies
    /// it.
    #[verifier::external_body]
    pub fn get(&self, key: u32) -> (found: Option<Vec<Block>>)
        ensures
            match found {
                Some(list) => block_entries(self).dom().contains(key) && block_entries(self)[key]
                    == list@,
                None => !block_entries(self).dom().contains(key),
            },
    {
        self.items.get(&key).cloned()
    }

    /// Calls `FxHashMap::remove`, which takes out the list under a key.
    #[verifier::external_body]
    pub fn remove(&mut self, key: u32) -> (found: Option<Vec<Block>>)
        ensures
            match found {
                Some(list) => block_entries(&*old(self)).dom().contains(key) && block_entries(
                    &*old(self),
                )[key] == list@,
                None => !block_entries(&*old(self)).dom().contains(key),
            },
            block_entries(&*final(self)) == block_entries(&*old(self)).remove(key),
    {
        self.items.remove(&key)
    }
}

/// A map from sequences of words to small integers.
#[verifier::external_body]
#[derive(Debug)]
pub struct CodeMap {
    items: rustc_hash::FxHashMap<Vec<u64>, u32>,
}

/// The entries of a [`CodeMap`].
pub uninterp spec fn code_entries(map: &CodeMap) -> Map<Seq<u64>, u32>;

impl View for CodeMap {
    type V = Map<Seq<u64>, u32>;

    open spec fn view(&self) -> Map<Seq<u64>, u32> {
        code_entries(self)
    }
}

impl CodeMap {
    /// Calls `FxHashMap::default`, which makes an empty map.
    #[verifier::external_body]
    pub fn new() -> (map: CodeMap)
        ensures
            code_entries(&map).dom() == Set::<Seq<u64>>::empty(),
    {
        CodeMap { items: rustc_hash::FxHashMap::default() }
    }

    /// Calls `FxHashMap::insert`, which enters a value under a key and drops
    /// the one that was there.
    #[verifier::external_body]
    pub fn insert(&mut self, key: Vec<u64>, value: u32)
        ensures
            code_entries(&*final(self)) == code_entries(&*old(self)).insert(key@, value),
    {
        self.items.insert(key, value);
    }

    /// Calls `FxHashMap::get`, which finds the value under a key.
    #[verifier::external_body]
    pub fn get(&self, key: &Vec<u64>) -> (found: Option<u32>)
        ensures
            match found {
                Some(value) => code_entries(self).dom().contains(key@) && code_entries(self)[key@]
                    == value,
                None => !code_entries(self).dom().contains(key@),
            },
    {
        self.items.get(key).copied()
    }

    /// Calls `FxHashMap::remove`, which drops what is under a key.
    #[verifier::external_body]
    pub fn remove(&mut self, key: &Vec<u64>)
        ensures
            code_entries(&*final(self)) == code_entries(&*old(self)).remove(key@),
    {
        self.items.remove(key);
    }
}

/// A map from names to small integers.
#[verifier::external_body]
#[derive(Debug)]
pub struct NameMap {
    items: rustc_hash::FxHashMap<String, u32>,
}

/// The entries of a [`NameMap`].
pub uninterp spec fn name_entries(map: &NameMap) -> Map<Seq<char>, u32>;

impl View for NameMap {
    type V = Map<Seq<char>, u32>;

    open spec fn view(&self) -> Map<Seq<char>, u32> {
        name_entries(self)
    }
}

/// The list holds every entry of the map once, in some order.
pub open spec fn lists(list: Seq<(String, u32)>, map: Map<Seq<char>, u32>) -> bool {
    &&& forall|i: int|
        #![trigger list[i]]
        0 <= i < list.len() ==> map.dom().contains(list[i].0@) && map[list[i].0@] == list[i].1
    &&& forall|i: int, j: int|
        #![trigger list[i], list[j]]
        0 <= i < j < list.len() ==> list[i].0@ != list[j].0@
    &&& forall|name: Seq<char>|
        #![trigger map.dom().contains(name)]
        map.dom().contains(name) ==> exists|i: int|
            #![trigger list[i]]
            0 <= i < list.len() && list[i].0@ == name
}

impl NameMap {
    /// Calls `FxHashMap::default`, which makes an empty map.
    #[verifier::external_body]
    pub fn new() -> (map: NameMap)
        ensures
            name_entries(&map).dom() == Set::<Seq<char>>::empty(),
    {
        NameMap { items: rustc_hash::FxHashMap::default() }
    }

    /// Calls `FxHashMap::insert`, which enters a value under a name and drops
    /// the one that was there.
    #[verifier::external_body]
    pub fn insert(&mut self, name: &str, value: u32)
        ensures
            name_entries(&*final(self)) == name_entries(&*old(self)).insert(name@, value),
    {
        self.items.insert(name.to_string(), value);
    }

    /// Calls `FxHashMap::get`, which finds the value under a name.
    #[verifier::external_body]
    pub fn get(&self, name: &str) -> (found: Option<u32>)
        ensures
            match found {
                Some(value) => name_entries(self).dom().contains(name@) && name_entries(self)[name@]
                    == value,
                None => !name_entries(self).dom().contains(name@),
            },
    {
        self.items.get(name).copied()
    }

    /// Calls `FxHashMap::iter`, which visits every entry once. In which order
    /// is not said.
    #[verifier::external_body]
    pub fn entries(&self) -> (list: Vec<(String, u32)>)
        ensures
            lists(list@, name_entries(self)),
    {
        self.items.iter().map(|(name, value)| (name.clone(), *value)).collect()
    }

    /// Calls `FxHashMap::drain`, which takes every entry out. In which order
    /// is not said.
    #[verifier::external_body]
    pub fn drain(&mut self) -> (list: Vec<(String, u32)>)
        ensures
            lists(list@, name_entries(&*old(self))),
            name_entries(&*final(self)).dom() == Set::<Seq<char>>::empty(),
    {
        self.items.drain().collect()
    }
}

} // verus!
