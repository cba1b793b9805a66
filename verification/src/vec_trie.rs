//! A trie in a vector: every node has a key, and no two children of one node have the same.

use vstd::prelude::*;
use vstd::std_specs::cmp::PartialEqSpec;

verus! {

/// The place of a node in a [`VecTrie`].
#[derive(Debug, Clone, Copy, PartialEq, Eq, Structural)]
pub struct Index {
    /// How many nodes were there before this one.
    pub position: usize,
}

/// The number of the node at `index`.
pub open spec fn link(index: Option<Index>) -> Option<int> {
    match index {
        Some(i) => Some(i.position as int),
        None => None,
    }
}

/// What a [`VecTrie`] holds. Nodes are numbered in the order in which they were inserted.
#[verifier::ext_equal]
pub ghost struct TrieView<K, V> {
    /// The parent of each node.
    pub parents: Seq<Option<int>>,
    /// The key of each node.
    pub keys: Seq<K>,
    /// The value of each node.
    pub values: Seq<V>,
}

/// The nodes among the first `n` whose parent is `parent`, in the order of their insertion.
pub open spec fn children_among(parents: Seq<Option<int>>, parent: int, n: nat) -> Seq<int>
    decreases n,
{
    if n == 0 {
        Seq::empty()
    } else {
        let rest = children_among(parents, parent, (n - 1) as nat);
        if parents[n - 1] == Some(parent) {
            rest.push(n - 1)
        } else {
            rest
        }
    }
}

impl<K, V> TrieView<K, V> {
    /// The number of nodes.
    pub open spec fn len(self) -> nat {
        self.parents.len()
    }

    /// A trie without nodes.
    pub open spec fn empty() -> Self {
        TrieView { parents: Seq::empty(), keys: Seq::empty(), values: Seq::empty() }
    }

    /// The first node is the root; every other node was inserted after its parent.
    pub open spec fn rooted(self) -> bool {
        &&& self.keys.len() == self.len()
        &&& self.values.len() == self.len()
        &&& self.len() > 0 ==> self.parents[0] is None
        &&& forall|i: int|
            0 < i < self.len() ==> (#[trigger] self.parents[i] matches Some(p) && 0 <= p < i)
    }

    /// The children of `parent`, in the order of their insertion.
    pub open spec fn children(self, parent: int) -> Seq<int> {
        children_among(self.parents, parent, self.len())
    }

    /// This trie with a further node.
    pub open spec fn with_node(self, parent: Option<int>, key: K, value: V) -> Self {
        TrieView {
            parents: self.parents.push(parent),
            keys: self.keys.push(key),
            values: self.values.push(value),
        }
    }

    /// This trie with another value at node `i`.
    pub open spec fn with_value(self, i: int, value: V) -> Self {
        TrieView { parents: self.parents, keys: self.keys, values: self.values.update(i, value) }
    }
}

impl<K: PartialEq, V> TrieView<K, V> {
    /// Whether node `i` is the child of `parent` with the key `key`.
    pub open spec fn is_child(self, parent: Option<int>, key: K, i: int) -> bool {
        &&& 0 <= i < self.len()
        &&& self.parents[i] == parent
        &&& self.keys[i].eq_spec(&key)
    }

    /// Whether `parent` has a child with the key `key`.
    pub open spec fn has_child(self, parent: Option<int>, key: K) -> bool {
        exists|i: int| self.is_child(parent, key, i)
    }

    /// No two children of one node have the same key.
    pub open spec fn distinct_siblings(self) -> bool {
        forall|i: int, j: int|
            0 <= i < j < self.len() && self.parents[i] == self.parents[j]
                ==> !(#[trigger] self.keys[i]).eq_spec(#[trigger] &self.keys[j])
    }
}

/// A trie in a vector.
pub struct VecTrie<K, V> {
    parents: Ghost<Seq<Option<int>>>,
    keys: Vec<K>,
    values: Vec<V>,
    children: Vec<Vec<usize>>,
}

impl<K, V> View for VecTrie<K, V> {
    type V = TrieView<K, V>;

    closed spec fn view(&self) -> TrieView<K, V> {
        TrieView { parents: self.parents@, keys: self.keys@, values: self.values@ }
    }
}

/// The positions of a list of children as numbers.
pub open spec fn positions(list: Seq<usize>) -> Seq<int> {
    list.map_values(|i: usize| i as int)
}

impl<K, V> VecTrie<K, V> {
    /// The lists of children belong to the nodes' parents.
    closed spec fn listed(&self) -> bool {
        &&& self.children@.len() == self@.len()
        &&& forall|i: int|
            0 <= i < self@.len() ==> positions((#[trigger] self.children@[i])@) == self@.children(i)
    }
}

impl<K: PartialEq, V> VecTrie<K, V> {
    /// The nodes form one tree, and no two children of one node have the same key.
    pub closed spec fn wf(&self) -> bool {
        &&& self@.rooted()
        &&& self@.distinct_siblings()
        &&& self.listed()
    }

    /// The nodes of a well-formed trie form one tree, and no two children of one node have the
    /// same key.
    pub proof fn lemma_wf(&self)
        requires
            self.wf(),
        ensures
            self@.rooted(),
            self@.distinct_siblings(),
    {
    }
}

/// `children_among` gives exactly the nodes with that parent, in ascending order.
pub proof fn lemma_children_among(parents: Seq<Option<int>>, parent: int, n: nat)
    requires
        n <= parents.len(),
    ensures
        forall|k: int|
            #![trigger children_among(parents, parent, n)[k]]
            0 <= k < children_among(parents, parent, n).len() ==> {
                let i = children_among(parents, parent, n)[k];
                0 <= i < n && parents[i] == Some(parent)
            },
        forall|i: int|
            0 <= i < n && #[trigger] parents[i] == Some(parent) ==> children_among(
                parents,
                parent,
                n,
            ).contains(i),
        forall|k: int, l: int|
            0 <= k < l < children_among(parents, parent, n).len() ==> children_among(
                parents,
                parent,
                n,
            )[k] < children_among(parents, parent, n)[l],
    decreases n,
{
    if n > 0 {
        let rest = children_among(parents, parent, (n - 1) as nat);
        let all = children_among(parents, parent, n);
        lemma_children_among(parents, parent, (n - 1) as nat);
        assert forall|i: int|
            0 <= i < n && #[trigger] parents[i] == Some(parent) implies all.contains(i) by {
            if i == n - 1 {
                assert(all.last() == i);
            } else {
                assert(rest.contains(i));
                assert(all[rest.index_of(i)] == i);
            }
        }
    }
}

/// `children_among` depends on the parents of the first `n` nodes only.
pub proof fn lemma_children_same(
    a: Seq<Option<int>>,
    b: Seq<Option<int>>,
    parent: int,
    n: nat,
)
    requires
        n <= a.len(),
        n <= b.len(),
        forall|i: int| 0 <= i < n ==> a[i] == b[i],
    ensures
        children_among(a, parent, n) == children_among(b, parent, n),
    decreases n,
{
    if n > 0 {
        lemma_children_same(a, b, parent, (n - 1) as nat);
    }
}

impl<K, V> VecTrie<K, V> {
    /// An empty trie.
    pub fn new() -> (trie: Self) where K: PartialEq
        ensures
            trie.wf(),
            trie@ == TrieView::<K, V>::empty(),
    {
        VecTrie { parents: Ghost(Seq::empty()), keys: Vec::new(), values: Vec::new(), children: Vec::new() }
    }

    /// Whether there is no node.
    pub fn is_empty(&self) -> (empty: bool) where K: PartialEq
        requires
            self.wf(),
        ensures
            empty == (self@.len() == 0),
    {
        self.keys.len() == 0
    }

    /// The number of nodes.
    pub fn len(&self) -> (len: usize) where K: PartialEq
        requires
            self.wf(),
        ensures
            len == self@.len(),
    {
        self.keys.len()
    }

    /// Removes all nodes.
    pub fn clear(&mut self) where K: PartialEq
        ensures
            final(self).wf(),
            final(self)@ == TrieView::<K, V>::empty(),
    {
        self.parents = Ghost(Seq::empty());
        self.keys.clear();
        self.values.clear();
        self.children.clear();
    }

    /// The value of the node at `index`.
    pub fn value(&self, index: Index) -> (value: &V) where K: PartialEq
        requires
            self.wf(),
            index.position < self@.len(),
        ensures
            *value == self@.values[index.position as int],
    {
        &self.values[index.position]
    }

    /// Access to the value of the node at `index`.
    pub fn value_mut(&mut self, index: Index) -> (value: &mut V) where K: PartialEq
        requires
            old(self).wf(),
            index.position < old(self)@.len(),
        ensures
            *value == old(self)@.values[index.position as int],
            final(self).wf(),
            final(self)@ == old(self)@.with_value(index.position as int, *final(value)),
    {
        &mut self.values[index.position]
    }

    /// The child of `parent` with the key `key`: the one that is there, or else a new one with
    /// the default value. Without a parent, the root of an empty trie.
    pub fn insert_child(&mut self, parent: Option<Index>, key: K) -> (index: Index) where
        K: PartialEq,
        V: Default,

        requires
            old(self).wf(),
            K::obeys_eq_spec(),
            match parent {
                Some(p) => p.position < old(self)@.len(),
                None => old(self)@.len() == 0,
            },
        ensures
            final(self).wf(),
            index.position < final(self)@.len(),
            old(self)@.has_child(link(parent), key) ==> {
                &&& old(self)@.is_child(link(parent), key, index.position as int)
                &&& final(self)@ == old(self)@
            },
            !old(self)@.has_child(link(parent), key) ==> {
                &&& index.position == old(self)@.len()
                &&& exists|value: V| #[trigger] call_ensures(V::default, (), value) && final(self)@
                    == old(self)@.with_node(link(parent), key, value)
            },
    {
        let position = self.keys.len();
        if let Some(p) = parent {
            let siblings = &self.children[p.position];
            let mut k: usize = 0;
            proof {
                lemma_children_among(self@.parents, p.position as int, self@.len());
                assert(positions(siblings@) == self@.children(p.position as int));
                assert(positions(siblings@).len() == siblings@.len());
            }
            while k < siblings.len()
                invariant
                    self.wf(),
                    K::obeys_eq_spec(),
                    parent == Some(p),
                    p.position < self@.len(),
                    k <= siblings@.len(),
                    siblings@ == self.children@[p.position as int]@,
                    positions(siblings@) == self@.children(p.position as int),
                    forall|l: int|
                        0 <= l < k ==> !(#[trigger] self@.is_child(
                            link(parent),
                            key,
                            siblings@[l] as int,
                        )),
                decreases siblings@.len() - k,
            {
                let child = siblings[k];
                proof {
                    lemma_children_among(self@.parents, p.position as int, self@.len());
                    assert(positions(siblings@)[k as int] == child as int);
                }
                if self.keys[child] == key {
                    assert(self@.is_child(link(parent), key, child as int));
                    return Index { position: child };
                }
                k += 1;
            }
            proof {
                assert forall|i: int| !self@.is_child(link(parent), key, i) by {
                    if self@.is_child(link(parent), key, i) {
                        lemma_children_among(self@.parents, p.position as int, self@.len());
                        let l = positions(siblings@).index_of(i);
                        assert(positions(siblings@).contains(i));
                        assert(siblings@[l] as int == i);
                    }
                }
            }
        }
        let ghost before = *self;
        let value = V::default();
        self.parents = Ghost(self.parents@.push(link(parent)));
        self.keys.push(key);
        self.values.push(value);
        self.children.push(Vec::new());
        if let Some(p) = parent {
            self.children[p.position].push(position);
        }
        proof {
            assert(self@ =~= before@.with_node(link(parent), key, value));
            assert forall|i: int, j: int|
                0 <= i < j < self@.len() && self@.parents[i] == self@.parents[j] implies !(
            #[trigger] self@.keys[i]).eq_spec(#[trigger] &self@.keys[j]) by {
                assert(self@.keys[i] == before@.keys[i]);
                if j < before@.len() {
                    assert(self@.keys[j] == before@.keys[j]);
                } else {
                    assert(!before@.is_child(link(parent), key, i));
                }
            }
            assert forall|i: int| 0 <= i < self@.len() implies positions(
                (#[trigger] self.children@[i])@,
            ) == self@.children(i) by {
                lemma_children_same(before@.parents, self@.parents, i, before@.len());
                lemma_children_among(before@.parents, i, before@.len());
                if i < before@.len() {
                    assert(positions(before.children@[i]@) == before@.children(i));
                } else if before@.children(i).len() > 0 {
                    let c = before@.children(i)[0];
                    assert(before@.parents[c] == Some(i));
                }
                assert(positions(self.children@[i]@) =~= self@.children(i));
            }
        }
        Index { position }
    }

    /// The root, if there is one.
    pub fn root(&self) -> (root: Option<Visitor<'_, K, V>>) where K: PartialEq
        requires
            self.wf(),
        ensures
            self@.len() == 0 ==> root is None,
            self@.len() > 0 ==> (root matches Some(node) && node.trie == self
                && node.position == 0),
    {
        if self.keys.len() == 0 {
            None
        } else {
            Some(Visitor { trie: self, position: 0 })
        }
    }
}

/// A look at one node of a trie.
pub struct Visitor<'a, K, V> {
    /// The trie.
    pub trie: &'a VecTrie<K, V>,
    /// The number of the node.
    pub position: usize,
}

impl<'a, K: PartialEq, V> Visitor<'a, K, V> {
    /// The trie is well-formed and has the node.
    pub open spec fn wf(&self) -> bool {
        self.trie.wf() && self.position < self.trie@.len()
    }

    /// The key of the node.
    pub fn key(&self) -> (key: &'a K)
        requires
            self.wf(),
        ensures
            *key == self.trie@.keys[self.position as int],
    {
        &self.trie.keys[self.position]
    }

    /// The value of the node.
    pub fn value(&self) -> (value: &'a V)
        requires
            self.wf(),
        ensures
            *value == self.trie@.values[self.position as int],
    {
        &self.trie.values[self.position]
    }

    /// The children of the node, in the order of their insertion.
    pub fn children(&self) -> (children: Vec<Visitor<'a, K, V>>)
        requires
            self.wf(),
        ensures
            children@.len() == self.trie@.children(self.position as int).len(),
            forall|k: int|
                0 <= k < children@.len() ==> {
                    &&& (#[trigger] children@[k]).wf()
                    &&& children@[k].trie == self.trie
                    &&& children@[k].position == self.trie@.children(self.position as int)[k]
                },
    {
        let mut children: Vec<Visitor<'a, K, V>> = Vec::new();
        let list: &'a Vec<usize> = &self.trie.children[self.position];
        let mut k: usize = 0;
        proof {
            assert(positions(self.trie.children@[self.position as int]@) == self.trie@.children(
                self.position as int,
            ));
        }
        while k < list.len()
            invariant
                self.wf(),
                k <= list@.len(),
                children@.len() == k,
                positions(list@) == self.trie@.children(self.position as int),
                forall|l: int|
                    0 <= l < k ==> {
                        &&& (#[trigger] children@[l]).wf()
                        &&& children@[l].trie == self.trie
                        &&& children@[l].position == self.trie@.children(self.position as int)[l]
                    },
            decreases list@.len() - k,
        {
            proof {
                lemma_children_among(
                    self.trie@.parents,
                    self.position as int,
                    self.trie@.len(),
                );
                assert(positions(list@)[k as int] == list@[k as int] as int);
            }
            children.push(Visitor { trie: self.trie, position: list[k] });
            k += 1;
        }
        children
    }
}

} // verus!
