//! A map from signals, each seen from a place of the instance hierarchy, to values.

use crate::graph::Node;
use crate::stack::InstanceStack;
use std::collections::HashMap;
use vstd::prelude::*;

verus! {

/// One entry of a [`ScopedMap`].
struct Entry<V> {
    path: InstanceStack,
    signal: usize,
    value: V,
}

impl<V: View> Entry<V> {
    spec fn node(self) -> Node {
        Node { path: self.path@, signal: self.signal }
    }
}

/// A map from signals, each together with the stack of instances that it is seen
/// from, to values.
pub struct ScopedMap<V> {
    /// The entries in the order in which they came.
    entries: Vec<Entry<V>>,
    /// For each signal, the positions of its entries.
    by_signal: HashMap<usize, Vec<usize>>,
}

/// The map that a sequence of entries makes up.
spec fn entries_map<V: View>(entries: Seq<Entry<V>>) -> Map<Node, V::V>
    decreases entries.len(),
{
    if entries.len() == 0 {
        Map::empty()
    } else {
        entries_map(entries.drop_last()).insert(entries.last().node(), entries.last().value@)
    }
}

/// Whether no two entries are for the same signal in the same place.
spec fn distinct<V: View>(entries: Seq<Entry<V>>) -> bool {
    forall|i: int, j: int|
        0 <= i < j < entries.len() ==> (#[trigger] entries[i]).node() != (
        #[trigger] entries[j]).node()
}

proof fn entries_map_keys<V: View>(entries: Seq<Entry<V>>, node: Node)
    ensures
        entries_map(entries).contains_key(node) <==> exists|i: int|
            0 <= i < entries.len() && (#[trigger] entries[i]).node() == node,
    decreases entries.len(),
{
    if entries.len() > 0 {
        let front = entries.drop_last();
        entries_map_keys(front, node);
        if entries_map(front).contains_key(node) {
            let i = choose|i: int| 0 <= i < front.len() && (#[trigger] front[i]).node() == node;
            assert(entries[i].node() == node);
        }
        if exists|i: int| 0 <= i < entries.len() && (#[trigger] entries[i]).node() == node {
            let i = choose|i: int| 0 <= i < entries.len() && (#[trigger] entries[i]).node() == node;
            if i < front.len() {
                assert(front[i].node() == node);
            } else {
                assert(entries.last().node() == node);
            }
        }
        assert(entries[entries.len() - 1] == entries.last());
    }
}

proof fn entries_map_value<V: View>(entries: Seq<Entry<V>>, i: int)
    requires
        distinct(entries),
        0 <= i < entries.len(),
    ensures
        entries_map(entries).contains_key(entries[i].node()),
        entries_map(entries)[entries[i].node()] == entries[i].value@,
    decreases entries.len(),
{
    let front = entries.drop_last();
    if i < front.len() {
        entries_map_value(front, i);
        assert(front[i] == entries[i]);
        assert(entries[entries.len() - 1].node() != entries[i].node());
    }
}

proof fn entries_map_update<V: View>(entries: Seq<Entry<V>>, i: int, entry: Entry<V>)
    requires
        distinct(entries),
        0 <= i < entries.len(),
        entry.node() == entries[i].node(),
    ensures
        entries_map(entries.update(i, entry)) == entries_map(entries).insert(
            entry.node(),
            entry.value@,
        ),
    decreases entries.len(),
{
    let front = entries.drop_last();
    let updated = entries.update(i, entry);
    if i == entries.len() - 1 {
        assert(updated.drop_last() =~= front);
        assert(entries_map(updated) =~= entries_map(entries).insert(entry.node(), entry.value@));
    } else {
        entries_map_update(front, i, entry);
        assert(updated.drop_last() =~= front.update(i, entry));
        assert(entries[i].node() != entries[entries.len() - 1].node());
        assert(entries_map(updated) =~= entries_map(entries).insert(entry.node(), entry.value@));
    }
}

proof fn entries_map_len<V: View>(entries: Seq<Entry<V>>)
    requires
        distinct(entries),
    ensures
        entries_map(entries).dom().finite(),
        entries_map(entries).dom().len() == entries.len(),
    decreases entries.len(),
{
    if entries.len() > 0 {
        let front = entries.drop_last();
        entries_map_len(front);
        let node = entries.last().node();
        entries_map_keys(front, node);
        if entries_map(front).contains_key(node) {
            let i = choose|i: int| 0 <= i < front.len() && (#[trigger] front[i]).node() == node;
            assert(entries[i].node() == entries[entries.len() - 1].node());
        }
        assert(entries_map(entries).dom() =~= entries_map(front).dom().insert(node));
    }
}

impl<V: View> View for ScopedMap<V> {
    type V = Map<Node, V::V>;

    closed spec fn view(&self) -> Map<Node, V::V> {
        entries_map(self.entries@)
    }
}

impl<V: View> ScopedMap<V> {
    /// Whether each entry can be found by its signal, and is the only one of its key.
    pub closed spec fn wf(self) -> bool {
        &&& distinct(self.entries@)
        &&& forall|i: int|
            0 <= i < self.entries@.len() ==> self.by_signal@.contains_key(
                (#[trigger] self.entries@[i]).signal,
            ) && self.by_signal@[self.entries@[i].signal]@.contains(i as usize)
        &&& forall|signal: usize, k: int|
            self.by_signal@.contains_key(signal) && 0 <= k < self.by_signal@[signal]@.len()
                ==> (#[trigger] self.by_signal@[signal]@[k]) < self.entries@.len()
    }

    /// Creates an empty map.
    pub fn new() -> (map: ScopedMap<V>)
        ensures
            map.wf(),
            map@ == Map::<Node, V::V>::empty(),
    {
        ScopedMap { entries: Vec::new(), by_signal: HashMap::new() }
    }

    /// Returns the number of entries.
    pub fn len(&self) -> (len: usize)
        requires
            self.wf(),
        ensures
            self@.dom().finite(),
            len == self@.len(),
    {
        proof {
            entries_map_len(self.entries@);
        }
        self.entries.len()
    }

    /// A map holds a finite number of entries.
    pub proof fn holds_finitely(self)
        requires
            self.wf(),
        ensures
            self@.dom().finite(),
    {
        entries_map_len(self.entries@);
    }

    /// Returns the position of an entry.
    fn position(&self, path: &InstanceStack, signal: usize) -> (position: Option<usize>)
        requires
            self.wf(),
        ensures
            match position {
                Some(i) => {
                    &&& i < self.entries@.len()
                    &&& self.entries@[i as int].node() == (Node { path: path@, signal })
                },
                None => !self@.contains_key(Node { path: path@, signal }),
            },
    {
        let ghost node = Node { path: path@, signal };
        match self.by_signal.get(&signal) {
            Some(positions) => {
                let mut k: usize = 0;
                while k < positions.len()
                    invariant
                        k <= positions@.len(),
                        self.wf(),
                        node == (Node { path: path@, signal }),
                        self.by_signal@.contains_key(signal),
                        self.by_signal@[signal] == *positions,
                        forall|j: int|
                            0 <= j < k ==> self.entries@[(#[trigger] positions@[j]) as int].node()
                                != node,
                    decreases positions@.len() - k,
                {
                    let i = positions[k];
                    assert(self.by_signal@[signal]@[k as int] == i);
                    if self.entries[i].signal == signal && self.entries[i].path.same(path) {
                        return Some(i);
                    }
                    k += 1;
                }
                proof {
                    entries_map_keys(self.entries@, node);
                    if self@.contains_key(node) {
                        let i = choose|i: int|
                            0 <= i < self.entries@.len() && (#[trigger] self.entries@[i]).node()
                                == node;
                        assert(i < self.entries.len());
                        let j = choose|j: int|
                            0 <= j < positions@.len() && positions@[j] == i as usize;
                        assert(self.entries@[positions@[j] as int].node() != node);
                    }
                }
                None
            },
            None => {
                proof {
                    entries_map_keys(self.entries@, node);
                    if self@.contains_key(node) {
                        let i = choose|i: int|
                            0 <= i < self.entries@.len() && (#[trigger] self.entries@[i]).node()
                                == node;
                        assert(self.by_signal@.contains_key(self.entries@[i].signal));
                    }
                }
                None
            },
        }
    }

    /// Returns the value of `signal`, seen from `path`.
    pub fn get(&self, path: &InstanceStack, signal: usize) -> (value: Option<&V>)
        requires
            self.wf(),
        ensures
            match value {
                Some(value) => {
                    &&& self@.contains_key(Node { path: path@, signal })
                    &&& value@ == self@[Node { path: path@, signal }]
                },
                None => !self@.contains_key(Node { path: path@, signal }),
            },
    {
        match self.position(path, signal) {
            Some(i) => {
                proof {
                    entries_map_value(self.entries@, i as int);
                }
                Some(&self.entries[i].value)
            },
            None => None,
        }
    }

    /// Whether there is a value for `signal`, seen from `path`.
    pub fn contains_key(&self, path: &InstanceStack, signal: usize) -> (contains: bool)
        requires
            self.wf(),
        ensures
            contains == self@.contains_key(Node { path: path@, signal }),
    {
        self.get(path, signal).is_some()
    }

    /// Lists the entries: for each the place, the signal and the value.
    pub fn entries(&self) -> (list: Vec<(&InstanceStack, usize, &V)>)
        requires
            self.wf(),
        ensures
            list@.len() == self@.len(),
            forall|i: int|
                0 <= i < list@.len() ==> self@.contains_pair(
                    (Node { path: (#[trigger] list@[i]).0@, signal: list@[i].1 }),
                    list@[i].2@,
                ),
            forall|n: Node| #[trigger]
                self@.contains_key(n) ==> exists|i: int|
                    0 <= i < list@.len() && n.path == (#[trigger] list@[i]).0@ && n.signal
                        == list@[i].1,
    {
        let mut list: Vec<(&InstanceStack, usize, &V)> = Vec::new();
        let mut k: usize = 0;
        while k < self.entries.len()
            invariant
                k <= self.entries@.len(),
                list@.len() == k,
                forall|i: int|
                    0 <= i < k ==> {
                        &&& (#[trigger] list@[i]).0@ == self.entries@[i].path@
                        &&& list@[i].1 == self.entries@[i].signal
                        &&& list@[i].2@ == self.entries@[i].value@
                    },
            decreases self.entries@.len() - k,
        {
            let entry = &self.entries[k];
            list.push((&entry.path, entry.signal, &entry.value));
            k += 1;
        }
        proof {
            entries_map_len(self.entries@);
            assert forall|i: int| 0 <= i < list@.len() implies self@.contains_pair(
                (Node { path: (#[trigger] list@[i]).0@, signal: list@[i].1 }),
                list@[i].2@,
            ) by {
                entries_map_value(self.entries@, i);
            }
            assert forall|n: Node| #[trigger] self@.contains_key(n) implies exists|i: int|
                0 <= i < list@.len() && n.path == (#[trigger] list@[i]).0@ && n.signal
                    == list@[i].1 by {
                entries_map_keys(self.entries@, n);
                let i = choose|i: int|
                    0 <= i < self.entries@.len() && (#[trigger] self.entries@[i]).node() == n;
                assert(n.path == list@[i].0@);
            }
        }
        list
    }

    /// Gives `signal`, seen from `path`, the value `value`, in place of the one it had.
    pub fn insert(&mut self, path: InstanceStack, signal: usize, value: V)
        requires
            old(self).wf(),
        ensures
            final(self).wf(),
            final(self)@ == old(self)@.insert(Node { path: path@, signal }, value@),
    {
        match self.position(&path, signal) {
            Some(i) => {
                let entry = Entry { path, signal, value };
                proof {
                    entries_map_update(self.entries@, i as int, entry);
                    assert forall|a: int, b: int|
                        0 <= a < b < self.entries@.len() implies (#[trigger] self.entries@.update(
                        i as int,
                        entry,
                    )[a]).node() != (#[trigger] self.entries@.update(i as int, entry)[b]).node() by {
                        assert(self.entries@[a].node() != self.entries@[b].node());
                    }
                }
                self.entries.set(i, entry);
                proof {
                    assert forall|a: int|
                        0 <= a < self.entries@.len() implies self.by_signal@.contains_key(
                        (#[trigger] self.entries@[a]).signal,
                    ) && self.by_signal@[self.entries@[a].signal]@.contains(a as usize) by {
                        assert(self.entries@[a].signal == old(self).entries@[a].signal);
                    }
                }
            },
            None => self.add(path, signal, value),
        }
    }

    /// Adds a value for `signal`, seen from `path`, which has none yet.
    fn add(&mut self, path: InstanceStack, signal: usize, value: V)
        requires
            old(self).wf(),
            !old(self)@.contains_key(Node { path: path@, signal }),
        ensures
            final(self).wf(),
            final(self)@ == old(self)@.insert(Node { path: path@, signal }, value@),
    {
        let ghost node = Node { path: path@, signal };
        let i = self.entries.len();
        let mut positions: Vec<usize> = match self.by_signal.remove(&signal) {
            Some(positions) => positions,
            None => Vec::new(),
        };
        let ghost before = positions@;
        positions.push(i);
        self.by_signal.insert(signal, positions);
        self.entries.push(Entry { path, signal, value });
        proof {
            let entries = self.entries@;
            assert(entries.drop_last() =~= old(self).entries@);
            entries_map_keys(old(self).entries@, node);
            assert forall|a: int, b: int| 0 <= a < b < entries.len() implies (
            #[trigger] entries[a]).node() != (#[trigger] entries[b]).node() by {
                assert(entries[a] == old(self).entries@[a]);
                if b < i {
                    assert(entries[b] == old(self).entries@[b]);
                }
            }
            assert forall|a: int| 0 <= a < entries.len() implies self.by_signal@.contains_key(
                (#[trigger] entries[a]).signal,
            ) && self.by_signal@[entries[a].signal]@.contains(a as usize) by {
                if a == i {
                    assert(self.by_signal@[signal]@[before.len() as int] == i);
                } else {
                    assert(entries[a] == old(self).entries@[a]);
                    if entries[a].signal == signal {
                        let k = choose|k: int| 0 <= k < before.len() && before[k] == a as usize;
                        assert(self.by_signal@[signal]@[k] == a as usize);
                    }
                }
            }
            assert forall|s: usize, k: int|
                self.by_signal@.contains_key(s) && 0 <= k < self.by_signal@[s]@.len() implies (
            #[trigger] self.by_signal@[s]@[k]) < entries.len() by {
                if s == signal {
                    if k < before.len() {
                        assert(before[k] < old(self).entries@.len());
                    }
                } else {
                    assert(self.by_signal@[s]@[k] == old(self).by_signal@[s]@[k]);
                }
            }
        }
    }
}

} // verus!
