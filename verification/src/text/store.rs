//! Storage for shaped text, keyed and owned.
//!
//! A client's text is shaped once and kept here; scene nodes refer to a
//! [`TextKey`]. Every entry records the client that owns it, so that a
//! disconnect drops the lot in one call.

use std::collections::HashMap;

use vstd::prelude::*;

verus! {

broadcast use vstd::std_specs::hash::group_hash_axioms;

/// Handle to a shaped text in a [`TextStore`].
///
/// Keys are handed out from a counter that only ever counts up and wraps
/// after four billion texts, so that a key that outlives its entry misses
/// rather than naming a later one.
#[derive(Debug, Clone, Copy, PartialEq, Eq, Structural, PartialOrd, Ord, Hash)]
pub struct TextKey(pub u32);

/// One entry: the text and its owner.
pub struct Entry<T> {
    /// The client that owns the text.
    pub owner: u32,
    /// The text.
    pub text: T,
}

/// The shaped-text store, for shaped texts of type `T`.
pub struct TextStore<T> {
    entries: HashMap<u32, Entry<T>>,
    by_owner: HashMap<u32, Vec<u32>>,
    next: u32,
}

/// What a [`TextStore`] holds, as mathematical values.
pub struct StoreView<T> {
    /// The texts and their owners, by key.
    pub entries: Map<u32, Entry<T>>,
    /// The keys listed under each owner, oldest first.
    pub owned: Map<u32, Seq<u32>>,
    /// The next key that is handed out.
    pub next: u32,
}

impl<T> View for TextStore<T> {
    type V = StoreView<T>;

    closed spec fn view(&self) -> StoreView<T> {
        StoreView {
            entries: self.entries@,
            owned: self.by_owner@.map_values(|v: Vec<u32>| v@),
            next: self.next,
        }
    }
}

/// `list` without `key`.
pub open spec fn without(list: Seq<u32>, key: u32) -> Seq<u32>
    decreases list.len(),
{
    if list.len() == 0 {
        Seq::empty()
    } else if list.last() == key {
        without(list.drop_last(), key)
    } else {
        without(list.drop_last(), key).push(list.last())
    }
}

proof fn lemma_without(list: Seq<u32>, key: u32)
    ensures
        forall|k: u32| #[trigger] without(list, key).contains(k) <==> list.contains(k) && k != key,
    decreases list.len(),
{
    if list.len() > 0 {
        let head = list.drop_last();
        lemma_without(head, key);
        let out = without(list, key);
        let mid = without(head, key);
        assert forall|k: u32| #[trigger] out.contains(k) <==> list.contains(k) && k != key by {
            if out.contains(k) {
                let i = choose|i: int| 0 <= i < out.len() && out[i] == k;
                if i < mid.len() {
                    assert(mid[i] == k);
                    assert(mid.contains(k));
                    let j = choose|j: int| 0 <= j < head.len() && head[j] == k;
                    assert(list[j] == k);
                } else {
                    assert(list[list.len() - 1] == k);
                }
            }
            if list.contains(k) && k != key {
                let j = choose|j: int| 0 <= j < list.len() && list[j] == k;
                if j < head.len() {
                    assert(head[j] == k);
                    assert(mid.contains(k));
                    let i = choose|i: int| 0 <= i < mid.len() && mid[i] == k;
                    assert(out[i] == k);
                } else {
                    assert(out[mid.len() as int] == k);
                }
            }
        }
    }
}

/// The map without the keys of `list`.
pub open spec fn stripped<T>(m: Map<u32, Entry<T>>, list: Seq<u32>) -> Map<u32, Entry<T>> {
    m.remove_keys(list.to_set())
}

/// The map without what `owner` owns.
pub open spec fn disowned<T>(m: Map<u32, Entry<T>>, owner: u32) -> Map<u32, Entry<T>> {
    Map::new(|k: u32| m.dom().contains(k) && m[k].owner != owner, |k: u32| m[k])
}

/// The keys listed under an owner.
pub open spec fn listed(owned: Map<u32, Seq<u32>>, owner: u32) -> Seq<u32> {
    if owned.dom().contains(owner) {
        owned[owner]
    } else {
        Seq::empty()
    }
}

/// The store after a text was inserted.
pub open spec fn inserted<T>(v: StoreView<T>, owner: u32, text: T) -> StoreView<T> {
    StoreView {
        entries: v.entries.insert(v.next, Entry { owner, text }),
        owned: v.owned.insert(owner, listed(v.owned, owner).push(v.next)),
        next: if v.next == u32::MAX {
            0u32
        } else {
            (v.next + 1) as u32
        },
    }
}

/// The store after a key was removed; an owner with no keys left is
/// forgotten.
pub open spec fn removed<T>(v: StoreView<T>, key: u32) -> StoreView<T> {
    if v.entries.dom().contains(key) {
        let owner = v.entries[key].owner;
        let kept = without(listed(v.owned, owner), key);
        StoreView {
            entries: v.entries.remove(key),
            owned: if kept.len() > 0 {
                v.owned.insert(owner, kept)
            } else {
                v.owned.remove(owner)
            },
            ..v
        }
    } else {
        v
    }
}

/// The store after everything listed under an owner was dropped.
pub open spec fn cleared<T>(v: StoreView<T>, owner: u32) -> StoreView<T> {
    StoreView {
        entries: stripped(v.entries, listed(v.owned, owner)),
        owned: v.owned.remove(owner),
        ..v
    }
}

/// The keys listed under an owner are those of its texts, and no owner is
/// listed without one.
pub open spec fn tidy<T>(v: StoreView<T>) -> bool {
    &&& forall|k: u32| #[trigger]
        v.entries.dom().contains(k) ==> listed(v.owned, v.entries[k].owner).contains(k)
    &&& forall|o: u32, k: u32| #[trigger]
        listed(v.owned, o).contains(k) ==> v.entries.dom().contains(k) && v.entries[k].owner == o
    &&& forall|o: u32| #[trigger] v.owned.dom().contains(o) ==> v.owned[o].len() > 0
}

impl<T> TextStore<T> {
    /// An empty store.
    pub fn new() -> (s: TextStore<T>)
        ensures
            s@ == (StoreView::<T> { entries: Map::empty(), owned: Map::empty(), next: 0 }),
            tidy(s@),
    {
        let s = TextStore { entries: HashMap::new(), by_owner: HashMap::new(), next: 0 };
        assert(s@.owned =~= Map::<u32, Seq<u32>>::empty());
        s
    }

    /// Insert shaped text owned by `owner`.
    pub fn insert(&mut self, owner: u32, text: T) -> (key: TextKey)
        ensures
            key.0 == old(self)@.next,
            final(self)@ == inserted(old(self)@, owner, text),
    {
        let key: u32 = self.next;
        self.next = self.next.wrapping_add(1);
        self.entries.insert(key, Entry { owner, text });
        let mut list: Vec<u32> = match self.by_owner.remove(&owner) {
            Some(v) => v,
            None => Vec::new(),
        };
        assert(list@ =~= listed(old(self)@.owned, owner));
        list.push(key);
        self.by_owner.insert(owner, list);
        assert(self@.owned =~= inserted(old(self)@, owner, text).owned);
        TextKey(key)
    }

    /// Look up shaped text.
    pub fn get(&self, key: TextKey) -> (r: Option<&T>)
        ensures
            match r {
                Some(t) => self@.entries.dom().contains(key.0) && *t == self@.entries[key.0].text,
                None => !self@.entries.dom().contains(key.0),
            },
    {
        match self.entries.get(&key.0) {
            Some(e) => Some(&e.text),
            None => None,
        }
    }

    /// Remove one entry, returning it.
    pub fn remove(&mut self, key: TextKey) -> (r: Option<T>)
        ensures
            final(self)@ == removed(old(self)@, key.0),
            match r {
                Some(t) => old(self)@.entries.dom().contains(key.0) && t
                    == old(self)@.entries[key.0].text,
                None => !old(self)@.entries.dom().contains(key.0),
            },
    {
        match self.entries.remove(&key.0) {
            None => {
                assert(self@.entries =~= old(self)@.entries);
                None
            },
            Some(e) => {
                let list: Vec<u32> = match self.by_owner.remove(&e.owner) {
                    Some(v) => v,
                    None => Vec::new(),
                };
                assert(list@ =~= listed(old(self)@.owned, e.owner));
                let kept = drop_key(&list, key.0);
                if kept.len() > 0 {
                    self.by_owner.insert(e.owner, kept);
                }
                assert(self@.owned =~= removed(old(self)@, key.0).owned);
                Some(e.text)
            },
        }
    }

    /// Drop everything `owner` owns: what a client disconnect calls.
    pub fn remove_owner(&mut self, owner: u32)
        ensures
            final(self)@ == cleared(old(self)@, owner),
    {
        let ghost start = self.entries@;
        let list: Vec<u32> = match self.by_owner.remove(&owner) {
            Some(v) => v,
            None => Vec::new(),
        };
        assert(list@ =~= listed(old(self)@.owned, owner));
        let mut i: usize = 0;
        assert(self.entries@ =~= stripped(start, list@.take(0)));
        while i < list.len()
            invariant
                i <= list.len(),
                self.next == old(self).next,
                self.by_owner@ == old(self).by_owner@.remove(owner),
                self.entries@ == stripped(start, list@.take(i as int)),
            decreases list.len() - i,
        {
            self.entries.remove(&list[i]);
            proof {
                lemma_take_set(list@, i as int);
                assert(self.entries@ =~= stripped(start, list@.take(i + 1)));
            }
            i += 1;
        }
        assert(list@.take(i as int) =~= list@);
        assert(self@.owned =~= old(self)@.owned.remove(owner));
    }

    /// Number of entries.
    pub fn len(&self) -> (n: usize)
        ensures
            n == self@.entries.len(),
    {
        self.entries.len()
    }

    /// True when the store holds nothing.
    pub fn is_empty(&self) -> (r: bool)
        ensures
            r == (self@.entries.len() == 0),
    {
        self.entries.len() == 0
    }
}

proof fn lemma_take_set(s: Seq<u32>, i: int)
    requires
        0 <= i < s.len(),
    ensures
        s.take(i + 1).to_set() == s.take(i).to_set().insert(s[i]),
{
    let a = s.take(i);
    let b = s.take(i + 1);
    assert forall|x: u32| b.contains(x) <==> a.contains(x) || x == s[i] by {
        if a.contains(x) {
            let j = choose|j: int| 0 <= j < a.len() && a[j] == x;
            assert(b[j] == x);
        }
        assert(b[i] == s[i]);
        if b.contains(x) {
            let j = choose|j: int| 0 <= j < b.len() && b[j] == x;
            if j < i {
                assert(a[j] == x);
            }
        }
    }
    assert(b.to_set() =~= a.to_set().insert(s[i]));
}

fn drop_key(list: &Vec<u32>, key: u32) -> (out: Vec<u32>)
    ensures
        out@ == without(list@, key),
{
    let mut out: Vec<u32> = Vec::new();
    let mut i: usize = 0;
    assert(list@.take(0) =~= Seq::<u32>::empty());
    while i < list.len()
        invariant
            i <= list.len(),
            out@ == without(list@.take(i as int), key),
        decreases list.len() - i,
    {
        proof {
            assert(list@.take(i + 1).drop_last() =~= list@.take(i as int));
            assert(list@.take(i + 1).last() == list@[i as int]);
        }
        if list[i] != key {
            out.push(list[i]);
        }
        i += 1;
    }
    assert(list@.take(i as int) =~= list@);
    out
}

/// A text that is put in is the one that comes out, and under a key that is
/// free it disturbs nothing and keeps the store tidy.
pub proof fn what_goes_in_comes_out<T>(v: StoreView<T>, owner: u32, text: T)
    requires
        tidy(v),
        !v.entries.dom().contains(v.next),
    ensures
        inserted(v, owner, text).entries[v.next].text == text,
        forall|k: u32| #[trigger]
            v.entries.dom().contains(k) ==> inserted(v, owner, text).entries[k] == v.entries[k],
        tidy(inserted(v, owner, text)),
{
    let w = inserted(v, owner, text);
    let old_list = listed(v.owned, owner);
    let new_list = old_list.push(v.next);
    assert forall|k: u32| #[trigger] w.entries.dom().contains(k) implies listed(
        w.owned,
        w.entries[k].owner,
    ).contains(k) by {
        if k == v.next {
            assert(new_list[old_list.len() as int] == k);
        } else {
            assert(v.entries.dom().contains(k));
            if v.entries[k].owner == owner {
                let i = choose|i: int| 0 <= i < old_list.len() && old_list[i] == k;
                assert(new_list[i] == k);
            }
        }
    }
    assert forall|o: u32, k: u32| #[trigger] listed(w.owned, o).contains(k) implies w.entries.dom().contains(
    k) && w.entries[k].owner == o by {
        if o == owner {
            let i = choose|i: int| 0 <= i < new_list.len() && new_list[i] == k;
            if i < old_list.len() {
                assert(old_list[i] == k);
                assert(listed(v.owned, o).contains(k));
            }
        } else {
            assert(listed(v.owned, o).contains(k));
        }
    }
}

/// Removing a key drops that text alone and keeps the store tidy.
pub proof fn a_key_goes_alone<T>(v: StoreView<T>, key: u32)
    requires
        tidy(v),
    ensures
        removed(v, key).entries == v.entries.remove(key),
        tidy(removed(v, key)),
{
    if v.entries.dom().contains(key) {
        let w = removed(v, key);
        let owner = v.entries[key].owner;
        let list = listed(v.owned, owner);
        lemma_without(list, key);
        assert forall|k: u32| #[trigger] w.entries.dom().contains(k) implies listed(
            w.owned,
            w.entries[k].owner,
        ).contains(k) by {
            assert(v.entries.dom().contains(k));
            if v.entries[k].owner == owner {
                assert(without(list, key).contains(k));
            }
        }
        assert forall|o: u32, k: u32| #[trigger] listed(w.owned, o).contains(k) implies w.entries.dom().contains(
        k) && w.entries[k].owner == o by {
            if o == owner {
                assert(without(list, key).contains(k));
                assert(list.contains(k));
            } else {
                assert(listed(v.owned, o).contains(k));
            }
        }
    } else {
        assert(v.entries.remove(key) =~= v.entries);
    }
}

/// Dropping an owner drops exactly its texts and keeps the store tidy;
/// dropping it again does nothing.
pub proof fn an_owner_goes_alone<T>(v: StoreView<T>, owner: u32)
    requires
        tidy(v),
    ensures
        cleared(v, owner).entries == disowned(v.entries, owner),
        tidy(cleared(v, owner)),
        cleared(cleared(v, owner), owner) == cleared(v, owner),
{
    let w = cleared(v, owner);
    let list = listed(v.owned, owner);
    assert forall|k: u32| list.contains(k) <==> v.entries.dom().contains(k) && v.entries[k].owner
        == owner by {}
    assert(w.entries =~= disowned(v.entries, owner));
    assert forall|k: u32| #[trigger] w.entries.dom().contains(k) implies listed(
        w.owned,
        w.entries[k].owner,
    ).contains(k) by {
        assert(v.entries.dom().contains(k));
    }
    assert forall|o: u32, k: u32| #[trigger] listed(w.owned, o).contains(k) implies w.entries.dom().contains(
    k) && w.entries[k].owner == o by {
        assert(listed(v.owned, o).contains(k));
    }
    let x = cleared(w, owner);
    assert(x.owned =~= w.owned);
    assert(listed(w.owned, owner) =~= Seq::<u32>::empty());
    assert(x.entries =~= w.entries);
}

} // verus!
