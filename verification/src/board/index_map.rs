use vstd::prelude::*;
use crate::board::{Board, BoardIdxType};

verus! {

/// The item of the last entry with index `i`, if any.
pub open spec fn entry_lookup<I, T>(s: Seq<(I, T)>, i: I) -> Option<T>
    decreases s.len(),
{
    if s.len() == 0 {
        None
    } else if s.last().0 == i {
        Some(s.last().1)
    } else {
        entry_lookup(s.drop_last(), i)
    }
}

/// The indices of the entries, in order.
pub open spec fn entry_keys<I, T>(s: Seq<(I, T)>) -> Seq<I> {
    s.map_values(|e: (I, T)| e.0)
}

/// The entries of `s` whose flag in `keep` is set, in their order.
pub open spec fn filter_by<A>(s: Seq<A>, keep: Seq<bool>) -> Seq<A>
    decreases s.len(),
{
    if s.len() == 0 {
        Seq::empty()
    } else {
        let prev = filter_by(s.drop_last(), keep);
        if keep[s.len() - 1] {
            prev.push(s.last())
        } else {
            prev
        }
    }
}

/// `keep` holds, for each entry, what the filter answered for it.
pub open spec fn accepted_by<I, T, F: Fn(I, &T) -> bool>(filter: &F, s: Seq<(I, T)>, keep: Seq<bool>) -> bool {
    &&& keep.len() == s.len()
    &&& forall|k: int| 0 <= k < s.len() ==> filter.ensures((s[k].0, &s[k].1), #[trigger] keep[k])
}

/// No index occurs twice.
pub open spec fn unique_keys<I, T>(s: Seq<(I, T)>) -> bool {
    forall|a: int, b: int| 0 <= a < b < s.len() ==> s[a].0 != s[b].0
}

/// A map from the indices of a board to items.  The indices are listed in
/// the order of their insertion.
pub trait IndexMap: Sized {
    type IndexType: BoardIdxType;
    type Item;

    /// The entries in the order of their insertion.
    spec fn spec_entries(&self) -> Seq<(Self::IndexType, Self::Item)>;

    fn size(&self) -> (r: usize)
        ensures
            r == self.spec_entries().len(),
    ;

    fn contains(&self, i: Self::IndexType) -> (r: bool)
        ensures
            r == entry_lookup(self.spec_entries(), i) is Some,
    ;

    fn get(&self, i: Self::IndexType) -> (r: Option<&Self::Item>)
        ensures
            r is Some == entry_lookup(self.spec_entries(), i) is Some,
            r matches Some(v) ==> entry_lookup(self.spec_entries(), i) == Some(*v),
    ;

    /// The item of an index, to be changed in place.
    fn get_mut(&mut self, i: Self::IndexType) -> (r: Option<&mut Self::Item>)
        ensures
            r is Some == entry_lookup(old(self).spec_entries(), i) is Some,
            r matches Some(v) ==> entry_lookup(old(self).spec_entries(), i) == Some(*v),
            r matches Some(v) ==> entry_lookup(final(self).spec_entries(), i) == Some(*final(v)),
            forall|j: Self::IndexType| j != i ==> entry_lookup(final(self).spec_entries(), j) == entry_lookup(
                old(self).spec_entries(),
                j,
            ),
            entry_keys(final(self).spec_entries()) == entry_keys(old(self).spec_entries()),
            final(self).spec_entries().len() == old(self).spec_entries().len(),
            unique_keys(old(self).spec_entries()) ==> unique_keys(final(self).spec_entries()),
    ;

    /// Sets the item of an index; returns the item it had before.
    fn insert(&mut self, i: Self::IndexType, el: Self::Item) -> (r: Option<Self::Item>)
        ensures
            unique_keys(old(self).spec_entries()) ==> unique_keys(final(self).spec_entries()),
            r == entry_lookup(old(self).spec_entries(), i),
            entry_lookup(final(self).spec_entries(), i) == Some(el),
            forall|j: Self::IndexType| j != i ==> entry_lookup(final(self).spec_entries(), j) == entry_lookup(
                old(self).spec_entries(),
                j,
            ),
            r is Some ==> entry_keys(final(self).spec_entries()) == entry_keys(old(self).spec_entries()),
            r is None ==> entry_keys(final(self).spec_entries()) == entry_keys(old(self).spec_entries()).push(i),
    ;

    /// The indices in the order of their insertion.
    fn iter_indices(&self) -> (r: Vec<Self::IndexType>)
        ensures
            r@ == entry_keys(self.spec_entries()),
    ;

    fn clear(&mut self)
        ensures
            final(self).spec_entries().len() == 0,
    ;
}

/// A board that provides maps from its indices.
pub trait BoardToMap<T>: Board {
    type Map: IndexMap<Item = T, IndexType = Self::Index>;

    /// An empty map.
    fn get_index_map(&self) -> (r: Self::Map)
        ensures
            r.spec_entries().len() == 0,
    ;
}

proof fn lemma_lookup_push<I, T>(s: Seq<(I, T)>, e: (I, T), j: I)
    ensures
        entry_lookup(s.push(e), j) == (if e.0 == j { Some(e.1) } else { entry_lookup(s, j) }),
{
    assert(s.push(e).drop_last() =~= s);
}

proof fn lemma_lookup_update<I, T>(s: Seq<(I, T)>, k: int, v: T, j: I)
    requires
        0 <= k < s.len(),
        forall|a: int| k < a < s.len() ==> s[a].0 != s[k].0,
    ensures
        entry_lookup(s.update(k, (s[k].0, v)), j) == (if s[k].0 == j { Some(v) } else { entry_lookup(s, j) }),
    decreases s.len(),
{
    let u = s.update(k, (s[k].0, v));
    if k == s.len() - 1 {
        assert(u.drop_last() =~= s.drop_last());
        if s[k].0 != j {
        }
    } else {
        assert(u.drop_last() =~= s.drop_last().update(k, (s[k].0, v)));
        lemma_lookup_update(s.drop_last(), k, v, j);
        if s.last().0 == j {
            assert(s[k].0 != s.last().0);
        }
    }
}

proof fn lemma_lookup_absent<I, T>(s: Seq<(I, T)>, j: I)
    requires
        forall|a: int| 0 <= a < s.len() ==> (#[trigger] s[a]).0 != j,
    ensures
        entry_lookup(s, j) is None,
    decreases s.len(),
{
    if s.len() > 0 {
        lemma_lookup_absent(s.drop_last(), j);
    }
}

proof fn lemma_lookup_found<I, T>(s: Seq<(I, T)>, k: int)
    requires
        0 <= k < s.len(),
        forall|a: int| k < a < s.len() ==> s[a].0 != s[k].0,
    ensures
        entry_lookup(s, s[k].0) == Some(s[k].1),
    decreases s.len(),
{
    if k < s.len() - 1 {
        assert(s.last().0 != s[k].0);
        lemma_lookup_found(s.drop_last(), k);
    }
}

proof fn lemma_lookup_update_all<I, T>(s: Seq<(I, T)>, k: int, v: T)
    requires
        0 <= k < s.len(),
        forall|a: int| k < a < s.len() ==> s[a].0 != s[k].0,
    ensures
        forall|j: I| #[trigger] entry_lookup(s.update(k, (s[k].0, v)), j) == (if s[k].0 == j {
            Some(v)
        } else {
            entry_lookup(s, j)
        }),
        entry_keys(s.update(k, (s[k].0, v))) == entry_keys(s),
        unique_keys(s) ==> unique_keys(s.update(k, (s[k].0, v))),
{
    assert forall|j: I| #[trigger] entry_lookup(s.update(k, (s[k].0, v)), j) == (if s[k].0 == j {
        Some(v)
    } else {
        entry_lookup(s, j)
    }) by {
        lemma_lookup_update(s, k, v, j);
    }
    assert(entry_keys(s.update(k, (s[k].0, v))) =~= entry_keys(s));
    let u = s.update(k, (s[k].0, v));
    if unique_keys(s) {
        assert forall|a: int, b: int| 0 <= a < b < u.len() implies u[a].0 != u[b].0 by {
            assert(u[a].0 == s[a].0 && u[b].0 == s[b].0);
        }
    }
}

proof fn lemma_filter_by_agree<A>(s: Seq<A>, k1: Seq<bool>, k2: Seq<bool>)
    requires
        forall|i: int| 0 <= i < s.len() ==> k1[i] == k2[i],
    ensures
        filter_by(s, k1) == filter_by(s, k2),
    decreases s.len(),
{
    if s.len() > 0 {
        lemma_filter_by_agree(s.drop_last(), k1, k2);
    }
}

proof fn lemma_filter_by_step<A>(s: Seq<A>, keep: Seq<bool>, j: int, b: bool)
    requires
        0 <= j < s.len(),
        keep.len() == j,
    ensures
        filter_by(s.take(j + 1), keep.push(b)) == (if b {
            filter_by(s.take(j), keep).push(s[j])
        } else {
            filter_by(s.take(j), keep)
        }),
{
    assert(s.take(j + 1).drop_last() =~= s.take(j));
    lemma_filter_by_agree(s.take(j), keep.push(b), keep);
}

/// Each listed index has an entry.
pub proof fn lemma_key_found<I, T>(s: Seq<(I, T)>, k: int)
    requires
        0 <= k < s.len(),
    ensures
        entry_lookup(s, s[k].0) is Some,
        entry_keys(s)[k] == s[k].0,
    decreases s.len(),
{
    if k < s.len() - 1 && s.last().0 != s[k].0 {
        lemma_key_found(s.drop_last(), k);
    }
}

/// A map from indices to items that lists its indices in the order of
/// their insertion.  It is kept as a vector of index/item pairs searched
/// from the front: the index type is generic, and over a vector the
/// contents of the map can be stated for every index type.
#[derive(Debug, Clone)]
pub struct HashIndexMap<I, T> {
    entries: Vec<(I, T)>,
}

impl<I: BoardIdxType, T> HashIndexMap<I, T> {
    pub fn new() -> (r: Self)
        ensures
            r.spec_entries().len() == 0,
    {
        Self { entries: Vec::new() }
    }

    /// The position of the last entry with index `i`, if any.
    fn position(&self, i: I) -> (r: Option<usize>)
        ensures
            r matches Some(k) ==> k < self.entries@.len() && self.entries@[k as int].0 == i && forall|a: int|
                k < a < self.entries@.len() ==> (#[trigger] self.entries@[a]).0 != i,
            r is None ==> forall|a: int| 0 <= a < self.entries@.len() ==> (#[trigger] self.entries@[a]).0 != i,
    {
        let mut k: usize = self.entries.len();
        while k > 0
            invariant
                k <= self.entries@.len(),
                forall|a: int| k <= a < self.entries@.len() ==> (#[trigger] self.entries@[a]).0 != i,
            decreases k,
        {
            if self.entries[k - 1].0.index_eq(&i) {
                return Some(k - 1);
            }
            k -= 1;
        }
        None
    }
}

impl<I: BoardIdxType, T> HashIndexMap<I, T> {
    /// Keeps the entries that the filter accepts, in their order.
    pub fn retain<F: Fn(I, &T) -> bool>(&mut self, filter: F)
        requires
            forall|i: I, t: &T| #[trigger] filter.requires((i, t)),
        ensures
            exists|keep: Seq<bool>| accepted_by(&filter, old(self).spec_entries(), keep)
                && final(self).spec_entries() == #[trigger] filter_by(old(self).spec_entries(), keep),
    {
        let ghost old_entries = self.entries@;
        let ghost mut keep: Seq<bool> = Seq::empty();
        let ghost mut j: int = 0;
        let mut k: usize = 0;
        assert(old_entries.take(0) =~= Seq::<(I, T)>::empty());
        assert(old_entries.skip(0) =~= old_entries);
        while k < self.entries.len()
            invariant
                0 <= j <= old_entries.len(),
                keep.len() == j,
                forall|a: int| 0 <= a < j ==> filter.ensures((old_entries[a].0, &old_entries[a].1), #[trigger] keep[a]),
                k == filter_by(old_entries.take(j), keep).len(),
                self.entries@ == filter_by(old_entries.take(j), keep) + old_entries.skip(j),
                forall|i: I, t: &T| #[trigger] filter.requires((i, t)),
            decreases self.entries@.len() - k,
        {
            assert(self.entries@[k as int] == old_entries[j]);
            let b = filter(self.entries[k].0, &self.entries[k].1);
            if b {
                k += 1;
            } else {
                self.entries.remove(k);
            }
            proof {
                lemma_filter_by_step(old_entries, keep, j, b);
                keep = keep.push(b);
                j = j + 1;
                assert(self.entries@ =~= filter_by(old_entries.take(j), keep) + old_entries.skip(j));
            }
        }
        proof {
            assert(j == old_entries.len());
            assert(old_entries.take(j) =~= old_entries);
            assert(self.entries@ =~= filter_by(old_entries, keep));
            assert(old(self).spec_entries() == old_entries);
            assert(accepted_by(&filter, old(self).spec_entries(), keep));
            assert(self.spec_entries() == filter_by(old(self).spec_entries(), keep));
        }
    }

}

impl<I: BoardIdxType, T> IndexMap for HashIndexMap<I, T> {
    type IndexType = I;
    type Item = T;

    closed spec fn spec_entries(&self) -> Seq<(I, T)> {
        self.entries@
    }

    fn size(&self) -> (r: usize) {
        self.entries.len()
    }

    fn contains(&self, i: I) -> (r: bool) {
        self.get(i).is_some()
    }

    fn get(&self, i: I) -> (r: Option<&T>) {
        let mut k = self.entries.len();
        assert(self.entries@.subrange(0, k as int) =~= self.entries@);
        while k > 0
            invariant
                k <= self.entries@.len(),
                entry_lookup(self.entries@, i) == entry_lookup(self.entries@.subrange(0, k as int), i),
            decreases k,
        {
            let ghost prefix = self.entries@.subrange(0, k as int);
            assert(prefix.drop_last() =~= self.entries@.subrange(0, k - 1));
            if self.entries[k - 1].0.index_eq(&i) {
                return Some(&self.entries[k - 1].1);
            }
            k -= 1;
        }
        proof {
            assert(self.entries@.subrange(0, 0) =~= Seq::<(I, T)>::empty());
        }
        None
    }

    fn get_mut(&mut self, i: I) -> (r: Option<&mut T>) {
        let ghost old_entries = self.entries@;
        match self.position(i) {
            Some(k) => {
                proof {
                    lemma_lookup_found(old_entries, k as int);
                }
                let r = &mut self.entries[k].1;
                proof {
                    lemma_lookup_update_all(old_entries, k as int, *final(r));
                }
                Some(r)
            },
            None => {
                proof {
                    lemma_lookup_absent(old_entries, i);
                }
                None
            },
        }
    }

    fn insert(&mut self, i: I, el: T) -> (r: Option<T>) {
        let ghost old_entries = self.entries@;
        match self.position(i) {
            Some(k) => {
                let mut value = el;
                let ghost kept = self.entries@[k as int];
                let mut entry = (i, value);
                std::mem::swap(&mut entry, &mut self.entries[k]);
                let (_, old_value) = entry;
                proof {
                    let v = self.entries@[k as int].1;
                    assert(self.entries@ =~= old_entries.update(k as int, (old_entries[k as int].0, v)));
                    lemma_lookup_found(old_entries, k as int);
                    assert forall|j: I| true implies entry_lookup(self.entries@, j) == (if old_entries[k as int].0 == j {
                        Some(v)
                    } else {
                        entry_lookup(old_entries, j)
                    }) by {
                        lemma_lookup_update(old_entries, k as int, v, j);
                    }
                    assert(entry_keys(self.entries@) =~= entry_keys(old_entries));
                    if unique_keys(old_entries) {
                        assert(unique_keys(self.entries@)) by {
                            assert forall|a: int, b: int| 0 <= a < b < self.entries@.len() implies self.entries@[a].0
                                != self.entries@[b].0 by {
                                assert(self.entries@[a].0 == old_entries[a].0);
                                assert(self.entries@[b].0 == old_entries[b].0);
                            }
                        }
                    }
                }
                Some(old_value)
            },
            None => {
                self.entries.push((i, el));
                proof {
                    lemma_lookup_absent(old_entries, i);
                    assert forall|j: I| true implies entry_lookup(self.entries@, j) == (if i == j {
                        Some(self.entries@.last().1)
                    } else {
                        entry_lookup(old_entries, j)
                    }) by {
                        lemma_lookup_push(old_entries, (i, self.entries@.last().1), j);
                    }
                    assert(entry_keys(self.entries@) =~= entry_keys(old_entries).push(i));
                    if unique_keys(old_entries) {
                        assert(unique_keys(self.entries@)) by {
                            assert forall|a: int, b: int| 0 <= a < b < self.entries@.len() implies self.entries@[a].0
                                != self.entries@[b].0 by {
                                if b < old_entries.len() {
                                    assert(self.entries@[a] == old_entries[a]);
                                    assert(self.entries@[b] == old_entries[b]);
                                } else {
                                    assert(self.entries@[a] == old_entries[a]);
                                }
                            }
                        }
                    }
                }
                None
            },
        }
    }

    fn iter_indices(&self) -> (r: Vec<I>) {
        let mut r: Vec<I> = Vec::new();
        let mut k: usize = 0;
        while k < self.entries.len()
            invariant
                k <= self.entries@.len(),
                r@ == entry_keys(self.entries@.subrange(0, k as int)),
            decreases self.entries@.len() - k,
        {
            r.push(self.entries[k].0);
            k += 1;
            assert(r@ =~= entry_keys(self.entries@.subrange(0, k as int)));
        }
        assert(self.entries@.subrange(0, k as int) =~= self.entries@);
        r
    }

    fn clear(&mut self) {
        self.entries.clear();
    }
}

/// A map from indices to items with room for at most `N` entries; the
/// indices are listed in the order of their insertion.  Like
/// `HashIndexMap`, it is kept as a vector of pairs, whose length is bounded
/// by `N`.
#[derive(Debug, Clone)]
pub struct ArrayIndexMap<I: BoardIdxType, T, const N: usize> {
    map: HashIndexMap<I, T>,
}

impl<I: BoardIdxType, T, const N: usize> ArrayIndexMap<I, T, N> {
    /// At most `N` entries, and no index twice.
    pub closed spec fn wf(&self) -> bool {
        &&& self.map.spec_entries().len() <= N
        &&& unique_keys(self.map.spec_entries())
    }

    /// The entries in the order of their insertion.
    pub closed spec fn spec_entries(&self) -> Seq<(I, T)> {
        self.map.spec_entries()
    }

    pub fn new() -> (r: Self)
        ensures
            r.wf(),
            r.spec_entries().len() == 0,
    {
        Self { map: HashIndexMap::new() }
    }

    /// Whether there is no room for another index.
    pub fn is_full(&self) -> (r: bool)
        ensures
            r == (self.spec_entries().len() == N),
    {
        self.map.size() == N
    }

    pub fn size(&self) -> (r: usize)
        requires
            self.wf(),
        ensures
            r == self.spec_entries().len(),
            r <= N,
    {
        self.map.size()
    }

    pub fn contains(&self, i: I) -> (r: bool)
        ensures
            r == entry_lookup(self.spec_entries(), i) is Some,
    {
        self.map.contains(i)
    }

    pub fn get(&self, i: I) -> (r: Option<&T>)
        ensures
            r is Some == entry_lookup(self.spec_entries(), i) is Some,
            r matches Some(v) ==> entry_lookup(self.spec_entries(), i) == Some(*v),
    {
        self.map.get(i)
    }

    /// The item of an index, to be changed in place.
    pub fn get_mut(&mut self, i: I) -> (r: Option<&mut T>)
        requires
            old(self).wf(),
        ensures
            final(self).wf(),
            r is Some == entry_lookup(old(self).spec_entries(), i) is Some,
            r matches Some(v) ==> entry_lookup(old(self).spec_entries(), i) == Some(*v),
            r matches Some(v) ==> entry_lookup(final(self).spec_entries(), i) == Some(*final(v)),
            forall|j: I| j != i ==> entry_lookup(final(self).spec_entries(), j) == entry_lookup(old(self).spec_entries(), j),
            entry_keys(final(self).spec_entries()) == entry_keys(old(self).spec_entries()),
    {
        self.map.get_mut(i)
    }

    /// Sets the item of an index; returns the item it had before.  There
    /// must be room for the index where it is new.
    pub fn insert(&mut self, i: I, el: T) -> (r: Option<T>)
        requires
            old(self).wf(),
            entry_lookup(old(self).spec_entries(), i) is Some || old(self).spec_entries().len() < N,
        ensures
            final(self).wf(),
            r == entry_lookup(old(self).spec_entries(), i),
            entry_lookup(final(self).spec_entries(), i) == Some(el),
            forall|j: I| j != i ==> entry_lookup(final(self).spec_entries(), j) == entry_lookup(old(self).spec_entries(), j),
            r is Some ==> entry_keys(final(self).spec_entries()) == entry_keys(old(self).spec_entries()),
            r is None ==> entry_keys(final(self).spec_entries()) == entry_keys(old(self).spec_entries()).push(i),
    {
        let ghost before = self.map.spec_entries();
        let r = self.map.insert(i, el);
        proof {
            assert(entry_keys(before).len() == before.len());
            assert(entry_keys(self.map.spec_entries()).len() == self.map.spec_entries().len());
        }
        r
    }

    /// Keeps the entries that the filter accepts, in their order.
    pub fn retain<F: Fn(I, &T) -> bool>(&mut self, filter: F)
        requires
            old(self).wf(),
            forall|i: I, t: &T| #[trigger] filter.requires((i, t)),
        ensures
            final(self).wf(),
            exists|keep: Seq<bool>| accepted_by(&filter, old(self).spec_entries(), keep)
                && final(self).spec_entries() == #[trigger] filter_by(old(self).spec_entries(), keep),
    {
        let ghost before = self.map.spec_entries();
        self.map.retain(filter);
        proof {
            let keep = choose|keep: Seq<bool>| accepted_by(&filter, before, keep) && self.map.spec_entries()
                == #[trigger] filter_by(before, keep);
            lemma_filter_by_unique(before, keep);
            assert(accepted_by(&filter, old(self).spec_entries(), keep));
            assert(self.spec_entries() == filter_by(old(self).spec_entries(), keep));
        }
    }

    /// The indices in the order of their insertion.
    pub fn iter_indices(&self) -> (r: Vec<I>)
        ensures
            r@ == entry_keys(self.spec_entries()),
    {
        self.map.iter_indices()
    }

    pub fn clear(&mut self)
        requires
            old(self).wf(),
        ensures
            final(self).wf(),
            final(self).spec_entries().len() == 0,
    {
        self.map.clear();
    }
}

/// Filtering keeps at most the entries there were, and no index comes twice
/// where none did.
proof fn lemma_filter_by_unique<I, T>(s: Seq<(I, T)>, keep: Seq<bool>)
    ensures
        filter_by(s, keep).len() <= s.len(),
        unique_keys(s) ==> unique_keys(filter_by(s, keep)),
        forall|k: int| 0 <= k < filter_by(s, keep).len() ==> s.contains(#[trigger] filter_by(s, keep)[k]),
    decreases s.len(),
{
    if s.len() > 0 {
        let p = s.drop_last();
        lemma_filter_by_unique(p, keep);
        let fp = filter_by(p, keep);
        assert forall|k: int| 0 <= k < fp.len() implies s.contains(#[trigger] fp[k]) by {
            let a = choose|a: int| 0 <= a < p.len() && p[a] == fp[k];
            assert(s[a] == fp[k]);
        }
        if keep[s.len() - 1] {
            let f = fp.push(s.last());
            assert forall|k: int| 0 <= k < f.len() implies s.contains(#[trigger] f[k]) by {
                if k == fp.len() {
                    assert(s[s.len() - 1] == f[k]);
                } else {
                    assert(f[k] == fp[k]);
                }
            }
            if unique_keys(s) {
                assert(unique_keys(p));
                assert forall|a: int, b: int| 0 <= a < b < f.len() implies f[a].0 != f[b].0 by {
                    if b == fp.len() {
                        assert(f[a] == fp[a]);
                        let x = choose|x: int| 0 <= x < p.len() && p[x] == fp[a];
                        assert(s[x] == f[a]);
                    } else {
                        assert(f[a] == fp[a] && f[b] == fp[b]);
                    }
                }
            }
        }
    }
}

} // verus!
