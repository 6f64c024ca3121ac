use vstd::prelude::*;
use crate::ai::params::RatingType;
use crate::ai::rater::IndexType;
use crate::ai::algorithm::MinMaxError;
use crate::ai::engine_stepper::EngineStepper;
use crate::game::trait_definitions::GameData;

verus! {

/// Position of an entry in the search tree: level and index in the level.
#[derive(Debug, Clone, Copy, PartialEq, Eq)]
pub struct TreeIndex(pub usize, pub usize);

/// A move in the search tree with its rating and the number of its children
/// on the next level.
#[derive(Debug, Clone, PartialEq, Eq)]
pub struct TreeEntry {
    pub rating: RatingType,
    pub indizes: Vec<IndexType>,
    pub num_children: IndexType,
}

impl TreeEntry {
    pub fn new(entry: (RatingType, Vec<IndexType>)) -> (r: Self)
        ensures
            r.rating == entry.0,
            r.indizes@ == entry.1@,
            r.num_children == 0,
    {
        let (rating, indizes) = entry;
        Self { rating, indizes, num_children: 0 }
    }

    pub fn num_children(&self) -> (r: usize)
        ensures
            r == self.num_children,
    {
        self.num_children as usize
    }
}

/// The sum of the numbers of children of the first `k` entries of a level.
pub open spec fn sum_children(level: Seq<TreeEntry>, k: int) -> int
    decreases k,
{
    if k <= 0 {
        0
    } else {
        sum_children(level, k - 1) + level[k - 1].num_children
    }
}

/// The children of entry `k` of level `l`: a contiguous range of level
/// `l + 1`.
pub open spec fn children_of(tree: Seq<Seq<TreeEntry>>, l: int, k: int) -> Seq<TreeEntry> {
    tree[l + 1].subrange(
        sum_children(tree[l], k),
        sum_children(tree[l], k) + tree[l][k].num_children,
    )
}

/// The highest (`maximize`) or lowest rating in a non-empty sequence.
pub open spec fn best_rating(s: Seq<TreeEntry>, maximize: bool) -> RatingType
    decreases s.len(),
{
    if s.len() <= 1 {
        s[0].rating
    } else {
        let prev = best_rating(s.drop_last(), maximize);
        let last = s.last().rating;
        if maximize {
            if last >= prev { last } else { prev }
        } else {
            if last < prev { last } else { prev }
        }
    }
}

/// The levels of the search tree: level 0 holds a single sentinel, level 1
/// the moves of the player, level 2 the answers and so on.  The children of
/// the entries of a level are stored in order on the next level.
#[derive(Debug, Clone)]
pub struct SearchTreeState {
    tree: Vec<Vec<TreeEntry>>,
    next_levels: Option<(Vec<TreeEntry>, Vec<TreeEntry>)>,
}

impl SearchTreeState {
    /// The levels of the tree.
    pub closed spec fn spec_tree(&self) -> Seq<Seq<TreeEntry>> {
        Seq::new(self.tree@.len(), |l: int| self.tree@[l]@)
    }

    /// The levels under construction, if any: children and grandchildren of
    /// the last level.
    pub closed spec fn spec_next_levels(&self) -> Option<(Seq<TreeEntry>, Seq<TreeEntry>)> {
        match self.next_levels {
            Some((c, g)) => Some((c@, g@)),
            None => None,
        }
    }

    /// The numbers of children match the sizes of the next levels.
    pub open spec fn wf(&self) -> bool {
        let t = self.spec_tree();
        &&& t.len() >= 1
        &&& t.len() < usize::MAX
        &&& t[0].len() == 1
        &&& forall|l: int| 0 <= l < t.len() - 1 ==> sum_children(#[trigger] t[l], t[l].len() as int)
            == t[l + 1].len()
        &&& match self.spec_next_levels() {
            None => sum_children(t.last(), t.last().len() as int) == 0,
            Some((c, g)) => sum_children(t.last(), t.last().len() as int) == c.len() && sum_children(
                c,
                c.len() as int,
            ) == g.len() && forall|a: int| 0 <= a < g.len() ==> #[trigger] g[a].num_children == 0,
        }
    }

    /// The number of levels below the sentinel.
    pub open spec fn spec_depth(&self) -> int {
        self.spec_tree().len() - 1
    }

    pub fn new() -> (r: Self)
        ensures
            r.wf(),
            r.spec_depth() == 0,
            r.spec_tree()[0] == seq![TreeEntry { rating: 0, indizes: r.spec_tree()[0][0].indizes, num_children: 0 }],
            r.spec_tree()[0][0].indizes@.len() == 0,
            r.spec_next_levels() is None,
    {
        let mut level: Vec<TreeEntry> = Vec::new();
        level.push(TreeEntry { rating: 0, indizes: Vec::new(), num_children: 0 });
        let mut tree: Vec<Vec<TreeEntry>> = Vec::new();
        tree.push(level);
        let r = Self { tree, next_levels: None };
        proof {
            let t = r.spec_tree();
            assert(t[0] =~= seq![TreeEntry { rating: 0, indizes: t[0][0].indizes, num_children: 0 }]);
            assert(sum_children(t[0], 1) == 0) by {
                assert(sum_children(t[0], 0) == 0);
            }
        }
        r
    }

    pub fn depth(&self) -> (r: usize)
        requires
            self.wf(),
        ensures
            r == self.spec_depth(),
    {
        self.tree.len() - 1
    }

    /// The entries of a level.
    pub fn level(&self, index: usize) -> (r: &Vec<TreeEntry>)
        requires
            index < self.spec_tree().len(),
        ensures
            r@ == self.spec_tree()[index as int],
    {
        &self.tree[index]
    }

    /// The ratings and paths of the moves on level 1.
    pub fn root_moves(&self) -> (r: Vec<(RatingType, Vec<IndexType>)>)
        requires
            self.wf(),
            self.spec_depth() >= 1,
        ensures
            r@.len() == self.spec_tree()[1].len(),
            forall|k: int| 0 <= k < r@.len() ==> (#[trigger] r@[k]).0 == self.spec_tree()[1][k].rating
                && r@[k].1@ == self.spec_tree()[1][k].indizes@,
    {
        let level = &self.tree[1];
        let mut result: Vec<(RatingType, Vec<IndexType>)> = Vec::new();
        let mut k: usize = 0;
        while k < level.len()
            invariant
                level@ == self.spec_tree()[1],
                k <= level@.len(),
                result@.len() == k,
                forall|a: int| 0 <= a < k ==> (#[trigger] result@[a]).0 == level@[a].rating
                    && result@[a].1@ == level@[a].indizes@,
            decreases level@.len() - k,
        {
            result.push((level[k].rating, copy_indizes(&level[k].indizes)));
            k += 1;
        }
        result
    }

    /// Starts the construction of two new levels.
    pub fn new_levels(&mut self)
        requires
            old(self).wf(),
            old(self).spec_next_levels() is None,
        ensures
            final(self).wf(),
            final(self).spec_tree() == old(self).spec_tree(),
            final(self).spec_next_levels() == Some((Seq::<TreeEntry>::empty(), Seq::<TreeEntry>::empty())),
    {
        self.next_levels = Some((Vec::new(), Vec::new()));
        proof {
            assert(sum_children(Seq::<TreeEntry>::empty(), 0) == 0);
        }
    }

    /// Appends the levels under construction.  Returns true if both new
    /// levels are non-empty; if only the children are non-empty, only they
    /// are appended.
    pub fn extend(&mut self) -> (r: bool)
        requires
            old(self).wf(),
            old(self).spec_next_levels() is Some,
            old(self).spec_tree().len() + 2 < usize::MAX,
        ensures
            final(self).wf(),
            final(self).spec_next_levels() is None,
            ({
                let (c, g) = old(self).spec_next_levels()->Some_0;
                &&& r == (c.len() > 0 && g.len() > 0)
                &&& final(self).spec_tree() == (if c.len() > 0 && g.len() > 0 {
                    old(self).spec_tree().push(c).push(g)
                } else if c.len() > 0 {
                    old(self).spec_tree().push(c)
                } else {
                    old(self).spec_tree()
                })
            }),
    {
        let ghost old_tree = self.spec_tree();
        let levels = self.next_levels.take();
        match levels {
            Some((children, g_children)) => {
                let ghost c = children@;
                let ghost g = g_children@;
                if children.len() > 0 && g_children.len() > 0 {
                    self.tree.push(children);
                    self.tree.push(g_children);
                    proof {
                        let t = self.spec_tree();
                        assert(t =~= old_tree.push(c).push(g));
                        lemma_sum_children_zero(g, g.len() as int);
                        assert forall|l: int| 0 <= l < t.len() - 1 implies sum_children(#[trigger] t[l], t[l].len() as int)
                            == t[l + 1].len() by {
                            if l < old_tree.len() - 1 {
                                assert(t[l] == old_tree[l] && t[l + 1] == old_tree[l + 1]);
                            }
                        }
                    }
                    true
                } else if children.len() > 0 {
                    self.tree.push(children);
                    proof {
                        let t = self.spec_tree();
                        assert(t =~= old_tree.push(c));
                        assert forall|l: int| 0 <= l < t.len() - 1 implies sum_children(#[trigger] t[l], t[l].len() as int)
                            == t[l + 1].len() by {
                            if l < old_tree.len() - 1 {
                                assert(t[l] == old_tree[l] && t[l + 1] == old_tree[l + 1]);
                            }
                        }
                    }
                    false
                } else {
                    proof {
                        assert(self.spec_tree() =~= old_tree);
                    }
                    false
                }
            },
            None => false,
        }
    }

    /// Adds a child of the entry `parent` (on the last level) with its
    /// children.
    pub fn push_child(
        &mut self,
        parent: TreeIndex,
        rating: RatingType,
        indizes: Vec<IndexType>,
        grandchildren: Vec<(RatingType, Vec<IndexType>)>,
    )
        requires
            old(self).wf(),
            old(self).spec_next_levels() is Some,
            parent.0 == old(self).spec_depth(),
            parent.1 < old(self).spec_tree()[parent.0 as int].len(),
            old(self).spec_tree()[parent.0 as int][parent.1 as int].num_children < u32::MAX,
            grandchildren@.len() < u32::MAX,
        ensures
            final(self).wf(),
            final(self).spec_tree() == old(self).spec_tree().update(
                parent.0 as int,
                old(self).spec_tree()[parent.0 as int].update(
                    parent.1 as int,
                    TreeEntry {
                        num_children: (old(self).spec_tree()[parent.0 as int][parent.1 as int].num_children
                            + 1) as IndexType,
                        ..old(self).spec_tree()[parent.0 as int][parent.1 as int]
                    },
                ),
            ),
            ({
                let (c, g) = old(self).spec_next_levels()->Some_0;
                let (c2, g2) = final(self).spec_next_levels()->Some_0;
                &&& final(self).spec_next_levels() is Some
                &&& c2.len() == c.len() + 1
                &&& c2.subrange(0, c.len() as int) == c
                &&& c2.last().rating == rating
                &&& c2.last().indizes@ == indizes@
                &&& c2.last().num_children == grandchildren@.len()
                &&& g2.len() == g.len() + grandchildren@.len()
                &&& g2.subrange(0, g.len() as int) == g
                &&& forall|k: int| 0 <= k < grandchildren@.len() ==> (#[trigger] g2[g.len() + k]).rating
                    == grandchildren@[k].0 && g2[g.len() + k].indizes@ == grandchildren@[k].1@
                    && g2[g.len() + k].num_children == 0
            }),
    {
        let ghost old_tree = self.spec_tree();
        let levels = self.next_levels.take();
        match levels {
            Some((mut children, mut g_children)) => {
                let ghost c = children@;
                let ghost g = g_children@;
                let count = grandchildren.len() as IndexType;
                let mut src = grandchildren;
                let ghost gc = src@;
                let mut k: usize = 0;
                let n = src.len();
                // move the grandchildren over in order
                let mut rev: Vec<(RatingType, Vec<IndexType>)> = Vec::new();
                while src.len() > 0
                    invariant
                        rev@.len() + src@.len() == gc.len(),
                        forall|a: int| 0 <= a < src@.len() ==> src@[a] == gc[a],
                        forall|a: int| 0 <= a < rev@.len() ==> rev@[a] == gc[gc.len() - 1 - a],
                    decreases src@.len(),
                {
                    let e = src.pop().unwrap();
                    rev.push(e);
                }
                while rev.len() > 0
                    invariant
                        rev@.len() + (g_children@.len() - g.len()) == gc.len(),
                        g_children@.len() >= g.len(),
                        g_children@.subrange(0, g.len() as int) == g,
                        forall|a: int| 0 <= a < rev@.len() ==> rev@[a] == gc[gc.len() - 1 - a],
                        forall|a: int| 0 <= a < g_children@.len() - g.len() ==> (#[trigger] g_children@[g.len() + a]).rating
                            == gc[a].0 && g_children@[g.len() + a].indizes@ == gc[a].1@
                            && g_children@[g.len() + a].num_children == 0,
                    decreases rev@.len(),
                {
                    let e = rev.pop().unwrap();
                    let ghost before = g_children@;
                    g_children.push(TreeEntry::new(e));
                    assert(g_children@.subrange(0, g.len() as int) =~= before.subrange(0, g.len() as int));
                }
                children.push(TreeEntry { rating, indizes, num_children: count });
                let d = self.tree.len() - 1;
                let old_count = self.tree[d][parent.1].num_children;
                self.tree[d][parent.1].num_children = old_count + 1;
                self.next_levels = Some((children, g_children));
                proof {
                    let t = self.spec_tree();
                    let c2 = children@;
                    let g2 = g_children@;
                    assert(t =~= old_tree.update(
                        d as int,
                        old_tree[d as int].update(
                            parent.1 as int,
                            TreeEntry { num_children: (old_count + 1) as IndexType, ..old_tree[d as int][parent.1 as int] },
                        ),
                    ));
                    lemma_sum_children_update(old_tree[d as int], parent.1 as int, (old_count + 1) as IndexType);
                    lemma_sum_children_push(c, c2.last());
                    assert(c2 == c.push(c2.last()));
                    assert forall|a: int| 0 <= a < g2.len() implies #[trigger] g2[a].num_children == 0 by {
                        if a < g.len() {
                            assert(g2[a] == g2.subrange(0, g.len() as int)[a]);
                        } else {
                            assert(g2[g.len() + (a - g.len())].num_children == 0);
                        }
                    }
                    assert forall|l: int| 0 <= l < t.len() - 1 implies sum_children(#[trigger] t[l], t[l].len() as int)
                        == t[l + 1].len() by {
                        assert(t[l] == old_tree[l]);
                        assert(t[l + 1].len() == old_tree[l + 1].len());
                    }
                    assert(c2.subrange(0, c.len() as int) =~= c);
                }
            },
            None => {},
        }
    }
}

/// A copy of a path of option indices.
pub fn copy_indizes(v: &Vec<IndexType>) -> (r: Vec<IndexType>)
    ensures
        r@ == v@,
{
    let mut r: Vec<IndexType> = Vec::new();
    let mut k: usize = 0;
    while k < v.len()
        invariant
            k <= v@.len(),
            r@ == v@.subrange(0, k as int),
        decreases v@.len() - k,
    {
        r.push(v[k]);
        k += 1;
        assert(r@ =~= v@.subrange(0, k as int));
    }
    assert(r@ =~= v@);
    r
}

proof fn lemma_sum_children_zero(s: Seq<TreeEntry>, k: int)
    requires
        0 <= k <= s.len(),
        forall|a: int| 0 <= a < s.len() ==> #[trigger] s[a].num_children == 0,
    ensures
        sum_children(s, k) == 0,
    decreases k,
{
    if k > 0 {
        lemma_sum_children_zero(s, k - 1);
    }
}

proof fn lemma_sum_children_prefix(s: Seq<TreeEntry>, t: Seq<TreeEntry>, k: int)
    requires
        0 <= k <= s.len(),
        k <= t.len(),
        forall|a: int| 0 <= a < k ==> #[trigger] s[a].num_children == t[a].num_children,
    ensures
        sum_children(s, k) == sum_children(t, k),
    decreases k,
{
    if k > 0 {
        lemma_sum_children_prefix(s, t, k - 1);
    }
}

proof fn lemma_sum_children_push(s: Seq<TreeEntry>, e: TreeEntry)
    ensures
        sum_children(s.push(e), s.len() + 1int) == sum_children(s, s.len() as int) + e.num_children,
{
    lemma_sum_children_prefix(s.push(e), s, s.len() as int);
}

proof fn lemma_sum_children_update(s: Seq<TreeEntry>, i: int, n: IndexType)
    requires
        0 <= i < s.len(),
    ensures
        sum_children(s.update(i, TreeEntry { num_children: n, ..s[i] }), s.len() as int)
            == sum_children(s, s.len() as int) - s[i].num_children + n,
    decreases s.len(),
{
    let u = s.update(i, TreeEntry { num_children: n, ..s[i] });
    lemma_sum_children_update_at(s, i, n, s.len() as int);
}

proof fn lemma_sum_children_update_at(s: Seq<TreeEntry>, i: int, n: IndexType, k: int)
    requires
        0 <= i < s.len(),
        0 <= k <= s.len(),
    ensures
        sum_children(s.update(i, TreeEntry { num_children: n, ..s[i] }), k)
            == sum_children(s, k) - (if i < k { s[i].num_children as int } else { 0 }) + (if i < k { n as int } else { 0 }),
    decreases k,
{
    if k > 0 {
        lemma_sum_children_update_at(s, i, n, k - 1);
    }
}

proof fn lemma_sum_children_mono(s: Seq<TreeEntry>, a: int, b: int)
    requires
        0 <= a <= b <= s.len(),
    ensures
        sum_children(s, a) <= sum_children(s, b),
    decreases b - a,
{
    if a < b {
        lemma_sum_children_mono(s, a, b - 1);
    }
}

/// Both trees have the same levels with the same paths and numbers of
/// children; only ratings may differ.
pub open spec fn same_shape(a: Seq<Seq<TreeEntry>>, b: Seq<Seq<TreeEntry>>) -> bool {
    &&& a.len() == b.len()
    &&& forall|l: int| 0 <= l < a.len() ==> (#[trigger] a[l]).len() == b[l].len()
    &&& forall|l: int, k: int| 0 <= l < a.len() && 0 <= k < a[l].len() ==> (#[trigger] a[l][k]).num_children
        == b[l][k].num_children && a[l][k].indizes == b[l][k].indizes
}

/// An entry with children on level `l` has the best rating of its children:
/// the highest on even levels (the player's own moves follow) and the lowest
/// on odd levels.
pub open spec fn rated_by_children(t: Seq<Seq<TreeEntry>>, l: int, k: int) -> bool {
    t[l][k].num_children > 0 ==> t[l][k].rating == best_rating(children_of(t, l, k), l % 2 == 0)
}

proof fn lemma_best_rating_step(s: Seq<TreeEntry>, c: int, maximize: bool)
    requires
        1 <= c < s.len(),
    ensures
        best_rating(s.subrange(0, c + 1), maximize) == ({
            let prev = best_rating(s.subrange(0, c), maximize);
            let last = s[c].rating;
            if maximize {
                if last >= prev { last } else { prev }
            } else {
                if last < prev { last } else { prev }
            }
        }),
{
    assert(s.subrange(0, c + 1).drop_last() =~= s.subrange(0, c));
}

impl SearchTreeState {
    /// The best rating among entries `start` to `start + n` of a level.
    fn best_of(level: &Vec<TreeEntry>, start: usize, n: usize, maximize: bool) -> (r: RatingType)
        requires
            n > 0,
            start + n <= level@.len(),
        ensures
            r == best_rating(level@.subrange(start as int, start + n), maximize),
    {
        let ghost s = level@.subrange(start as int, start + n);
        let total = level.len();
        let mut best = level[start].rating;
        let mut c: usize = 1;
        proof {
            assert(s.subrange(0, 1).len() == 1);
            assert(s.subrange(0, 1)[0] == s[0]);
        }
        while c < n
            invariant
                1 <= c <= n,
                start + n <= level@.len(),
                total == level@.len(),
                s == level@.subrange(start as int, start + n),
                best == best_rating(s.subrange(0, c as int), maximize),
            decreases n - c,
        {
            let r = level[start + c].rating;
            proof {
                lemma_best_rating_step(s, c as int, maximize);
            }
            if maximize {
                if r >= best {
                    best = r;
                }
            } else {
                if r < best {
                    best = r;
                }
            }
            c += 1;
        }
        proof {
            assert(s.subrange(0, n as int) =~= s);
        }
        best
    }

    /// Propagates the ratings from the last level up to level 1: every entry
    /// with children gets the best rating of its children, where the player
    /// maximizes on even levels and the opponent minimizes on odd levels.
    pub fn update_ratings(&mut self)
        requires
            old(self).wf(),
        ensures
            final(self).wf(),
            same_shape(final(self).spec_tree(), old(self).spec_tree()),
            final(self).spec_next_levels() == old(self).spec_next_levels(),
            forall|l: int, k: int| 1 <= l < final(self).spec_depth() && 0 <= k < final(self).spec_tree()[l].len()
                ==> rated_by_children(final(self).spec_tree(), l, k),
            forall|k: int| 0 <= k < final(self).spec_tree()[0].len() ==> (#[trigger] final(self).spec_tree()[0][k])
                == old(self).spec_tree()[0][k],
            forall|k: int| 0 <= k < final(self).spec_tree().last().len() ==> (#[trigger] final(self).spec_tree().last()[k])
                == old(self).spec_tree().last()[k],
            forall|l: int, k: int| 0 <= l < final(self).spec_tree().len() && 0 <= k < final(self).spec_tree()[l].len()
                && (#[trigger] old(self).spec_tree()[l][k]).num_children == 0 ==> final(self).spec_tree()[l][k]
                == old(self).spec_tree()[l][k],
    {
        let ghost old_tree = self.spec_tree();
        let depth = self.tree.len() - 1;
        let mut i = depth;
        while i > 1
            invariant
                self.wf(),
                i <= depth,
                depth == 0 || i >= 1,
                depth == self.spec_tree().len() - 1,
                same_shape(self.spec_tree(), old_tree),
                self.spec_next_levels() == old(self).spec_next_levels(),
                forall|l: int, k: int| i <= l < depth && 0 <= k < self.spec_tree()[l].len() ==> rated_by_children(
                    self.spec_tree(), l, k),
                forall|l: int, k: int| 0 <= l < i && 0 <= k < self.spec_tree()[l].len() ==> (#[trigger] self.spec_tree()[l][k])
                    == old_tree[l][k],
                forall|k: int| 0 <= k < self.spec_tree()[depth as int].len() ==> (#[trigger] self.spec_tree()[depth as int][k])
                    == old_tree[depth as int][k],
                forall|l: int, k: int| 0 <= l <= depth && 0 <= k < self.spec_tree()[l].len()
                    && (#[trigger] old_tree[l][k]).num_children == 0 ==> self.spec_tree()[l][k] == old_tree[l][k],
            decreases i,
        {
            i -= 1;
            let maximize = i % 2 == 0;
            let len = self.tree[i].len();
            let mut start: usize = 0;
            let mut k: usize = 0;
            while k < len
                invariant
                    self.wf(),
                    1 <= i < depth,
                    maximize == (i % 2 == 0),
                    depth == self.spec_tree().len() - 1,
                    len == self.spec_tree()[i as int].len(),
                    k <= len,
                    start == sum_children(self.spec_tree()[i as int], k as int),
                    same_shape(self.spec_tree(), old_tree),
                    self.spec_next_levels() == old(self).spec_next_levels(),
                    forall|l: int, kk: int| i < l < depth && 0 <= kk < self.spec_tree()[l].len() ==> rated_by_children(
                        self.spec_tree(), l, kk),
                    forall|kk: int| 0 <= kk < k ==> rated_by_children(self.spec_tree(), i as int, kk),
                    forall|kk: int| k <= kk < len ==> (#[trigger] self.spec_tree()[i as int][kk]) == old_tree[i as int][kk],
                    forall|l: int, kk: int| 0 <= l < i && 0 <= kk < self.spec_tree()[l].len() ==> (#[trigger] self.spec_tree()[l][kk])
                        == old_tree[l][kk],
                    forall|kk: int| 0 <= kk < self.spec_tree()[depth as int].len() ==> (#[trigger] self.spec_tree()[depth as int][kk])
                        == old_tree[depth as int][kk],
                    forall|l: int, kk: int| 0 <= l <= depth && 0 <= kk < self.spec_tree()[l].len()
                        && (#[trigger] old_tree[l][kk]).num_children == 0 ==> self.spec_tree()[l][kk] == old_tree[l][kk],
                decreases len - k,
            {
                let ghost t0 = self.spec_tree();
                let n = self.tree[i][k].num_children as usize;
                let next_len = self.tree[i + 1].len();
                proof {
                    lemma_sum_children_mono(t0[i as int], k + 1, len as int);
                    assert(sum_children(t0[i as int], len as int) == t0[i + 1].len());
                }
                if n > 0 {
                    let best = Self::best_of(&self.tree[i + 1], start, n, maximize);
                    self.tree[i][k].rating = best;
                    proof {
                        let t = self.spec_tree();
                        assert(t =~= t0.update(i as int, t0[i as int].update(k as int, TreeEntry { rating: best, ..t0[i as int][k as int] })));
                        assert forall|l: int| 0 <= l < t.len() - 1 implies sum_children(#[trigger] t[l], t[l].len() as int)
                            == t[l + 1].len() by {
                            if l == i {
                                lemma_sum_children_prefix(t[l], t0[l], t[l].len() as int);
                            }
                            assert(t0[l] == t[l] || l == i);
                        }
                        assert(t[i + 1] == t0[i + 1]);
                        assert(t[i as int][k as int].rating == best);
                        assert forall|kk: int| 0 <= kk < k + 1 implies rated_by_children(t, i as int, kk) by {
                            if kk < k {
                                assert(rated_by_children(t0, i as int, kk));
                                assert(t[i as int][kk] == t0[i as int][kk]);
                            }
                            lemma_sum_children_prefix(t[i as int], t0[i as int], kk);
                            lemma_sum_children_prefix(t[i as int], t0[i as int], kk + 1);
                            assert(children_of(t, i as int, kk) == children_of(t0, i as int, kk));
                        }
                        assert forall|l: int, kk: int| i < l < depth && 0 <= kk < t[l].len() implies rated_by_children(
                            t, l, kk) by {
                            assert(t[l] == t0[l] && t[l + 1] == t0[l + 1]);
                            assert(rated_by_children(t0, l, kk));
                        }
                    }
                }
                proof {
                    let t = self.spec_tree();
                    lemma_sum_children_prefix(t[i as int], t0[i as int], k + 1);
                    lemma_sum_children_prefix(t[i as int], t0[i as int], k as int);
                    assert forall|kk: int| 0 <= kk < k + 1 implies rated_by_children(t, i as int, kk) by {
                        if kk == k && n == 0 {
                        }
                    }
                }
                start = start + n;
                k = k + 1;
            }
        }
        proof {
            let t = self.spec_tree();
            assert forall|k: int| 0 <= k < t[0].len() implies (#[trigger] t[0][k]) == old_tree[0][k] by {
                if depth == 0 {
                    assert(t[depth as int][k] == old_tree[depth as int][k]);
                }
            }
        }
    }
}

/// The indices increase strictly and are below `len`.
pub open spec fn increasing_below(s: Seq<usize>, len: int) -> bool {
    &&& forall|a: int, b: int| 0 <= a < b < s.len() ==> s[a] < s[b]
    &&& forall|a: int| 0 <= a < s.len() ==> s[a] < len
}

/// Entries with equal ratings, paths and numbers of children.
pub open spec fn same_entries(a: Seq<TreeEntry>, b: Seq<TreeEntry>) -> bool {
    &&& a.len() == b.len()
    &&& forall|k: int| 0 <= k < a.len() ==> (#[trigger] a[k]).rating == b[k].rating && a[k].indizes@ == b[k].indizes@
        && a[k].num_children == b[k].num_children
}

/// The positions among the children of entry `p` of level `l` that were
/// chosen to be kept, if a choice was made.
pub open spec fn chosen_positions(sel: Map<(int, int), Seq<usize>>, l: int, p: int) -> Seq<usize> {
    if sel.dom().contains((l, p)) {
        sel[(l, p)]
    } else {
        Seq::empty()
    }
}

/// The positions on level `l + 1` of the children of entry `p` of level `l`
/// that pruning keeps: a single child always, the chosen ones of more.
pub open spec fn kept_children(t: Seq<Seq<TreeEntry>>, sel: Map<(int, int), Seq<usize>>, l: int, p: int) -> Seq<usize> {
    let nc = t[l][p].num_children;
    let off = sum_children(t[l], p);
    if nc > 1 {
        chosen_positions(sel, l, p).map_values(|x: usize| (off + x) as usize)
    } else if nc == 1 {
        seq![off as usize]
    } else {
        Seq::empty()
    }
}

/// The kept children of the entries at positions `ps` of level `l`, in
/// order.
pub open spec fn kept_children_of_all(t: Seq<Seq<TreeEntry>>, sel: Map<(int, int), Seq<usize>>, l: int, ps: Seq<usize>) -> Seq<usize>
    decreases ps.len(),
{
    if ps.len() == 0 {
        Seq::empty()
    } else {
        kept_children_of_all(t, sel, l, ps.drop_last()) + kept_children(t, sel, l, ps.last() as int)
    }
}

/// The positions that pruning keeps on level `l`: the sentinel, and the
/// kept children of the kept entries of the level above.
pub open spec fn kept_positions(t: Seq<Seq<TreeEntry>>, sel: Map<(int, int), Seq<usize>>, l: nat) -> Seq<usize>
    decreases l,
{
    if l == 0 {
        seq![0usize]
    } else {
        kept_children_of_all(t, sel, l - 1, kept_positions(t, sel, (l - 1) as nat))
    }
}

/// Entry `p` of level `l` after pruning: entries above the last level count
/// their kept children.
pub open spec fn pruned_entry(t: Seq<Seq<TreeEntry>>, sel: Map<(int, int), Seq<usize>>, l: int, p: int) -> TreeEntry {
    TreeEntry {
        rating: t[l][p].rating,
        indizes: t[l][p].indizes,
        num_children: if l < t.len() - 1 {
            kept_children(t, sel, l, p).len() as IndexType
        } else {
            t[l][p].num_children
        },
    }
}

/// The tree after pruning with the choices `sel`.
pub open spec fn pruned_tree(t: Seq<Seq<TreeEntry>>, sel: Map<(int, int), Seq<usize>>) -> Seq<Seq<TreeEntry>> {
    Seq::new(
        t.len(),
        |l: int| kept_positions(t, sel, l as nat).map_values(|p: usize| pruned_entry(t, sel, l, p as int)),
    )
}

/// Each choice in `sel` is what `retain_fn` answered for the children of an
/// entry with more than one child.
pub open spec fn choices_by<F: Fn(usize, &Vec<TreeEntry>) -> Vec<usize>>(
    retain_fn: &F,
    t: Seq<Seq<TreeEntry>>,
    sel: Map<(int, int), Seq<usize>>,
) -> bool {
    forall|l: int, p: int| #[trigger] sel.dom().contains((l, p)) ==> {
        &&& 0 <= l < t.len() - 1
        &&& 0 <= p < t[l].len()
        &&& t[l][p].num_children > 1
        &&& exists|v: Vec<TreeEntry>, r: Vec<usize>| #![auto] same_entries(v@, children_of(t, l, p)) && r@ == sel[(l, p)]
            && retain_fn.ensures((l as usize, &v), r)
    }
}

/// A choice was made for every kept entry with more than one child on the
/// levels above `upto`.
pub open spec fn choices_complete(t: Seq<Seq<TreeEntry>>, sel: Map<(int, int), Seq<usize>>, upto: int) -> bool {
    forall|l: int, k: int| 0 <= l < upto && 0 <= k < kept_positions(t, sel, l as nat).len() && t[l][kept_positions(
        t,
        sel,
        l as nat,
    )[k] as int].num_children > 1 ==> sel.dom().contains((l, #[trigger] kept_positions(t, sel, l as nat)[k] as int))
}

/// The kept children of entries depend only on the choices for them.
proof fn lemma_children_all_frame(
    t: Seq<Seq<TreeEntry>>,
    s1: Map<(int, int), Seq<usize>>,
    s2: Map<(int, int), Seq<usize>>,
    l: int,
    ps: Seq<usize>,
)
    requires
        forall|k: int| 0 <= k < ps.len() ==> chosen_positions(s1, l, #[trigger] ps[k] as int) == chosen_positions(s2, l, ps[k] as int),
    ensures
        kept_children_of_all(t, s1, l, ps) == kept_children_of_all(t, s2, l, ps),
    decreases ps.len(),
{
    if ps.len() > 0 {
        lemma_children_all_frame(t, s1, s2, l, ps.drop_last());
        assert(ps.last() == ps[ps.len() - 1]);
    }
}

/// The kept positions of the levels up to `upto` depend only on the choices
/// on the levels above it.
proof fn lemma_kept_frame(t: Seq<Seq<TreeEntry>>, s1: Map<(int, int), Seq<usize>>, s2: Map<(int, int), Seq<usize>>, upto: nat)
    requires
        forall|l: int, p: int| 0 <= l < upto ==> #[trigger] chosen_positions(s1, l, p) == chosen_positions(s2, l, p),
    ensures
        forall|l: nat| l <= upto ==> #[trigger] kept_positions(t, s1, l) == kept_positions(t, s2, l),
    decreases upto,
{
    if upto > 0 {
        lemma_kept_frame(t, s1, s2, (upto - 1) as nat);
        let ps = kept_positions(t, s1, (upto - 1) as nat);
        lemma_children_all_frame(t, s1, s2, upto - 1, ps);
        assert forall|l: nat| l <= upto implies #[trigger] kept_positions(t, s1, l) == kept_positions(t, s2, l) by {
            if l == upto {
                assert(kept_positions(t, s1, l) == kept_children_of_all(t, s1, upto - 1, ps));
            }
        }
    }
}

/// Pruned levels up to `upto` depend only on the choices on the levels
/// above it.
proof fn lemma_pruned_frame(t: Seq<Seq<TreeEntry>>, s1: Map<(int, int), Seq<usize>>, s2: Map<(int, int), Seq<usize>>, upto: int)
    requires
        0 <= upto,
        forall|l: int, p: int| 0 <= l < upto ==> #[trigger] chosen_positions(s1, l, p) == chosen_positions(s2, l, p),
    ensures
        forall|l: nat| l <= upto ==> #[trigger] kept_positions(t, s1, l) == kept_positions(t, s2, l),
        forall|l: int| 0 <= l < upto && l < t.len() ==> #[trigger] pruned_tree(t, s1)[l] == pruned_tree(t, s2)[l],
{
    lemma_kept_frame(t, s1, s2, upto as nat);
    assert forall|l: int| 0 <= l < upto && l < t.len() implies #[trigger] pruned_tree(t, s1)[l] == pruned_tree(t, s2)[l] by {
        assert(kept_positions(t, s1, l as nat) == kept_positions(t, s2, l as nat));
        assert forall|p: int| true implies #[trigger] kept_children(t, s1, l, p) == kept_children(t, s2, l, p) by {
            assert(chosen_positions(s1, l, p) == chosen_positions(s2, l, p));
        }
        assert(pruned_tree(t, s1)[l] =~= pruned_tree(t, s2)[l]);
    }
}

/// Keeps the elements at the given positions, in order.
pub fn retain_by_index<T>(vec: &mut Vec<T>, indices: &Vec<usize>)
    requires
        increasing_below(indices@, old(vec)@.len() as int),
    ensures
        final(vec)@ == indices@.map_values(|k: usize| old(vec)@[k as int]),
{
    let ghost orig = vec@;
    let total = vec.len();
    let mut src: Vec<T> = Vec::new();
    std::mem::swap(vec, &mut src);
    let mut pos: usize = 0;
    let mut r: usize = 0;
    while src.len() > 0
        invariant
            increasing_below(indices@, orig.len() as int),
            pos + src@.len() == orig.len(),
            total == orig.len(),
            forall|a: int| 0 <= a < src@.len() ==> src@[a] == orig[pos + a],
            r <= indices@.len(),
            forall|a: int| 0 <= a < r ==> indices@[a] < pos,
            forall|a: int| r <= a < indices@.len() ==> indices@[a] >= pos,
            vec@ == indices@.subrange(0, r as int).map_values(|k: usize| orig[k as int]),
        decreases src@.len(),
    {
        let x = src.remove(0);
        if r < indices.len() && indices[r] == pos {
            vec.push(x);
            r += 1;
            assert(vec@ =~= indices@.subrange(0, r as int).map_values(|k: usize| orig[k as int]));
        }
        pos += 1;
    }
    if r < indices.len() {
        assert(indices@[r as int] >= pos);
    }
    assert(indices@.subrange(0, r as int) =~= indices@);
}

proof fn lemma_sum_zero_each(s: Seq<TreeEntry>)
    requires
        sum_children(s, s.len() as int) == 0,
    ensures
        forall|a: int| 0 <= a < s.len() ==> #[trigger] s[a].num_children == 0,
    decreases s.len(),
{
    if s.len() > 0 {
        let p = s.drop_last();
        lemma_sum_children_prefix(s, p, p.len() as int);
        lemma_sum_nonneg(p, p.len() as int);
        lemma_sum_zero_each(p);
        assert forall|a: int| 0 <= a < s.len() implies #[trigger] s[a].num_children == 0 by {
            if a < p.len() {
                assert(s[a] == p[a]);
            }
        }
    }
}

proof fn lemma_sum_nonneg(s: Seq<TreeEntry>, k: int)
    requires
        0 <= k <= s.len(),
    ensures
        sum_children(s, k) >= 0,
    decreases k,
{
    if k > 0 {
        lemma_sum_nonneg(s, k - 1);
    }
}

proof fn lemma_increasing_len(s: Seq<usize>, bound: int)
    requires
        increasing_below(s, bound),
        bound >= 0,
    ensures
        s.len() <= bound,
        s.len() > 0 ==> s.last() >= s.len() - 1,
    decreases s.len(),
{
    if s.len() > 0 {
        let p = s.drop_last();
        assert(s[s.len() - 1] < bound);
        assert(increasing_below(p, s.last() as int));
        lemma_increasing_len(p, s.last() as int);
    }
}

/// A copy of an entry.
pub fn copy_entry(e: &TreeEntry) -> (r: TreeEntry)
    ensures
        r.rating == e.rating,
        r.indizes@ == e.indizes@,
        r.num_children == e.num_children,
{
    TreeEntry { rating: e.rating, indizes: copy_indizes(&e.indizes), num_children: e.num_children }
}

impl SearchTreeState {
    /// Removes entries from the tree.  The sentinel is kept; for every kept
    /// entry with a single child the child is kept, and for every kept entry
    /// with more children, `retain_fn` gets the level of the entry and the
    /// children and returns the positions of the children to keep.  All
    /// entries below a removed entry are removed.
    #[verifier::spinoff_prover]
    #[verifier::rlimit(60)]
    pub fn prune<F>(&mut self, retain_fn: F)
        where
            F: Fn(usize, &Vec<TreeEntry>) -> Vec<usize>,
        requires
            old(self).wf(),
            old(self).spec_next_levels() is None,
            forall|l: usize, m: &Vec<TreeEntry>| #[trigger] retain_fn.requires((l, m)),
            forall|l: usize, m: &Vec<TreeEntry>, r: Vec<usize>| #[trigger] retain_fn.ensures((l, m), r)
                ==> increasing_below(r@, m@.len() as int),
        ensures
            final(self).wf(),
            final(self).spec_next_levels() is None,
            final(self).spec_tree().len() == old(self).spec_tree().len(),
            final(self).spec_tree()[0].len() == 1,
            exists|sel: Map<(int, int), Seq<usize>>| #[trigger] choices_by(&retain_fn, old(self).spec_tree(), sel)
                && choices_complete(old(self).spec_tree(), sel, old(self).spec_tree().len() - 1)
                && final(self).spec_tree() == pruned_tree(old(self).spec_tree(), sel),
    {
        let ghost old_tree = self.spec_tree();
        let ghost mut sel: Map<(int, int), Seq<usize>> = Map::empty();
        let n = self.tree.len();
        proof {
            assert forall|l: int| 0 <= l < n - 1 implies sum_children(#[trigger] old_tree[l], old_tree[l].len() as int)
                == old_tree[l + 1].len() by {
                assert(old(self).spec_tree()[l] == old_tree[l]);
            }
            assert(sum_children(old_tree[n - 1], old_tree[n - 1].len() as int) == 0);
        }
        let mut old_retained: Vec<usize> = Vec::new();
        old_retained.push(0);
        let mut i: usize = 1;
        while i < n
            invariant
                1 <= i <= n,
                n == self.spec_tree().len(),
                n == old_tree.len(),
                forall|l: int| 0 <= l < n - 1 ==> sum_children(#[trigger] old_tree[l], old_tree[l].len() as int)
                    == old_tree[l + 1].len(),
                sum_children(old_tree[n - 1], old_tree[n - 1].len() as int) == 0,
                old_tree[0].len() == 1,
                self.spec_next_levels() is None,
                forall|l: usize, m: &Vec<TreeEntry>| #[trigger] retain_fn.requires((l, m)),
                forall|l: usize, m: &Vec<TreeEntry>, r: Vec<usize>| #[trigger] retain_fn.ensures((l, m), r)
                    ==> increasing_below(r@, m@.len() as int),
                forall|l: int| i - 1 <= l < n ==> #[trigger] self.spec_tree()[l] == old_tree[l],
                increasing_below(old_retained@, old_tree[i - 1].len() as int),
                i == 1 ==> old_retained@ == seq![0usize],
                i >= 2 ==> sum_children(self.spec_tree()[i - 2], self.spec_tree()[i - 2].len() as int)
                    == old_retained@.len(),
                forall|l: int| 0 <= l < i - 2 ==> sum_children(#[trigger] self.spec_tree()[l], self.spec_tree()[l].len() as int)
                    == self.spec_tree()[l + 1].len(),
                i >= 2 ==> self.spec_tree()[0].len() == 1,
                old_retained@ == kept_positions(old_tree, sel, (i - 1) as nat),
                forall|l: int| 0 <= l < i - 1 ==> #[trigger] self.spec_tree()[l] == pruned_tree(old_tree, sel)[l],
                forall|l: int, p: int| #[trigger] sel.dom().contains((l, p)) ==> l < i - 1,
                choices_by(&retain_fn, old_tree, sel),
                choices_complete(old_tree, sel, i - 1),
            decreases n - i,
        {
            proof {
                assert(self.spec_tree()[i - 1] == old_tree[i - 1]);
                assert(self.spec_tree()[i as int] == old_tree[i as int]);
                assert(self.spec_tree()[i - 1] == self.tree@[i - 1]@);
                assert(self.spec_tree()[i as int] == self.tree@[i as int]@);
            }
            let ghost t_start = self.spec_tree();
            let prev_len = self.tree[i - 1].len();
            let next_len = self.tree[i].len();
            let mut current: Vec<usize> = Vec::new();
            let mut offset: usize = 0;
            let mut r: usize = 0;
            let ghost mut kept: Seq<TreeEntry> = Seq::empty();
            let mut j: usize = 0;
            proof {
                assert(sum_children(old_tree[i - 1], prev_len as int) == old_tree[i as int].len());
            }
            while j < prev_len
                invariant
                    1 <= i < n,
                    n == self.spec_tree().len(),
                    n == old_tree.len(),
                    self.spec_next_levels() is None,
                    forall|l: int| 0 <= l < i - 1 ==> #[trigger] self.spec_tree()[l] == t_start[l],
                    next_len == self.tree@[i as int]@.len(),
                    forall|l: usize, m: &Vec<TreeEntry>| #[trigger] retain_fn.requires((l, m)),
                    forall|l: usize, m: &Vec<TreeEntry>, r: Vec<usize>| #[trigger] retain_fn.ensures((l, m), r)
                        ==> increasing_below(r@, m@.len() as int),
                    prev_len == old_tree[i - 1].len(),
                    next_len == old_tree[i as int].len(),
                    sum_children(old_tree[i - 1], prev_len as int) == next_len,
                    forall|l: int| i <= l < n ==> #[trigger] self.spec_tree()[l] == old_tree[l],
                    self.spec_tree()[i - 1].len() == prev_len,
                    forall|k: int| j <= k < prev_len ==> (#[trigger] self.spec_tree()[i - 1][k]) == old_tree[i - 1][k],
                    forall|k: int| 0 <= k < prev_len ==> (#[trigger] self.spec_tree()[i - 1][k]).rating
                        == old_tree[i - 1][k].rating && self.spec_tree()[i - 1][k].indizes == old_tree[i - 1][k].indizes,
                    j <= prev_len,
                    offset == sum_children(old_tree[i - 1], j as int),
                    increasing_below(old_retained@, prev_len as int),
                    r <= old_retained@.len(),
                    forall|a: int| 0 <= a < r ==> old_retained@[a] < j,
                    forall|a: int| r <= a < old_retained@.len() ==> old_retained@[a] >= j,
                    increasing_below(current@, offset as int),
                    kept == old_retained@.subrange(0, r as int).map_values(|k: usize| self.spec_tree()[i - 1][k as int]),
                    sum_children(kept, kept.len() as int) == current@.len(),
                    old_retained@ == kept_positions(old_tree, sel, (i - 1) as nat),
                    current@ == kept_children_of_all(old_tree, sel, i - 1, old_retained@.subrange(0, r as int)),
                    forall|a: int| 0 <= a < r ==> self.spec_tree()[i - 1][#[trigger] old_retained@[a] as int] == pruned_entry(
                        old_tree,
                        sel,
                        i - 1,
                        old_retained@[a] as int,
                    ),
                    forall|l: int, p: int| #[trigger] sel.dom().contains((l, p)) ==> l < i - 1 || (l == i - 1 && p < j),
                    choices_by(&retain_fn, old_tree, sel),
                    choices_complete(old_tree, sel, i - 1),
                    forall|a: int| 0 <= a < r && old_tree[i - 1][old_retained@[a] as int].num_children > 1 ==> sel.dom().contains(
                        (i - 1, #[trigger] old_retained@[a] as int),
                    ),
                    forall|l: int| 0 <= l < i - 1 ==> #[trigger] t_start[l] == pruned_tree(old_tree, sel)[l],
                decreases prev_len - j,
            {
                let ghost t0 = self.spec_tree();
                let ghost sel0 = sel;
                let ghost cur0 = current@;
                let nc = self.tree[i - 1][j].num_children as usize;
                proof {
                    assert(t0[i - 1][j as int] == old_tree[i - 1][j as int]);
                    assert(t0[i - 1] == self.tree@[i - 1]@);
                    lemma_sum_children_mono(old_tree[i - 1], j + 1, prev_len as int);
                }
                if r < old_retained.len() && old_retained[r] == j {
                    let old_len = current.len();
                    if nc > 1 {
                        assert(self.tree@[i as int]@ == self.spec_tree()[i as int]);
                        let mut slice: Vec<TreeEntry> = Vec::new();
                        let mut c: usize = 0;
                        while c < nc
                            invariant
                                c <= nc,
                                i < self.tree@.len(),
                                offset + nc <= next_len,
                                next_len == self.tree@[i as int]@.len(),
                                slice@.len() == c,
                                self.tree@[i as int]@ == old_tree[i as int],
                                forall|c2: int| 0 <= c2 < c ==> (#[trigger] slice@[c2]).rating == old_tree[i as int][offset + c2].rating
                                    && slice@[c2].indizes@ == old_tree[i as int][offset + c2].indizes@ && slice@[c2].num_children
                                    == old_tree[i as int][offset + c2].num_children,
                            decreases nc - c,
                        {
                            slice.push(copy_entry(&self.tree[i][offset + c]));
                            c += 1;
                        }
                        let local = retain_fn(i - 1, &slice);
                        let ghost old_sel = sel;
                        proof {
                            lemma_increasing_len(local@, nc as int);
                            let l = (i - 1) as int;
                            assert(children_of(old_tree, l, j as int) =~= old_tree[i as int].subrange(
                                offset as int,
                                offset + nc,
                            ));
                            assert(same_entries(slice@, children_of(old_tree, l, j as int)));
                            sel = sel.insert((l, j as int), local@);
                            assert(same_entries(slice@, children_of(old_tree, l, j as int)) && local@ == sel[(l, j as int)]
                                && retain_fn.ensures((l as usize, &slice), local));
                            assert forall|l2: int, p2: int| #[trigger] sel.dom().contains((l2, p2)) implies {
                                &&& 0 <= l2 < old_tree.len() - 1
                                &&& 0 <= p2 < old_tree[l2].len()
                                &&& old_tree[l2][p2].num_children > 1
                                &&& exists|v: Vec<TreeEntry>, r: Vec<usize>| #![auto] same_entries(v@, children_of(old_tree, l2, p2))
                                    && r@ == sel[(l2, p2)] && retain_fn.ensures((l2 as usize, &v), r)
                            } by {
                                if l2 == l && p2 == j {
                                } else {
                                    assert(old_sel.dom().contains((l2, p2)));
                                    assert(sel[(l2, p2)] == old_sel[(l2, p2)]);
                                }
                            }
                            assert(forall|l2: int, p2: int| 0 <= l2 < l ==> #[trigger] chosen_positions(old_sel, l2, p2) == chosen_positions(sel, l2, p2));
                            lemma_pruned_frame(old_tree, old_sel, sel, l);
                            assert forall|l2: int, k: int| 0 <= l2 < l && 0 <= k < kept_positions(old_tree, sel, l2 as nat).len()
                                && old_tree[l2][kept_positions(old_tree, sel, l2 as nat)[k] as int].num_children > 1 implies sel.dom().contains(
                                (l2, #[trigger] kept_positions(old_tree, sel, l2 as nat)[k] as int),
                            ) by {
                                assert(kept_positions(old_tree, sel, l2 as nat) == kept_positions(old_tree, old_sel, l2 as nat));
                                assert(old_sel.dom().contains((l2, kept_positions(old_tree, old_sel, l2 as nat)[k] as int)));
                            }
                            assert forall|a: int| 0 <= a < r implies chosen_positions(old_sel, l, #[trigger] old_retained@.subrange(0, r as int)[a] as int)
                                == chosen_positions(sel, l, old_retained@.subrange(0, r as int)[a] as int) by {
                                assert(old_retained@.subrange(0, r as int)[a] == old_retained@[a]);
                            }
                            lemma_children_all_frame(old_tree, old_sel, sel, l, old_retained@.subrange(0, r as int));
                        }
                        let ghost cur_before = current@;
                        let mut x: usize = 0;
                        while x < local.len()
                            invariant
                                increasing_below(local@, nc as int),
                                x <= local@.len(),
                                local@.len() <= nc,
                                offset + nc <= next_len,
                                old_len <= current@.len(),
                                current@.len() == old_len + x,
                                increasing_below(current@, (offset + (if x == 0 { 0 } else { local@[x - 1] + 1 })) as int),
                                current@ == cur_before + local@.subrange(0, x as int).map_values(|y: usize| (offset + y) as usize),
                            decreases local@.len() - x,
                        {
                            current.push(offset + local[x]);
                            x += 1;
                            assert(current@ =~= cur_before + local@.subrange(0, x as int).map_values(|y: usize| (offset + y) as usize));
                        }
                        proof {
                            assert(local@.subrange(0, x as int) =~= local@);
                            assert(kept_children(old_tree, sel, (i - 1) as int, j as int) =~= local@.map_values(
                                |y: usize| (offset + y) as usize,
                            ));
                            assert(current@ =~= cur0 + kept_children(old_tree, sel, (i - 1) as int, j as int));
                        }
                        proof {
                            assert(increasing_below(current@, (offset + nc) as int));
                        }
                    } else if nc == 1 {
                        current.push(offset);
                        assert(current@ =~= cur0 + kept_children(old_tree, sel, (i - 1) as int, j as int));
                    } else {
                        assert(current@ =~= cur0 + kept_children(old_tree, sel, (i - 1) as int, j as int));
                    }
                    let count = current.len() - old_len;
                    self.tree[i - 1][j].num_children = count as IndexType;
                    proof {
                        let t = self.spec_tree();
                        let e = t[i - 1][j as int];
                        assert forall|l: int| i <= l < n implies #[trigger] t[l] == old_tree[l] by {
                            assert(t[l] == t0[l]);
                        }
                        assert forall|l: int| 0 <= l < i - 1 implies #[trigger] t[l] == t_start[l] by {
                            assert(t[l] == t0[l]);
                        }
                        assert forall|k: int| j < k < prev_len implies (#[trigger] t[i - 1][k]) == old_tree[i - 1][k] by {
                            assert(t[i - 1][k] == t0[i - 1][k]);
                        }
                        assert forall|k: int| 0 <= k < prev_len implies (#[trigger] t[i - 1][k]).rating
                            == old_tree[i - 1][k].rating && t[i - 1][k].indizes == old_tree[i - 1][k].indizes by {
                            assert(t0[i - 1][k].rating == old_tree[i - 1][k].rating);
                        }
                        lemma_sum_children_push(kept, e);
                        kept = kept.push(e);
                        assert(kept =~= old_retained@.subrange(0, r + 1).map_values(|k: usize| t[i - 1][k as int]));
                        let l = (i - 1) as int;
                        assert(old_retained@[r as int] == j);
                        assert(forall|p: int| p != j ==> #[trigger] chosen_positions(sel, l, p) == chosen_positions(sel0, l, p));
                        let ps = old_retained@.subrange(0, r + 1);
                        assert(ps.drop_last() =~= old_retained@.subrange(0, r as int));
                        assert(ps.last() == j);
                        assert forall|a: int| 0 <= a < r implies chosen_positions(sel0, l, #[trigger] old_retained@.subrange(0, r as int)[a] as int)
                            == chosen_positions(sel, l, old_retained@.subrange(0, r as int)[a] as int) by {
                            assert(old_retained@.subrange(0, r as int)[a] == old_retained@[a]);
                        }
                        lemma_children_all_frame(old_tree, sel0, sel, l, old_retained@.subrange(0, r as int));
                        assert(current@ =~= kept_children_of_all(old_tree, sel, l, ps));
                        assert(count == kept_children(old_tree, sel, l, j as int).len());
                        assert forall|a: int| 0 <= a < r + 1 implies t[l][#[trigger] old_retained@[a] as int] == pruned_entry(
                            old_tree,
                            sel,
                            l,
                            old_retained@[a] as int,
                        ) by {
                            if a < r {
                                let p = old_retained@[a] as int;
                                assert(t[l][p] == t0[l][p]);
                                assert(chosen_positions(sel, l, p) == chosen_positions(sel0, l, p));
                                assert(kept_children(old_tree, sel, l, p) == kept_children(old_tree, sel0, l, p));
                            }
                        }
                    }
                    r += 1;
                } else {
                    proof {
                        assert(old_retained@.subrange(0, r as int).map_values(|k: usize| self.spec_tree()[i - 1][k as int])
                            =~= kept);
                    }
                }
                offset = offset + nc;
                j += 1;
            }
            proof {
                if r < old_retained@.len() {
                    assert(old_retained@[r as int] >= j);
                }
                assert(old_retained@.subrange(0, r as int) =~= old_retained@);
                assert(current@ == kept_positions(old_tree, sel, i as nat));
            }
            let ghost t1 = self.spec_tree();
            proof {
                assert(t1[i - 1] == self.tree@[i - 1]@);
            }
            retain_by_index(&mut self.tree[i - 1], &old_retained);
            proof {
                let t = self.spec_tree();
                assert(t[i - 1] =~= kept);
                assert forall|l: int| i <= l < n implies #[trigger] t[l] == old_tree[l] by {
                    assert(t[l] == t1[l]);
                }
                assert forall|l: int| 0 <= l < i - 1 implies #[trigger] t[l] == t_start[l] by {
                    assert(t[l] == t1[l]);
                }
                assert(increasing_below(current@, old_tree[i as int].len() as int));
                if i >= 2 {
                    assert(t[0] == t_start[0]);
                } else {
                    assert(t[0].len() == 1);
                }
                assert forall|l: int| 0 <= l < i - 1 implies sum_children(#[trigger] t[l], t[l].len() as int)
                    == t[l + 1].len() by {
                    assert(t[l] == t_start[l]);
                    if l + 1 < i - 1 {
                        assert(t[l + 1] == t_start[l + 1]);
                    } else {
                        assert(t[l + 1] == t[i - 1]);
                    }
                }
                let pt = pruned_tree(old_tree, sel);
                assert(t[i - 1] =~= pt[i - 1]) by {
                    assert forall|a: int| 0 <= a < t[i - 1].len() implies #[trigger] t[i - 1][a] == pt[i - 1][a] by {
                        assert(t[i - 1][a] == t1[i - 1][old_retained@[a] as int]);
                    }
                }
                assert forall|l2: int| 0 <= l2 < i implies #[trigger] t[l2] == pruned_tree(old_tree, sel)[l2] by {
                    if l2 < i - 1 {
                        assert(t[l2] == t_start[l2]);
                    }
                }
                assert forall|l2: int, k: int| 0 <= l2 < i && 0 <= k < kept_positions(old_tree, sel, l2 as nat).len()
                    && old_tree[l2][kept_positions(old_tree, sel, l2 as nat)[k] as int].num_children > 1 implies sel.dom().contains(
                    (l2, #[trigger] kept_positions(old_tree, sel, l2 as nat)[k] as int),
                ) by {
                    if l2 == i - 1 {
                        assert(kept_positions(old_tree, sel, l2 as nat)[k] == old_retained@[k]);
                    }
                }
            }
            old_retained = current;
            i += 1;
        }
        let ghost t2 = self.spec_tree();
        proof {
            assert(t2[n - 1] == old_tree[n - 1]);
            assert(t2[n - 1] == self.tree@[n - 1]@);
        }
        retain_by_index(&mut self.tree[n - 1], &old_retained);
        proof {
            let t = self.spec_tree();
            lemma_sum_zero_each(old_tree[n - 1]);
            assert forall|a: int| 0 <= a < t[n - 1].len() implies #[trigger] t[n - 1][a].num_children == 0 by {
                assert(t[n - 1][a] == old_tree[n - 1][old_retained@[a] as int]);
            }
            lemma_sum_children_zero(t[n - 1], t[n - 1].len() as int);
            assert forall|l: int| 0 <= l < t.len() - 1 implies sum_children(#[trigger] t[l], t[l].len() as int)
                == t[l + 1].len() by {
                assert(t[l] == t2[l]);
                if l + 1 < n - 1 {
                    assert(t[l + 1] == t2[l + 1]);
                }
            }
            if n == 1 {
                assert(t[0].len() == 1);
            } else {
                assert(t[0] == t2[0]);
            }
            let pt = pruned_tree(old_tree, sel);
            assert(t[n - 1] =~= pt[n - 1]) by {
                assert forall|a: int| 0 <= a < t[n - 1].len() implies #[trigger] t[n - 1][a] == pt[n - 1][a] by {
                    assert(t[n - 1][a] == old_tree[n - 1][old_retained@[a] as int]);
                }
            }
            assert forall|l2: int| 0 <= l2 < n implies #[trigger] t[l2] == pt[l2] by {
                if l2 < n - 1 {
                    assert(t[l2] == t2[l2]);
                }
            }
            assert(t =~= pt);
            assert(choices_by(&retain_fn, old(self).spec_tree(), sel));
        }
    }
}


/// `b` differs from `a` at most in the numbers of children of the entries
/// of the last level and in the levels under construction.
pub open spec fn keeps_levels(a: SearchTreeState, b: SearchTreeState) -> bool {
    &&& b.wf()
    &&& b.spec_next_levels() is Some
    &&& b.spec_tree().len() == a.spec_tree().len()
    &&& forall|l: int| 0 <= l < a.spec_tree().len() - 1 ==> #[trigger] b.spec_tree()[l] == a.spec_tree()[l]
    &&& b.spec_tree().last().len() == a.spec_tree().last().len()
}

/// For every level but the last, `starts` holds the position of the first
/// child of each entry.
pub open spec fn starts_valid(starts: Seq<Vec<usize>>, t: Seq<Seq<TreeEntry>>) -> bool {
    &&& starts.len() == t.len() - 1
    &&& forall|l: int| 0 <= l < starts.len() ==> (#[trigger] starts[l])@.len() == t[l].len()
    &&& forall|l: int, k: int| 0 <= l < starts.len() && 0 <= k < t[l].len() ==> #[trigger] starts[l]@[k]
        == sum_children(t[l], k)
}

/// The leaves below entry `p` of level `l`, in the order of the tree;
/// `inner` holds the levels above the last one, so that an entry of level
/// `inner.len()` is a leaf.
pub open spec fn leaves_below(inner: Seq<Seq<TreeEntry>>, l: int, p: int) -> Seq<TreeIndex>
    decreases inner.len() - l, 1int, 0int,
{
    if 0 <= l < inner.len() && 0 <= p < inner[l].len() {
        leaves_of_children(inner, l, p, inner[l][p].num_children as int)
    } else {
        seq![TreeIndex(l as usize, p as usize)]
    }
}

/// The leaves below the first `c` children of entry `p` of level `l`.
pub open spec fn leaves_of_children(inner: Seq<Seq<TreeEntry>>, l: int, p: int, c: int) -> Seq<TreeIndex>
    decreases inner.len() - l, 0int, c,
{
    if c <= 0 || !(0 <= l < inner.len()) {
        Seq::empty()
    } else {
        leaves_of_children(inner, l, p, c - 1) + leaves_below(inner, l + 1, sum_children(inner[l], p) + c - 1)
    }
}

/// `after` is `before` with `k` (at least 0) children added to the entry `index` of the
/// last level, at the end of the level under construction.
pub open spec fn children_added(before: SearchTreeState, after: SearchTreeState, index: TreeIndex, k: int) -> bool {
    let t = before.spec_tree();
    let e = t[index.0 as int][index.1 as int];
    &&& k >= 0
    &&& after.spec_tree() == t.update(
        index.0 as int,
        t[index.0 as int].update(index.1 as int, TreeEntry { num_children: (e.num_children + k) as IndexType, ..e }),
    )
    &&& before.spec_next_levels() is Some
    &&& after.spec_next_levels() is Some
    &&& after.spec_next_levels()->Some_0.0.len() == before.spec_next_levels()->Some_0.0.len() + k
    &&& after.spec_next_levels()->Some_0.0.subrange(0, before.spec_next_levels()->Some_0.0.len() as int)
        == before.spec_next_levels()->Some_0.0
}

/// Each of `leaves` in turn got `counts` children: `trees` are the states
/// before, between and after.
pub open spec fn leaves_extended(trees: Seq<SearchTreeState>, leaves: Seq<TreeIndex>, counts: Seq<int>) -> bool {
    &&& trees.len() == leaves.len() + 1
    &&& counts.len() == leaves.len()
    &&& forall|i: int| 0 <= i < leaves.len() ==> #[trigger] children_added(
        trees[i],
        trees[i + 1],
        leaves[i],
        counts[i],
    )
}

/// The levels of the tree with the levels under construction appended, as
/// far as they are not empty.
pub open spec fn with_new_levels(t: SearchTreeState) -> Seq<Seq<TreeEntry>> {
    let (c, g) = t.spec_next_levels()->Some_0;
    if c.len() > 0 && g.len() > 0 {
        t.spec_tree().push(c).push(g)
    } else if c.len() > 0 {
        t.spec_tree().push(c)
    } else {
        t.spec_tree()
    }
}

/// The visitor was called on `leaves` in turn, and its visits took the
/// tree through the states `trees`.
pub open spec fn visits_in_order<T: GameData, V: LeafVisitor<T>>(
    visitor: &V,
    trees: Seq<SearchTreeState>,
    leaves: Seq<TreeIndex>,
) -> bool {
    &&& trees.len() == leaves.len() + 1
    &&& forall|i: int| 0 <= i < leaves.len() ==> #[trigger] visitor.spec_visits(trees[i], trees[i + 1], leaves[i])
}

/// Visits in turn compose.
pub proof fn lemma_visits_concat<T: GameData, V: LeafVisitor<T>>(
    visitor: &V,
    a: Seq<SearchTreeState>,
    la: Seq<TreeIndex>,
    b: Seq<SearchTreeState>,
    lb: Seq<TreeIndex>,
)
    requires
        visits_in_order::<T, V>(visitor, a, la),
        visits_in_order::<T, V>(visitor, b, lb),
        a.last() == b[0],
    ensures
        visits_in_order::<T, V>(visitor, a + b.skip(1), la + lb),
        (a + b.skip(1))[0] == a[0],
        (a + b.skip(1)).last() == b.last(),
{
    let c = a + b.skip(1);
    let lc = la + lb;
    assert forall|i: int| 0 <= i < lc.len() implies #[trigger] visitor.spec_visits(c[i], c[i + 1], lc[i]) by {
        if i < la.len() {
            assert(c[i] == a[i]);
            if i + 1 < a.len() {
                assert(c[i + 1] == a[i + 1]);
            }
            assert(lc[i] == la[i]);
        } else {
            let j = i - la.len();
            assert(lc[i] == lb[j]);
            assert(c[i + 1] == b[j + 1]);
            if j == 0 {
                assert(c[i] == a.last());
            } else {
                assert(c[i] == b[j]);
            }
        }
    }
}

/// Work done at each leaf of the search tree, with the engine at the
/// position that the path to the leaf leads to.
pub trait LeafVisitor<T: GameData> {
    /// The visitor can be called.
    closed spec fn ready(&self) -> bool {
        true
    }

    /// The visitor may report a cancellation.
    closed spec fn cancelled(&self) -> bool {
        true
    }

    /// A visit of leaf `index` that succeeded can take the tree from
    /// `before` to `after`; every implementation says which.
    closed spec fn spec_visits(&self, before: SearchTreeState, after: SearchTreeState, index: TreeIndex) -> bool {
        true
    }

    /// `e` is an error that a visit can give; every implementation says
    /// which.
    closed spec fn spec_errors(&self, e: MinMaxError) -> bool {
        true
    }

    /// Visits the leaf `index` (on the last level); may add children to it.
    fn visit_leaf<'a>(&self, tree: &mut SearchTreeState, stepper: &mut EngineStepper<'a, T>, index: TreeIndex) -> (r:
        Result<(), MinMaxError>)
        requires
            self.ready(),
            old(tree).wf(),
            old(tree).spec_next_levels() is Some,
            index.0 == old(tree).spec_depth(),
            index.1 < old(tree).spec_tree()[index.0 as int].len(),
            old(stepper).at_move_start(),
        ensures
            keeps_levels(*old(tree), *final(tree)),
            final(stepper).engine.wf(),
            r is Ok ==> final(stepper).at_move_start() && final(stepper).spec_decision_context()
                == old(stepper).spec_decision_context(),
            r == Err::<(), MinMaxError>(MinMaxError::Cancelled) ==> self.cancelled(),
            r is Ok ==> self.spec_visits(*old(tree), *final(tree), index),
            r matches Err(e) ==> self.spec_errors(e),
    ;
}

impl SearchTreeState {
    /// For every level but the last, the position of the first child of
    /// each entry on the next level.
    fn child_starts(&self) -> (r: Vec<Vec<usize>>)
        requires
            self.wf(),
        ensures
            starts_valid(r@, self.spec_tree()),
    {
        let ghost t = self.spec_tree();
        let n = self.tree.len();
        let mut result: Vec<Vec<usize>> = Vec::new();
        let mut l: usize = 0;
        while l + 1 < n
            invariant
                self.wf(),
                t == self.spec_tree(),
                n == t.len(),
                l + 1 <= n,
                result@.len() == l,
                forall|a: int| 0 <= a < l ==> (#[trigger] result@[a])@.len() == t[a].len(),
                forall|a: int, k: int| 0 <= a < l && 0 <= k < t[a].len() ==> #[trigger] result@[a]@[k]
                    == sum_children(t[a], k),
            decreases n - l,
        {
            let level = &self.tree[l];
            let next_len = self.tree[l + 1].len();
            proof {
                assert(level@ == t[l as int]);
                assert(sum_children(t[l as int], t[l as int].len() as int) == t[l + 1].len());
                assert(t[l + 1] == self.tree@[l + 1]@);
            }
            let mut row: Vec<usize> = Vec::new();
            let mut acc: usize = 0;
            let mut k: usize = 0;
            while k < level.len()
                invariant
                    level@ == t[l as int],
                    sum_children(t[l as int], t[l as int].len() as int) == next_len,
                    k <= level@.len(),
                    row@.len() == k,
                    acc == sum_children(t[l as int], k as int),
                    forall|b: int| 0 <= b < k ==> #[trigger] row@[b] == sum_children(t[l as int], b),
                decreases level@.len() - k,
            {
                row.push(acc);
                proof {
                    lemma_sum_children_mono(t[l as int], k + 1, t[l as int].len() as int);
                }
                acc = acc + level[k].num_children();
                k += 1;
            }
            result.push(row);
            l += 1;
        }
        result
    }

    /// Calls the visitor for every leaf of the tree, with the engine at the
    /// position of the leaf; the engine is returned to its position before
    /// each next step.  Stops at the first error.
    pub fn for_each_leaf<'a, T: GameData, V: LeafVisitor<T>>(
        &mut self,
        stepper: &mut EngineStepper<'a, T>,
        visitor: &V,
    ) -> (r: Result<(), MinMaxError>)
        requires
            visitor.ready(),
            old(self).wf(),
            old(self).spec_next_levels() is Some,
            old(stepper).at_move_start(),
        ensures
            keeps_levels(*old(self), *final(self)),
            final(stepper).engine.wf(),
            r is Ok ==> final(stepper).at_move_start() && final(stepper).spec_decision_context()
                == old(stepper).spec_decision_context(),
            r == Err::<(), MinMaxError>(MinMaxError::Cancelled) ==> visitor.cancelled(),
            r matches Err(e) ==> e is InvalidGame || visitor.spec_errors(e),
            r is Ok ==> exists|trees: Seq<SearchTreeState>| #[trigger] visits_in_order::<T, V>(
                visitor,
                trees,
                leaves_below(old(self).spec_tree().drop_last(), 0, 0),
            ) && trees[0] == *old(self) && trees.last() == *final(self),
    {
        let starts = self.child_starts();
        self.for_each_leaf_impl(stepper, visitor, &starts, TreeIndex(0, 0))
    }

    fn for_each_leaf_impl<'a, T: GameData, V: LeafVisitor<T>>(
        &mut self,
        stepper: &mut EngineStepper<'a, T>,
        visitor: &V,
        starts: &Vec<Vec<usize>>,
        index: TreeIndex,
    ) -> (r: Result<(), MinMaxError>)
        requires
            visitor.ready(),
            old(self).wf(),
            old(self).spec_next_levels() is Some,
            starts_valid(starts@, old(self).spec_tree()),
            index.0 <= old(self).spec_depth(),
            index.1 < old(self).spec_tree()[index.0 as int].len(),
            old(stepper).at_move_start(),
        ensures
            keeps_levels(*old(self), *final(self)),
            final(stepper).engine.wf(),
            r is Ok ==> final(stepper).at_move_start() && final(stepper).spec_decision_context()
                == old(stepper).spec_decision_context(),
            r == Err::<(), MinMaxError>(MinMaxError::Cancelled) ==> visitor.cancelled(),
            r matches Err(e) ==> e is InvalidGame || visitor.spec_errors(e),
            r is Ok ==> exists|trees: Seq<SearchTreeState>| #[trigger] visits_in_order::<T, V>(
                visitor,
                trees,
                leaves_below(old(self).spec_tree().drop_last(), index.0 as int, index.1 as int),
            ) && trees[0] == *old(self) && trees.last() == *final(self),
        decreases old(self).spec_depth() - index.0,
    {
        let ghost inner = self.spec_tree().drop_last();
        let depth = index.0 + 1;
        if depth == self.tree.len() {
            let ghost before = *self;
            let res = visitor.visit_leaf(self, stepper, index);
            proof {
                if res is Ok {
                    let trees = seq![before, *self];
                    assert(leaves_below(inner, index.0 as int, index.1 as int) == seq![index]);
                    assert(visits_in_order::<T, V>(visitor, trees, seq![index]));
                }
            }
            return res;
        }
        let ghost mut trees: Seq<SearchTreeState> = seq![*self];
        proof {
            assert(visits_in_order::<T, V>(visitor, trees, Seq::empty()));
        }
        let ghost t = self.spec_tree();
        let offset = starts[index.0][index.1];
        let n = self.tree[index.0][index.1].num_children();
        proof {
            assert(t[index.0 as int] == self.tree@[index.0 as int]@);
            lemma_sum_children_mono(t[index.0 as int], index.1 + 1, t[index.0 as int].len() as int);
            assert(offset + n <= t[depth as int].len());
        }
        let level_len = self.tree[depth].len();
        let mut c: usize = 0;
        while c < n
            invariant
                visitor.ready(),
                keeps_levels(*old(self), *self),
                t == old(self).spec_tree(),
                starts_valid(starts@, old(self).spec_tree()),
                depth < t.len(),
                depth == index.0 + 1,
                offset + n <= t[depth as int].len(),
                t[depth as int].len() == level_len,
                c <= n,
                stepper.at_move_start(),
                stepper.spec_decision_context() == old(stepper).spec_decision_context(),
                inner == t.drop_last(),
                offset == sum_children(t[index.0 as int], index.1 as int),
                n == t[index.0 as int][index.1 as int].num_children,
                visits_in_order::<T, V>(visitor, trees, leaves_of_children(inner, index.0 as int, index.1 as int, c as int)),
                trees[0] == *old(self),
                trees.last() == *self,
            decreases n - c,
        {
            let child = offset + c;
            proof {
                assert(self.spec_tree()[depth as int].len() == t[depth as int].len());
                assert(self.spec_tree()[depth as int] == self.tree@[depth as int]@);
            }
            let indizes = copy_indizes(&self.tree[depth][child].indizes);
            let ghost ctx = stepper.spec_decision_context();
            match stepper.forward_step(&indizes) {
                Ok(()) => {},
                Err(e) => {
                    return Err(e);
                },
            }
            let ghost ctx1 = stepper.spec_decision_context();
            proof {
                assert forall|l: int| 0 <= l < self.spec_tree().len() - 1 implies #[trigger] starts@[l]@.len()
                    == self.spec_tree()[l].len() by {
                    assert(self.spec_tree()[l] == t[l]);
                }
            }
            let ghost mid = *self;
            let res = self.for_each_leaf_impl(stepper, visitor, starts, TreeIndex(depth, child));
            proof {
                if res is Ok {
                    assert(mid.spec_tree().drop_last() =~= inner);
                    let sub = choose|sub: Seq<SearchTreeState>| #[trigger] visits_in_order::<T, V>(
                        visitor,
                        sub,
                        leaves_below(mid.spec_tree().drop_last(), depth as int, child as int),
                    ) && sub[0] == mid && sub.last() == *self;
                    lemma_visits_concat::<T, V>(
                        visitor,
                        trees,
                        leaves_of_children(inner, index.0 as int, index.1 as int, c as int),
                        sub,
                        leaves_below(inner, depth as int, child as int),
                    );
                    assert(leaves_of_children(inner, index.0 as int, index.1 as int, c + 1) == leaves_of_children(
                        inner,
                        index.0 as int,
                        index.1 as int,
                        c as int,
                    ) + leaves_below(inner, depth as int, child as int));
                    trees = trees + sub.skip(1);
                }
            }
            match stepper.backward_step() {
                Ok(_) => {},
                Err(e) => {
                    return Err(e);
                },
            }
            proof {
                assert(ctx1.drop_last() =~= ctx1.subrange(0, ctx.len() as int));
            }
            if res.is_err() {
                return res;
            }
            c += 1;
        }
        proof {
            assert(leaves_below(inner, index.0 as int, index.1 as int) == leaves_of_children(
                inner,
                index.0 as int,
                index.1 as int,
                n as int,
            ));
        }
        Ok(())
    }
}

} // verus!
