use vstd::prelude::*;
use crate::board::{Board, BoardIdxType, Field, NeighborhoodStructure};
use crate::board::index_map::{BoardToMap, IndexMap, entry_lookup};
use crate::board::search::{FieldSearchResult, SetWrapper, on_board};

verus! {

/// The number of points on the way from an entry of the tree to its root;
/// an entry whose parent is itself is a root.
pub open spec fn tree_depth<I>(tree: Seq<(usize, I)>, k: int) -> nat
    decreases k,
{
    if k < 0 || k >= tree.len() {
        0
    } else if tree[k].0 >= k {
        1
    } else {
        1 + tree_depth(tree, tree[k].0 as int)
    }
}

/// The indices of a path of `len` points that ends at entry `k`, from the
/// endpoint back to the start.
pub open spec fn path_points<I>(tree: Seq<(usize, I)>, k: int, len: nat) -> Seq<I>
    decreases len,
{
    if len == 0 {
        Seq::empty()
    } else {
        seq![tree[k].1].add(path_points(tree, tree[k].0 as int, (len - 1) as nat))
    }
}

/// The entry that a path of `len` points ending at entry `k` starts at
/// after `steps` steps towards the root.
pub open spec fn ancestor<I>(tree: Seq<(usize, I)>, k: int, steps: nat) -> int
    decreases steps,
{
    if steps == 0 {
        k
    } else {
        ancestor(tree, tree[k].0 as int, (steps - 1) as nat)
    }
}

/// Every entry's parent comes no later than the entry.
pub open spec fn parents_ok<I>(tree: Seq<(usize, I)>) -> bool {
    forall|k: int| 0 <= k < tree.len() ==> #[trigger] tree[k].0 <= k
}

/// An open path ends at an entry and has at least one and at most as many
/// points as lead from the entry to its root.
pub open spec fn path_ok<I>(tree: Seq<(usize, I)>, p: (usize, usize)) -> bool {
    &&& p.0 < tree.len()
    &&& 1 <= p.1 <= tree_depth(tree, p.0 as int)
}

proof fn lemma_depth_push<I>(tree: Seq<(usize, I)>, e: (usize, I), k: int)
    requires
        parents_ok(tree),
        0 <= k < tree.len(),
    ensures
        tree_depth(tree.push(e), k) == tree_depth(tree, k),
        tree_depth(tree, k) >= 1,
    decreases k,
{
    let t2 = tree.push(e);
    assert(t2[k] == tree[k]);
    if tree[k].0 < k {
        lemma_depth_push(tree, e, tree[k].0 as int);
    }
}

proof fn lemma_points_push<I>(tree: Seq<(usize, I)>, e: (usize, I), k: int, len: nat)
    requires
        parents_ok(tree),
        0 <= k < tree.len(),
    ensures
        path_points(tree.push(e), k, len) == path_points(tree, k, len),
    decreases len,
{
    let t2 = tree.push(e);
    assert(t2[k] == tree[k]);
    if len > 0 {
        lemma_points_push(tree, e, tree[k].0 as int, (len - 1) as nat);
    }
}

proof fn lemma_depth_prefix<I>(t: Seq<(usize, I)>, old_tree: Seq<(usize, I)>, k: int)
    requires
        parents_ok(old_tree),
        old_tree.len() <= t.len(),
        t.subrange(0, old_tree.len() as int) == old_tree,
        0 <= k < old_tree.len(),
    ensures
        tree_depth(t, k) == tree_depth(old_tree, k),
        1 <= tree_depth(old_tree, k) <= k + 1,
    decreases k,
{
    assert(t[k] == old_tree[k]);
    if old_tree[k].0 < k {
        lemma_depth_prefix(t, old_tree, old_tree[k].0 as int);
    }
}

proof fn lemma_points_prefix<I>(t: Seq<(usize, I)>, old_tree: Seq<(usize, I)>, k: int, len: nat)
    requires
        parents_ok(old_tree),
        old_tree.len() <= t.len(),
        t.subrange(0, old_tree.len() as int) == old_tree,
        0 <= k < old_tree.len(),
    ensures
        path_points(t, k, len) == path_points(old_tree, k, len),
    decreases len,
{
    assert(t[k] == old_tree[k]);
    if len > 0 {
        lemma_points_prefix(t, old_tree, old_tree[k].0 as int, (len - 1) as nat);
    }
}

proof fn lemma_points_len<I>(tree: Seq<(usize, I)>, k: int, len: nat)
    ensures
        path_points(tree, k, len).len() == len,
    decreases len,
{
    if len > 0 {
        lemma_points_len(tree, tree[k].0 as int, (len - 1) as nat);
    }
}

/// The elements of `s` whose flag in `keep` is set, in order.
pub open spec fn kept_of<I>(s: Seq<I>, keep: Seq<bool>) -> Seq<I>
    decreases s.len(),
{
    if s.len() == 0 || keep.len() == 0 {
        Seq::empty()
    } else if keep.last() {
        kept_of(s.drop_last(), keep.drop_last()).push(s.last())
    } else {
        kept_of(s.drop_last(), keep.drop_last())
    }
}

proof fn lemma_kept_all<I>(s: Seq<I>, keep: Seq<bool>)
    requires
        keep.len() == s.len(),
        forall|k: int| 0 <= k < keep.len() ==> keep[k],
    ensures
        kept_of(s, keep) == s,
    decreases s.len(),
{
    if s.len() > 0 {
        lemma_kept_all(s.drop_last(), keep.drop_last());
        assert(keep.last());
        assert(s.drop_last().push(s.last()) =~= s);
    } else {
        assert(s =~= Seq::<I>::empty());
    }
}

/// `predicate` can answer `b` for the field at index `j` of the board.
pub open spec fn accepts<'a, B: Board, P: Fn(Field<'a, B>) -> bool>(predicate: P, board: &'a B, j: B::Index, b: bool) -> bool {
    exists|f: Field<'a, B>| f.spec_board() == board && f.spec_index() == j && #[trigger] predicate.ensures((f,), b)
}

/// `y` lists, in order, the neighbors of the field at index `i` of the
/// board that `predicate` accepts.
pub open spec fn matching_at<'a, B: Board, P: Fn(Field<'a, B>) -> bool>(
    predicate: P,
    board: &'a B,
    i: B::Index,
    y: Seq<B::Index>,
) -> bool where B::Structure: NeighborhoodStructure<B> {
    let n = board.spec_board_structure().spec_neighbors(board, i);
    exists|keep: Seq<bool>|
        keep.len() == n.len() && y == #[trigger] kept_of(n, keep) && forall|k: int|
            0 <= k < n.len() ==> #[trigger] accepts(predicate, board, n[k], keep[k])
}

/// `ys` holds, for each open path in turn, the neighbors of its endpoint
/// that `predicate` accepts.
pub open spec fn matches_for_paths<'a, B: Board, P: Fn(Field<'a, B>) -> bool>(
    predicate: P,
    board: &'a B,
    tree: Seq<(usize, B::Index)>,
    open: Seq<(usize, usize)>,
    ys: Seq<Seq<B::Index>>,
) -> bool where B::Structure: NeighborhoodStructure<B> {
    &&& ys.len() == open.len()
    &&& forall|p: int| 0 <= p < open.len() ==> #[trigger] matching_at(predicate, board, tree[open[p].0 as int].1, ys[p])
}

/// The indices of the neighbors of the field that satisfy the predicate.
fn matching_neighbors<'a, B: Board, P: Fn(Field<'a, B>) -> bool>(f: Field<'a, B>, predicate: &P) -> (r: FieldSearchResult<
    B::Index,
>) where B::Structure: NeighborhoodStructure<B>
    requires
        forall|g: Field<'a, B>| #[trigger] predicate.requires((g,)),
    ensures
        on_board(f.spec_board(), r.spec_data()),
        matching_at(*predicate, f.spec_board(), f.spec_index(), r.spec_data()),
{
    let ghost n = f.spec_board().spec_board_structure().spec_neighbors(f.spec_board(), f.spec_index());
    let neighbors = f.neighbors();
    let mut data: Vec<B::Index> = Vec::new();
    let ghost mut keep: Seq<bool> = Seq::empty();
    let mut k: usize = 0;
    assert(data@ =~= kept_of(n.take(0), keep));
    while k < neighbors.len()
        invariant
            neighbors@.len() == n.len(),
            forall|a: int| 0 <= a < neighbors@.len() ==> (#[trigger] neighbors@[a]).spec_index() == n[a],
            keep.len() == k,
            data@ == kept_of(n.take(k as int), keep),
            forall|a: int| 0 <= a < k ==> #[trigger] accepts(*predicate, f.spec_board(), n[a], keep[a]),
            k <= neighbors@.len(),
            forall|a: int| 0 <= a < neighbors@.len() ==> (#[trigger] neighbors@[a]).spec_board() == f.spec_board(),
            forall|g: Field<'a, B>| #[trigger] predicate.requires((g,)),
            on_board(f.spec_board(), data@),
        decreases neighbors@.len() - k,
    {
        let nb = neighbors[k];
        let b = predicate(nb);
        proof {
            assert(accepts(*predicate, f.spec_board(), n[k as int], b));
            assert(n.take(k as int + 1).drop_last() =~= n.take(k as int));
            assert(keep.push(b).drop_last() =~= keep);
            assert(n.take(k as int + 1).last() == n[k as int]);
        }
        if b {
            proof {
                use_type_invariant(&nb);
            }
            data.push(nb.index());
        }
        proof {
            keep = keep.push(b);
        }
        k += 1;
    }
    proof {
        assert(n.take(n.len() as int) =~= n);
    }
    FieldSearchResult::from_vec(data)
}

/// The entry that extending the open path `path` (the position of its
/// endpoint and its number of points) by index `i` adds: one whose parent is
/// the endpoint's parent when `i` is the endpoint's index (the endpoint
/// moves), else the endpoint (the path grows).
pub open spec fn path_entry<I>(tree: Seq<(usize, I)>, path: (usize, usize), i: I) -> (usize, I) {
    (if i == tree[path.0 as int].1 { tree[path.0 as int].0 } else { path.0 }, i)
}

/// The number of points of the open path that extending the open path
/// `path` by index `i` gives: unchanged when the endpoint moves, one more
/// (up to the largest `usize`) when the path grows.
pub open spec fn path_length<I>(tree: Seq<(usize, I)>, path: (usize, usize), i: I) -> usize {
    if i == tree[path.0 as int].1 {
        path.1
    } else {
        path.1.saturating_add(1)
    }
}

/// The entries that extending the open path `path` by the indices `ks`
/// adds, in turn.
pub open spec fn entries_for<I>(tree: Seq<(usize, I)>, path: (usize, usize), ks: Seq<I>) -> Seq<(usize, I)> {
    ks.map_values(|i: I| path_entry(tree, path, i))
}

/// The numbers of points of the open paths that extending the open path
/// `path` by the indices `ks` gives, in turn.
pub open spec fn lengths_for<I>(tree: Seq<(usize, I)>, path: (usize, usize), ks: Seq<I>) -> Seq<usize> {
    ks.map_values(|i: I| path_length(tree, path, i))
}

/// The numbers of points of the open paths.
pub open spec fn open_lengths(open: Seq<(usize, usize)>) -> Seq<usize> {
    open.map_values(|o: (usize, usize)| o.1)
}

/// The indices of the entries of the tree from position `from` on.
pub open spec fn indices_from<I>(tree: Seq<(usize, I)>, from: int) -> Seq<I> {
    Seq::new((tree.len() - from) as nat, |a: int| tree[from + a].1)
}

/// `y` is what `map_fields` can yield for the field at index `i` of the
/// board.
pub open spec fn yields_at<'a, B: Board, F: Fn(Field<'a, B>) -> FieldSearchResult<B::Index>>(
    map_fields: F,
    board: &'a B,
    i: B::Index,
    y: Seq<B::Index>,
) -> bool {
    exists|f: Field<'a, B>, res: FieldSearchResult<B::Index>|
        f.spec_board() == board && f.spec_index() == i && #[trigger] map_fields.ensures((f,), res) && res.spec_data()
            == y
}

/// `ys` holds, for each open path in turn, what `map_fields` yields for
/// the field at its endpoint.
pub open spec fn yields_for_paths<'a, B: Board, F: Fn(Field<'a, B>) -> FieldSearchResult<B::Index>>(
    map_fields: F,
    board: &'a B,
    tree: Seq<(usize, B::Index)>,
    open: Seq<(usize, usize)>,
    ys: Seq<Seq<B::Index>>,
) -> bool {
    &&& ys.len() == open.len()
    &&& forall|p: int| 0 <= p < open.len() ==> #[trigger] yields_at(map_fields, board, tree[open[p].0 as int].1, ys[p])
}

/// The number of indices in all the sequences of `ys`.
pub open spec fn yielded_count<I>(ys: Seq<Seq<I>>) -> nat
    decreases ys.len(),
{
    if ys.len() == 0 {
        0
    } else {
        yielded_count(ys.drop_last()) + ys.last().len()
    }
}

proof fn lemma_flatten_at<I>(ys: Seq<Seq<I>>, p: int, j: int)
    requires
        0 <= p < ys.len(),
        0 <= j < ys[p].len(),
    ensures
        ys.flatten().len() == yielded_count(ys),
        yielded_count(ys.take(p)) + j < yielded_count(ys),
        ys.flatten()[yielded_count(ys.take(p)) + j] == ys[p][j],
    decreases ys.len(),
{
    ys.lemma_flatten_and_flatten_alt_are_equivalent();
    ys.drop_last().lemma_flatten_and_flatten_alt_are_equivalent();
    assert(ys.flatten_alt() == ys.drop_last().flatten_alt() + ys.last());
    if p == ys.len() - 1 {
        assert(ys.take(p) =~= ys.drop_last());
        lemma_flatten_len(ys.drop_last());
    } else {
        lemma_flatten_at(ys.drop_last(), p, j);
        assert(ys.take(p) =~= ys.drop_last().take(p));
    }
    lemma_flatten_len(ys);
}

proof fn lemma_flatten_len<I>(ys: Seq<Seq<I>>)
    ensures
        ys.flatten().len() == yielded_count(ys),
    decreases ys.len(),
{
    ys.lemma_flatten_and_flatten_alt_are_equivalent();
    if ys.len() > 0 {
        lemma_flatten_len(ys.drop_last());
        ys.drop_last().lemma_flatten_and_flatten_alt_are_equivalent();
        assert(ys.flatten_alt() == ys.drop_last().flatten_alt() + ys.last());
    } else {
        assert(ys.flatten_alt() =~= Seq::<I>::empty());
    }
}

/// When the entries added to a tree are what a map yields for the open
/// paths in turn, as `extend` adds them with `AnyFields`, nothing yielded is
/// skipped: the tree grows by the number of yielded indices, and index `j`
/// yielded for path `p` is the index of the entry that follows the old
/// entries and those of the paths before `p` by `j`.
pub proof fn lemma_any_fields_adds_all<I>(before: Seq<(usize, I)>, after: Seq<(usize, I)>, ys: Seq<Seq<I>>)
    requires
        after.len() >= before.len(),
        indices_from(after, before.len() as int) == ys.flatten(),
    ensures
        after.len() == before.len() + yielded_count(ys),
        forall|p: int, j: int|
            0 <= p < ys.len() && 0 <= j < ys[p].len() ==> after[before.len() + yielded_count(ys.take(p)) + j].1
                == #[trigger] ys[p][j],
{
    lemma_flatten_len(ys);
    assert forall|p: int, j: int| 0 <= p < ys.len() && 0 <= j < ys[p].len() implies after[before.len()
        + yielded_count(ys.take(p)) + j].1 == #[trigger] ys[p][j] by {
        lemma_flatten_at(ys, p, j);
        let a = yielded_count(ys.take(p)) + j;
        assert(indices_from(after, before.len() as int)[a] == after[before.len() + a].1);
    }
}

proof fn lemma_push_contains<I>(s: Seq<I>, x: I)
    ensures
        forall|j: I| #[trigger] s.push(x).contains(j) == (s.contains(j) || j == x),
{
    assert forall|j: I| #[trigger] s.push(x).contains(j) == (s.contains(j) || j == x) by {
        if s.contains(j) {
            let a = choose|a: int| 0 <= a < s.len() && s[a] == j;
            assert(s.push(x)[a] == j);
        }
        if j == x {
            assert(s.push(x)[s.len() as int] == x);
        }
        if s.push(x).contains(j) {
            let a = choose|a: int| 0 <= a < s.len() + 1 && s.push(x)[a] == j;
            if a < s.len() {
                assert(s[a] == j);
            }
        }
    }
}

proof fn lemma_indices_push<I>(tree: Seq<(usize, I)>, from: int, e: (usize, I))
    requires
        0 <= from <= tree.len(),
    ensures
        indices_from(tree.push(e), from) == indices_from(tree, from).push(e.1),
{
    assert(indices_from(tree.push(e), from) =~= indices_from(tree, from).push(e.1));
}

/// No open path visits an index twice.
pub open spec fn all_paths_acyclic<I>(tree: Seq<(usize, I)>, open: Seq<(usize, usize)>) -> bool {
    forall|k: int| 0 <= k < open.len() ==> (#[trigger] path_points(tree, open[k].0 as int, open[k].1 as nat)).no_duplicates()
}

proof fn lemma_points_shorter<I>(tree: Seq<(usize, I)>, k: int, m: nat, n: nat)
    requires
        m <= n,
    ensures
        path_points(tree, k, m) == path_points(tree, k, n).subrange(0, m as int),
    decreases m,
{
    lemma_points_len(tree, k, n);
    lemma_points_len(tree, k, m);
    if m > 0 {
        lemma_points_shorter(tree, tree[k].0 as int, (m - 1) as nat, (n - 1) as nat);
        lemma_points_len(tree, tree[k].0 as int, (n - 1) as nat);
        assert(path_points(tree, k, m) =~= path_points(tree, k, n).subrange(0, m as int));
    }
}

proof fn lemma_acyclic_push<I>(
    tree: Seq<(usize, I)>,
    open: Seq<(usize, usize)>,
    ti: int,
    length: nat,
    entry: (usize, I),
    path: (usize, usize),
)
    requires
        parents_ok(tree),
        forall|k: int| 0 <= k < open.len() ==> (#[trigger] open[k]).0 < tree.len(),
        all_paths_acyclic(tree, open),
        0 <= ti < tree.len(),
        entry.0 == ti,
        1 <= length,
        1 <= path.1 <= length + 1,
        path.0 == tree.len(),
        path_points(tree, ti, length).no_duplicates(),
        !path_points(tree, ti, length).contains(entry.1),
    ensures
        all_paths_acyclic(tree.push(entry), open.push(path)),
{
    let t2 = tree.push(entry);
    let o2 = open.push(path);
    assert forall|k: int| 0 <= k < o2.len() implies (#[trigger] path_points(t2, o2[k].0 as int, o2[k].1 as nat)).no_duplicates() by {
        if k < open.len() {
            assert(o2[k] == open[k]);
            lemma_points_push(tree, entry, open[k].0 as int, open[k].1 as nat);
        } else {
            assert(o2[k] == path);
            assert(t2[tree.len() as int] == entry);
            let rest = path_points(t2, ti, (path.1 - 1) as nat);
            lemma_points_push(tree, entry, ti, (path.1 - 1) as nat);
            lemma_points_shorter(tree, ti, (path.1 - 1) as nat, length);
            let whole = path_points(tree, ti, length);
            lemma_points_len(tree, ti, length);
            lemma_points_len(t2, ti, (path.1 - 1) as nat);
            lemma_points_len(t2, tree.len() as int, path.1 as nat);
            assert(rest == whole.subrange(0, path.1 - 1));
            let pts = path_points(t2, tree.len() as int, path.1 as nat);
            assert(pts == seq![entry.1].add(rest));
            assert forall|a: int, b: int| 0 <= a < b < pts.len() implies pts[a] != pts[b] by {
                if a == 0 {
                    assert(pts[b] == rest[b - 1]);
                    assert(rest[b - 1] == whole[b - 1]);
                } else {
                    assert(pts[a] == whole[a - 1]);
                    assert(pts[b] == whole[b - 1]);
                }
            }
        }
    }
}

/// The search modes of a searching tree: which new endpoints are skipped.
pub enum SearchMode {
    /// Only fields that are not yet in the tree.
    NewFieldsOnly,
    /// Only fields that are not yet on the path.
    NoCycles,
    /// Any fields.
    AnyFields,
}

/// A tree of paths over the fields of a board, grown from root fields; the
/// open paths are the ones that a search extends.
pub struct SearchingTree<'a, M: IndexMap<Item = ()>, B: Board<Index = M::IndexType>> {
    base_set: SetWrapper<M>,
    tree: Vec<(usize, B::Index)>,
    open_paths: Vec<(usize, usize)>,
    board: &'a B,
}

impl<'a, M: IndexMap<Item = ()>, B: Board<Index = M::IndexType>> SearchingTree<'a, M, B> {
    pub closed spec fn spec_board(&self) -> &'a B {
        self.board
    }

    /// The entries of the tree: the parent's position and the index.
    pub closed spec fn spec_tree(&self) -> Seq<(usize, B::Index)> {
        self.tree@
    }

    /// The open paths: the position of the endpoint and the number of points.
    pub closed spec fn spec_open_paths(&self) -> Seq<(usize, usize)> {
        self.open_paths@
    }

    /// The distinct indices in the tree, in the order of their insertion.
    pub closed spec fn spec_fields(&self) -> Seq<B::Index> {
        self.base_set.spec_indices()
    }

    /// The index is in the tree.
    pub closed spec fn spec_contains(&self, i: B::Index) -> bool {
        self.base_set.spec_contains(i)
    }

    pub open spec fn wf(&self) -> bool {
        &&& parents_ok(self.spec_tree())
        &&& forall|k: int| 0 <= k < self.spec_tree().len() ==> self.spec_board().spec_get(
            #[trigger] self.spec_tree()[k].1,
        ) is Some
        &&& forall|k: int| 0 <= k < self.spec_tree().len() ==> self.spec_contains(#[trigger] self.spec_tree()[k].1)
        &&& forall|k: int| 0 <= k < self.spec_open_paths().len() ==> path_ok(
            self.spec_tree(),
            #[trigger] self.spec_open_paths()[k],
        )
    }

    /// The entries after those of an earlier tree have indices that were not
    /// in the earlier tree, and no two of them have the same index.
    pub open spec fn adds_only_new_fields(&self, earlier: Self) -> bool {
        forall|a: int|
            earlier.spec_tree().len() <= a < self.spec_tree().len() ==> !earlier.spec_contains(
                #[trigger] self.spec_tree()[a].1,
            ) && (forall|b: int| a < b < self.spec_tree().len() ==> self.spec_tree()[a].1 != #[trigger] self.spec_tree()[b].1)
    }

    /// For each index of `y`, yielded for the open path `path` after the
    /// indices `seen` were yielded for the open paths before it, whether
    /// extending this tree in the mode adds an entry for it: with
    /// `NewFieldsOnly` when it is neither in the tree nor yielded before,
    /// with `NoCycles` when it is not on the path, with `AnyFields` always.
    pub open spec fn spec_adds(&self, mode: SearchMode, path: (usize, usize), seen: Seq<B::Index>, y: Seq<B::Index>) -> Seq<
        bool,
    > {
        Seq::new(
            y.len(),
            |k: int|
                match mode {
                    SearchMode::NewFieldsOnly => !self.spec_contains(y[k]) && !(seen + y.take(k)).contains(y[k]),
                    SearchMode::NoCycles => !path_points(self.spec_tree(), path.0 as int, path.1 as nat).contains(y[k]),
                    SearchMode::AnyFields => true,
                },
        )
    }

    /// For each open path in turn, the entries that extending it by the
    /// indices `ks[q]` adds.
    pub open spec fn spec_added_entries(&self, ks: Seq<Seq<B::Index>>) -> Seq<Seq<(usize, B::Index)>> {
        Seq::new(
            ks.len(),
            |q: int| entries_for(self.spec_tree(), self.spec_open_paths()[q], ks[q]),
        )
    }

    /// For each open path in turn, the numbers of points of the open paths
    /// that extending it by the indices `ks[q]` gives.
    pub open spec fn spec_added_lengths(&self, ks: Seq<Seq<B::Index>>) -> Seq<Seq<usize>> {
        Seq::new(
            ks.len(),
            |q: int| lengths_for(self.spec_tree(), self.spec_open_paths()[q], ks[q]),
        )
    }

    /// `after` is this tree extended in the mode, where `ys` holds what was
    /// yielded for each open path in turn: the entries that follow those of
    /// this tree are, path by path (`ks`), the yielded indices that the mode
    /// adds, each linked to its path as `path_entry` says, and each of them
    /// ends a new open path with the number of points that `path_length`
    /// gives.
    pub open spec fn spec_extended(&self, after: Self, mode: SearchMode, ys: Seq<Seq<B::Index>>, ks: Seq<Seq<B::Index>>) -> bool {
        &&& ks.len() == ys.len()
        &&& indices_from(after.spec_tree(), self.spec_tree().len() as int) == ks.flatten()
        &&& after.spec_tree().subrange(self.spec_tree().len() as int, after.spec_tree().len() as int)
            == self.spec_added_entries(ks).flatten()
        &&& open_lengths(after.spec_open_paths()) == self.spec_added_lengths(ks).flatten()
        &&& forall|q: int|
            0 <= q < ks.len() ==> #[trigger] ks[q] == kept_of(
                ys[q],
                self.spec_adds(mode, self.spec_open_paths()[q], ys.take(q).flatten(), ys[q]),
            )
    }

    /// Extending in `AnyFields` mode adds every yielded index: path by path
    /// the added indices are exactly those yielded for the path.
    pub proof fn lemma_any_fields_keeps_all(&self, after: Self, ys: Seq<Seq<B::Index>>, ks: Seq<Seq<B::Index>>)
        requires
            self.spec_extended(after, SearchMode::AnyFields, ys, ks),
        ensures
            ks == ys,
            indices_from(after.spec_tree(), self.spec_tree().len() as int) == ys.flatten(),
    {
        assert forall|q: int| 0 <= q < ks.len() implies ks[q] == ys[q] by {
            let fl = self.spec_adds(SearchMode::AnyFields, self.spec_open_paths()[q], ys.take(q).flatten(), ys[q]);
            assert(ks[q] == kept_of(ys[q], fl));
            lemma_kept_all(ys[q], fl);
        }
        assert(ks =~= ys);
    }

    /// An empty tree over the board.
    pub fn new(board: &'a B) -> (r: Self)
        where
            B: BoardToMap<(), Map = M>,
        ensures
            r.wf(),
            r.spec_board() == board,
            r.spec_tree().len() == 0,
            r.spec_open_paths().len() == 0,
            forall|j: B::Index| !r.spec_contains(j),
    {
        let map = board.get_index_map();
        let base_set = SetWrapper::from_map(map);
        assert(forall|j: B::Index| !base_set.spec_contains(j));
        Self { base_set, tree: Vec::new(), open_paths: Vec::new(), board }
    }

    /// The number of distinct fields in the tree.
    pub fn num_fields(&self) -> (r: usize)
        ensures
            r == self.spec_fields().len(),
    {
        self.base_set.size()
    }

    pub fn num_active_paths(&self) -> (r: usize)
        ensures
            r == self.spec_open_paths().len(),
    {
        self.open_paths.len()
    }

    pub fn board(&self) -> (r: &'a B)
        ensures
            r == self.spec_board(),
    {
        self.board
    }

    pub fn contains(&self, el: B::Index) -> (r: bool)
        ensures
            r == self.spec_contains(el),
    {
        self.base_set.contains(el)
    }

    /// The open paths.
    pub fn iter_paths<'b>(&'b self) -> (r: Vec<Path<'b, M, B>>)
        requires
            self.wf(),
        ensures
            r@.len() == self.spec_open_paths().len(),
            forall|k: int| 0 <= k < r@.len() ==> (#[trigger] r@[k]).searching_tree == self && r@[k].tree_index
                == self.spec_open_paths()[k].0 && r@[k].length == self.spec_open_paths()[k].1 && r@[k].wf(),
    {
        let mut result: Vec<Path<'b, M, B>> = Vec::new();
        let mut k: usize = 0;
        while k < self.open_paths.len()
            invariant
                self.wf(),
                k <= self.open_paths@.len(),
                result@.len() == k,
                forall|a: int| 0 <= a < k ==> (#[trigger] result@[a]).searching_tree == self && result@[a].tree_index
                    == self.spec_open_paths()[a].0 && result@[a].length == self.spec_open_paths()[a].1
                    && result@[a].wf(),
            decreases self.open_paths@.len() - k,
        {
            let (tree_index, length) = self.open_paths[k];
            assert(path_ok(self.spec_tree(), self.spec_open_paths()[k as int]));
            result.push(Path { tree_index, length, searching_tree: self });
            k += 1;
        }
        result
    }

    /// Adds a root at the index, which must be on the board, with an open
    /// path of one point.
    pub fn insert_root(&mut self, el: B::Index)
        requires
            old(self).wf(),
            old(self).spec_board().spec_get(el) is Some,
        ensures
            final(self).wf(),
            final(self).spec_board() == old(self).spec_board(),
            final(self).spec_tree() == old(self).spec_tree().push((final(self).spec_tree().last().0, el)),
            final(self).spec_tree().last().0 == old(self).spec_tree().len(),
            final(self).spec_open_paths() == old(self).spec_open_paths().push(
                (final(self).spec_open_paths().last().0, 1usize),
            ),
            final(self).spec_open_paths().last().0 == old(self).spec_tree().len(),
            final(self).spec_contains(el),
            forall|j: B::Index| old(self).spec_contains(j) ==> #[trigger] final(self).spec_contains(j),
    {
        let parent = self.tree.len();
        self.insert_new_endpoint(el, parent, 1);
    }

    /// Appends an entry with an open path of `length` points ending at it.
    fn insert_new_endpoint(&mut self, i: B::Index, parent: usize, length: usize)
        requires
            old(self).wf(),
            old(self).spec_board().spec_get(i) is Some,
            parent <= old(self).spec_tree().len(),
            1 <= length,
            parent == old(self).spec_tree().len() ==> length == 1,
            parent < old(self).spec_tree().len() ==> length <= 1 + tree_depth(old(self).spec_tree(), parent as int),
        ensures
            final(self).wf(),
            final(self).spec_board() == old(self).spec_board(),
            final(self).spec_tree() == old(self).spec_tree().push((parent, i)),
            final(self).spec_open_paths() == old(self).spec_open_paths().push(
                (final(self).spec_open_paths().last().0, length),
            ),
            final(self).spec_open_paths().last().0 == old(self).spec_tree().len(),
            final(self).spec_contains(i),
            forall|j: B::Index| #[trigger] final(self).spec_contains(j) == (old(self).spec_contains(j) || j == i),
    {
        let tree_index = self.tree.len();
        let ghost old_tree = self.tree@;
        self.base_set.insert(i);
        self.tree.push((parent, i));
        self.open_paths.push((tree_index, length));
        proof {
            let t = self.tree@;
            assert(t == old_tree.push((parent, i)));
            assert forall|k: int| 0 <= k < old_tree.len() implies tree_depth(t, k) == tree_depth(old_tree, k) by {
                lemma_depth_push(old_tree, (parent, i), k);
            }
            assert forall|k: int| 0 <= k < self.open_paths@.len() implies path_ok(
                t,
                #[trigger] self.open_paths@[k],
            ) by {
                if k < self.open_paths@.len() - 1 {
                    assert(self.open_paths@[k] == old(self).spec_open_paths()[k]);
                    assert(path_ok(old_tree, old(self).spec_open_paths()[k]));
                    lemma_depth_push(old_tree, (parent, i), self.open_paths@[k].0 as int);
                } else {
                    if parent < tree_index {
                        lemma_depth_push(old_tree, (parent, i), parent as int);
                    }
                }
            }
            assert forall|k: int| 0 <= k < t.len() implies self.spec_contains(#[trigger] t[k].1) by {
                if k < old_tree.len() {
                    assert(old(self).spec_contains(old_tree[k].1));
                }
            }
        }
    }

    /// Extends each open path by the indices that `map_fields` yields for the
    /// tree and the path; an index equal to the endpoint moves the endpoint.
    /// Returns whether any index was yielded.
    pub fn extend_with<F>(&mut self, map_fields: F) -> (r: bool)
        where
            F: Fn(&Self, Path<'_, M, B>) -> FieldSearchResult<B::Index>,
        requires
            old(self).wf(),
            forall|s: &Self, p: Path<'_, M, B>| #[trigger] map_fields.requires((s, p)),
            forall|s: &Self, p: Path<'_, M, B>, res: FieldSearchResult<B::Index>| #[trigger] map_fields.ensures(
                (s, p),
                res,
            ) ==> on_board(s.spec_board(), res.spec_data()),
        ensures
            final(self).wf(),
            final(self).spec_board() == old(self).spec_board(),
            final(self).spec_tree().subrange(0, old(self).spec_tree().len() as int) == old(self).spec_tree(),
            final(self).spec_open_paths().len() == final(self).spec_tree().len() - old(self).spec_tree().len(),
            forall|k: int| 0 <= k < final(self).spec_open_paths().len() ==> (#[trigger] final(self).spec_open_paths()[k]).0
                == old(self).spec_tree().len() + k,
            forall|j: B::Index| old(self).spec_contains(j) ==> #[trigger] final(self).spec_contains(j),
            r == (final(self).spec_tree().len() > old(self).spec_tree().len()),
    {
        let mut old_paths: Vec<(usize, usize)> = Vec::new();
        std::mem::swap(&mut old_paths, &mut self.open_paths);
        let old_len = self.tree.len();
        let ghost old_tree = self.tree@;
        let ghost start = *old(self);
        assert forall|k: int| 0 <= k < old_paths@.len() implies path_ok(old_tree, #[trigger] old_paths@[k]) by {
            assert(old_paths@[k] == start.spec_open_paths()[k]);
        }
        let mut p: usize = 0;
        while p < old_paths.len()
            invariant
                self.wf(),
                self.spec_board() == start.spec_board(),
                forall|k: int| 0 <= k < old_paths@.len() ==> path_ok(old_tree, #[trigger] old_paths@[k]),
                parents_ok(old_tree),
                old_tree == start.spec_tree(),
                self.spec_tree().len() >= old_tree.len(),
                self.spec_tree().subrange(0, old_tree.len() as int) == old_tree,
                self.spec_open_paths().len() == self.spec_tree().len() - old_tree.len(),
                forall|k: int| 0 <= k < self.spec_open_paths().len() ==> (#[trigger] self.spec_open_paths()[k]).0
                    == old_tree.len() + k,
                forall|j: B::Index| start.spec_contains(j) ==> #[trigger] self.spec_contains(j),
                p <= old_paths@.len(),
                forall|s: &Self, q: Path<'_, M, B>| #[trigger] map_fields.requires((s, q)),
                forall|s: &Self, q: Path<'_, M, B>, res: FieldSearchResult<B::Index>| #[trigger] map_fields.ensures(
                    (s, q),
                    res,
                ) ==> on_board(s.spec_board(), res.spec_data()),
            decreases old_paths@.len() - p,
        {
            let (tree_index, length) = old_paths[p];
            assert(path_ok(old_tree, old_paths@[p as int]));
            assert(self.spec_tree()[tree_index as int] == old_tree[tree_index as int]);
            let (parent_of_end, old_idx) = self.tree[tree_index];
            let new_indices = {
                let path = Path { tree_index, length, searching_tree: &*self };
                map_fields(&*self, path)
            };
            let data = new_indices.data();
            let mut k: usize = 0;
            while k < data.len()
                invariant
                    self.wf(),
                    self.spec_board() == start.spec_board(),
                    on_board(start.spec_board(), data@),
                    parents_ok(old_tree),
                    tree_index < old_tree.len(),
                    1 <= length <= tree_depth(old_tree, tree_index as int),
                    old_tree[tree_index as int] == (parent_of_end, old_idx),
                    self.spec_tree().len() >= old_tree.len(),
                    self.spec_tree().subrange(0, old_tree.len() as int) == old_tree,
                    self.spec_open_paths().len() == self.spec_tree().len() - old_tree.len(),
                    forall|a: int| 0 <= a < self.spec_open_paths().len() ==> (#[trigger] self.spec_open_paths()[a]).0
                        == old_tree.len() + a,
                    forall|j: B::Index| start.spec_contains(j) ==> #[trigger] self.spec_contains(j),
                    k <= data@.len(),
                decreases data@.len() - k,
            {
                let i = data[k];
                self.add_endpoint(i, tree_index, parent_of_end, old_idx, length, Ghost(old_tree));
                k += 1;
            }
            p += 1;
        }
        self.tree.len() > old_len
    }

    /// Extends each open path by the indices that `map_fields` yields for its
    /// endpoint, skipping those that the mode excludes: with `NewFieldsOnly`
    /// an index already in the tree, with `NoCycles` an index already on the
    /// path; with `AnyFields` every yielded index gets an entry, path by
    /// path in order.  Returns whether an index was added.
    pub fn extend<F>(&mut self, map_fields: F, mode: SearchMode) -> (r: bool)
        where
            F: Fn(Field<'a, B>) -> FieldSearchResult<B::Index>,
        requires
            old(self).wf(),
            forall|f: Field<'a, B>| #[trigger] map_fields.requires((f,)),
            forall|f: Field<'a, B>, res: FieldSearchResult<B::Index>| #[trigger] map_fields.ensures((f,), res) ==> on_board(
                f.spec_board(),
                res.spec_data(),
            ),
        ensures
            final(self).wf(),
            final(self).spec_board() == old(self).spec_board(),
            final(self).spec_tree().subrange(0, old(self).spec_tree().len() as int) == old(self).spec_tree(),
            final(self).spec_open_paths().len() == final(self).spec_tree().len() - old(self).spec_tree().len(),
            forall|k: int| 0 <= k < final(self).spec_open_paths().len() ==> (#[trigger] final(self).spec_open_paths()[k]).0
                == old(self).spec_tree().len() + k,
            forall|j: B::Index| old(self).spec_contains(j) ==> #[trigger] final(self).spec_contains(j),
            r == (final(self).spec_tree().len() > old(self).spec_tree().len()),
            mode is NewFieldsOnly ==> final(self).adds_only_new_fields(*old(self)),
            mode is NoCycles && all_paths_acyclic(old(self).spec_tree(), old(self).spec_open_paths()) ==> all_paths_acyclic(
                final(self).spec_tree(),
                final(self).spec_open_paths(),
            ),
            mode is AnyFields ==> exists|ys: Seq<Seq<B::Index>>|
                #[trigger] yields_for_paths(
                    map_fields,
                    old(self).spec_board(),
                    old(self).spec_tree(),
                    old(self).spec_open_paths(),
                    ys,
                ) && indices_from(final(self).spec_tree(), old(self).spec_tree().len() as int) == ys.flatten(),
            exists|ys: Seq<Seq<B::Index>>, ks: Seq<Seq<B::Index>>|
                #[trigger] old(self).spec_extended(*final(self), mode, ys, ks) && yields_for_paths(
                    map_fields,
                    old(self).spec_board(),
                    old(self).spec_tree(),
                    old(self).spec_open_paths(),
                    ys,
                ),
    {
        self.extend_by_overlap(&map_fields, mode)
    }

    /// Adds the neighbors that satisfy the predicate to the open paths, as
    /// `extend` does; with `AnyFields` each open path gets an entry for each
    /// of them.
    pub fn grow<F>(&mut self, predicate: F, mode: SearchMode) -> (r: bool)
        where
            F: Fn(Field<'a, B>) -> bool,
            B::Structure: NeighborhoodStructure<B>,
        requires
            old(self).wf(),
            forall|f: Field<'a, B>| #[trigger] predicate.requires((f,)),
        ensures
            final(self).wf(),
            final(self).spec_board() == old(self).spec_board(),
            final(self).spec_tree().subrange(0, old(self).spec_tree().len() as int) == old(self).spec_tree(),
            final(self).spec_open_paths().len() == final(self).spec_tree().len() - old(self).spec_tree().len(),
            forall|j: B::Index| old(self).spec_contains(j) ==> #[trigger] final(self).spec_contains(j),
            r == (final(self).spec_tree().len() > old(self).spec_tree().len()),
            mode is NewFieldsOnly ==> final(self).adds_only_new_fields(*old(self)),
            mode is NoCycles && all_paths_acyclic(old(self).spec_tree(), old(self).spec_open_paths()) ==> all_paths_acyclic(
                final(self).spec_tree(),
                final(self).spec_open_paths(),
            ),
            mode is AnyFields ==> exists|ys: Seq<Seq<B::Index>>|
                #[trigger] matches_for_paths(
                    predicate,
                    old(self).spec_board(),
                    old(self).spec_tree(),
                    old(self).spec_open_paths(),
                    ys,
                ) && indices_from(final(self).spec_tree(), old(self).spec_tree().len() as int) == ys.flatten(),
            exists|ys: Seq<Seq<B::Index>>, ks: Seq<Seq<B::Index>>|
                #[trigger] old(self).spec_extended(*final(self), mode, ys, ks) && matches_for_paths(
                    predicate,
                    old(self).spec_board(),
                    old(self).spec_tree(),
                    old(self).spec_open_paths(),
                    ys,
                ),
    {
        let pred = &predicate;
        let map = |f: Field<'a, B>| -> (res: FieldSearchResult<B::Index>)
            requires
                forall|g: Field<'a, B>| #[trigger] pred.requires((g,)),
            ensures
                on_board(f.spec_board(), res.spec_data()),
                matching_at(*pred, f.spec_board(), f.spec_index(), res.spec_data()),
            { matching_neighbors(f, pred) };
        let r = self.extend_by_overlap(&map, mode);
        proof {
            if mode is AnyFields {
                let ys = choose|ys: Seq<Seq<B::Index>>|
                    #[trigger] yields_for_paths(
                        map,
                        old(self).spec_board(),
                        old(self).spec_tree(),
                        old(self).spec_open_paths(),
                        ys,
                    ) && indices_from(self.spec_tree(), old(self).spec_tree().len() as int) == ys.flatten();
                let open = old(self).spec_open_paths();
                let tree = old(self).spec_tree();
                assert forall|p: int| 0 <= p < open.len() implies #[trigger] matching_at(
                    predicate,
                    old(self).spec_board(),
                    tree[open[p].0 as int].1,
                    ys[p],
                ) by {
                    assert(yields_at(map, old(self).spec_board(), tree[open[p].0 as int].1, ys[p]));
                }
                assert(matches_for_paths(predicate, old(self).spec_board(), tree, open, ys));
            }
            let (ys, ks) = choose|ys: Seq<Seq<B::Index>>, ks: Seq<Seq<B::Index>>|
                #[trigger] old(self).spec_extended(*self, mode, ys, ks) && yields_for_paths(
                    map,
                    old(self).spec_board(),
                    old(self).spec_tree(),
                    old(self).spec_open_paths(),
                    ys,
                );
            let open = old(self).spec_open_paths();
            let tree = old(self).spec_tree();
            assert forall|p: int| 0 <= p < open.len() implies #[trigger] matching_at(
                predicate,
                old(self).spec_board(),
                tree[open[p].0 as int].1,
                ys[p],
            ) by {
                assert(yields_at(map, old(self).spec_board(), tree[open[p].0 as int].1, ys[p]));
            }
            assert(matches_for_paths(predicate, old(self).spec_board(), tree, open, ys));
            assert(old(self).spec_extended(*self, mode, ys, ks));
        }
        r
    }

    fn extend_by_overlap<F>(&mut self, map_fields: &F, mode: SearchMode) -> (r: bool)
        where
            F: Fn(Field<'a, B>) -> FieldSearchResult<B::Index>,
        requires
            old(self).wf(),
            forall|f: Field<'a, B>| #[trigger] map_fields.requires((f,)),
            forall|f: Field<'a, B>, res: FieldSearchResult<B::Index>| #[trigger] map_fields.ensures((f,), res) ==> on_board(
                f.spec_board(),
                res.spec_data(),
            ),
        ensures
            final(self).wf(),
            final(self).spec_board() == old(self).spec_board(),
            final(self).spec_tree().subrange(0, old(self).spec_tree().len() as int) == old(self).spec_tree(),
            final(self).spec_open_paths().len() == final(self).spec_tree().len() - old(self).spec_tree().len(),
            forall|k: int| 0 <= k < final(self).spec_open_paths().len() ==> (#[trigger] final(self).spec_open_paths()[k]).0
                == old(self).spec_tree().len() + k,
            forall|j: B::Index| old(self).spec_contains(j) ==> #[trigger] final(self).spec_contains(j),
            r == (final(self).spec_tree().len() > old(self).spec_tree().len()),
            mode is NewFieldsOnly ==> final(self).adds_only_new_fields(*old(self)),
            mode is NoCycles && all_paths_acyclic(old(self).spec_tree(), old(self).spec_open_paths()) ==> all_paths_acyclic(
                final(self).spec_tree(),
                final(self).spec_open_paths(),
            ),
            mode is AnyFields ==> exists|ys: Seq<Seq<B::Index>>|
                #[trigger] yields_for_paths(
                    *map_fields,
                    old(self).spec_board(),
                    old(self).spec_tree(),
                    old(self).spec_open_paths(),
                    ys,
                ) && indices_from(final(self).spec_tree(), old(self).spec_tree().len() as int) == ys.flatten(),
            exists|ys: Seq<Seq<B::Index>>, ks: Seq<Seq<B::Index>>|
                #[trigger] old(self).spec_extended(*final(self), mode, ys, ks) && yields_for_paths(
                    *map_fields,
                    old(self).spec_board(),
                    old(self).spec_tree(),
                    old(self).spec_open_paths(),
                    ys,
                ),
    {
        let mut old_paths: Vec<(usize, usize)> = Vec::new();
        std::mem::swap(&mut old_paths, &mut self.open_paths);
        let old_len = self.tree.len();
        let ghost old_tree = self.tree@;
        let ghost start = *old(self);
        let ghost acyclic = all_paths_acyclic(old_tree, old_paths@);
        assert forall|k: int| 0 <= k < old_paths@.len() implies path_ok(old_tree, #[trigger] old_paths@[k]) by {
            assert(old_paths@[k] == start.spec_open_paths()[k]);
        }
        let ghost mut ys: Seq<Seq<B::Index>> = Seq::empty();
        let ghost mut ks: Seq<Seq<B::Index>> = Seq::empty();
        assert(indices_from(self.spec_tree(), old_tree.len() as int) =~= ys.flatten());
        assert(indices_from(self.spec_tree(), old_tree.len() as int) =~= Seq::<B::Index>::empty());
        assert(ks.flatten() =~= Seq::<B::Index>::empty());
        assert(start.spec_added_entries(ks).flatten() =~= Seq::<(usize, B::Index)>::empty());
        assert(start.spec_added_lengths(ks).flatten() =~= Seq::<usize>::empty());
        assert(self.spec_tree().subrange(old_tree.len() as int, self.spec_tree().len() as int) =~= Seq::<
            (usize, B::Index),
        >::empty());
        assert(open_lengths(self.spec_open_paths()) =~= Seq::<usize>::empty());
        let mut p: usize = 0;
        while p < old_paths.len()
            invariant
                yields_for_paths(*map_fields, start.spec_board(), old_tree, old_paths@.take(p as int), ys),
                mode is AnyFields ==> indices_from(self.spec_tree(), old_tree.len() as int) == ys.flatten(),
                ks.len() == p,
                indices_from(self.spec_tree(), old_tree.len() as int) == ks.flatten(),
                self.spec_tree().subrange(old_tree.len() as int, self.spec_tree().len() as int)
                    == start.spec_added_entries(ks).flatten(),
                open_lengths(self.spec_open_paths()) == start.spec_added_lengths(ks).flatten(),
                forall|q: int|
                    0 <= q < p ==> #[trigger] ks[q] == kept_of(
                        ys[q],
                        start.spec_adds(mode, old_paths@[q], ys.take(q).flatten(), ys[q]),
                    ),
                forall|j: B::Index| #[trigger] self.spec_contains(j) == (start.spec_contains(j) || indices_from(
                    self.spec_tree(),
                    old_tree.len() as int,
                ).contains(j)),
                mode is NewFieldsOnly ==> forall|j: B::Index| (start.spec_contains(j) || #[trigger] indices_from(
                    self.spec_tree(),
                    old_tree.len() as int,
                ).contains(j)) == (start.spec_contains(j) || ys.flatten().contains(j)),
                self.wf(),
                self.spec_board() == start.spec_board(),
                forall|k: int| 0 <= k < old_paths@.len() ==> path_ok(old_tree, #[trigger] old_paths@[k]),
                acyclic == all_paths_acyclic(old_tree, old_paths@),
                old_paths@ == start.spec_open_paths(),
                parents_ok(old_tree),
                old_tree == start.spec_tree(),
                self.spec_tree().len() >= old_tree.len(),
                self.spec_tree().subrange(0, old_tree.len() as int) == old_tree,
                self.spec_open_paths().len() == self.spec_tree().len() - old_tree.len(),
                forall|k: int| 0 <= k < self.spec_open_paths().len() ==> (#[trigger] self.spec_open_paths()[k]).0
                    == old_tree.len() + k,
                forall|j: B::Index| start.spec_contains(j) ==> #[trigger] self.spec_contains(j),
                mode is NewFieldsOnly ==> self.adds_only_new_fields(start),
                mode is NoCycles && acyclic ==> all_paths_acyclic(self.spec_tree(), self.spec_open_paths()),
                p <= old_paths@.len(),
                forall|f: Field<'a, B>| #[trigger] map_fields.requires((f,)),
                forall|f: Field<'a, B>, res: FieldSearchResult<B::Index>| #[trigger] map_fields.ensures((f,), res) ==> on_board(
                    f.spec_board(),
                    res.spec_data(),
                ),
            decreases old_paths@.len() - p,
        {
            let (tree_index, length) = old_paths[p];
            assert(path_ok(old_tree, old_paths@[p as int]));
            assert(self.spec_tree()[tree_index as int] == old_tree[tree_index as int]);
            proof {
                lemma_depth_prefix(self.spec_tree(), old_tree, tree_index as int);
                lemma_points_prefix(self.spec_tree(), old_tree, tree_index as int, length as nat);
                if acyclic {
                    assert(path_points(old_tree, old_paths@[p as int].0 as int, old_paths@[p as int].1 as nat).no_duplicates());
                }
            }
            let (parent_of_end, old_idx) = self.tree[tree_index];
            assert(self.spec_board().spec_get(self.spec_tree()[tree_index as int].1) is Some);
            let field = match Field::new(self.board, old_idx) {
                Some(f) => f,
                None => vstd::pervasive::unreached(),
            };
            let new_indices = map_fields(field);
            let data = new_indices.data();
            assert(yields_at(*map_fields, start.spec_board(), old_idx, data@));
            let ghost mut cur: Seq<B::Index> = Seq::empty();
            proof {
                assert(ks.flatten() + cur =~= ks.flatten());
                assert(start.spec_added_entries(ks).flatten() + entries_for(old_tree, (tree_index, length), cur)
                    =~= start.spec_added_entries(ks).flatten());
                assert(start.spec_added_lengths(ks).flatten() + lengths_for(old_tree, (tree_index, length), cur)
                    =~= start.spec_added_lengths(ks).flatten());
                assert(ys.flatten() + data@.take(0) =~= ys.flatten());
                assert(data@.take(0).len() == 0);
            }
            let mut k: usize = 0;
            while k < data.len()
                invariant
                    yields_for_paths(*map_fields, start.spec_board(), old_tree, old_paths@.take(p as int), ys),
                    ks.len() == p,
                    forall|q: int|
                        0 <= q < p ==> #[trigger] ks[q] == kept_of(
                            ys[q],
                            start.spec_adds(mode, old_paths@[q], ys.take(q).flatten(), ys[q]),
                        ),
                    indices_from(self.spec_tree(), old_tree.len() as int) == ks.flatten() + cur,
                    self.spec_tree().subrange(old_tree.len() as int, self.spec_tree().len() as int)
                        == start.spec_added_entries(ks).flatten() + entries_for(old_tree, (tree_index, length), cur),
                    open_lengths(self.spec_open_paths()) == start.spec_added_lengths(ks).flatten() + lengths_for(
                        old_tree,
                        (tree_index, length),
                        cur,
                    ),
                    cur == kept_of(
                        data@.take(k as int),
                        start.spec_adds(mode, (tree_index, length), ys.flatten(), data@.take(k as int)),
                    ),
                    forall|j: B::Index| #[trigger] self.spec_contains(j) == (start.spec_contains(j) || indices_from(
                        self.spec_tree(),
                        old_tree.len() as int,
                    ).contains(j)),
                    mode is NewFieldsOnly ==> forall|j: B::Index| (start.spec_contains(j) || #[trigger] indices_from(
                        self.spec_tree(),
                        old_tree.len() as int,
                    ).contains(j)) == (start.spec_contains(j) || (ys.flatten() + data@.take(k as int)).contains(j)),
                    mode is AnyFields ==> indices_from(self.spec_tree(), old_tree.len() as int) == ys.flatten()
                        + data@.take(k as int),
                    yields_at(*map_fields, start.spec_board(), old_idx, data@),
                    old_paths@[p as int] == (tree_index, length),
                    p < old_paths@.len(),
                    self.wf(),
                    self.spec_board() == start.spec_board(),
                    on_board(start.spec_board(), data@),
                    parents_ok(old_tree),
                    tree_index < old_tree.len(),
                    1 <= length <= tree_depth(old_tree, tree_index as int),
                    old_tree[tree_index as int] == (parent_of_end, old_idx),
                    self.spec_tree().len() >= old_tree.len(),
                    self.spec_tree().subrange(0, old_tree.len() as int) == old_tree,
                    self.spec_open_paths().len() == self.spec_tree().len() - old_tree.len(),
                    forall|a: int| 0 <= a < self.spec_open_paths().len() ==> (#[trigger] self.spec_open_paths()[a]).0
                        == old_tree.len() + a,
                    forall|j: B::Index| start.spec_contains(j) ==> #[trigger] self.spec_contains(j),
                    mode is NewFieldsOnly ==> self.adds_only_new_fields(start),
                    mode is NoCycles && acyclic ==> all_paths_acyclic(self.spec_tree(), self.spec_open_paths()),
                    mode is NoCycles && acyclic ==> path_points(old_tree, tree_index as int, length as nat).no_duplicates(),
                    old_tree == start.spec_tree(),
                    k <= data@.len(),
                decreases data@.len() - k,
            {
                let i = data[k];
                let ghost before_step = *self;
                let ghost sk = data@.take(k as int + 1);
                proof {
                    lemma_points_prefix(self.spec_tree(), old_tree, tree_index as int, length as nat);
                }
                let overlap = match mode {
                    SearchMode::NewFieldsOnly => self.contains(i),
                    SearchMode::NoCycles => {
                        proof {
                            lemma_depth_prefix(self.spec_tree(), old_tree, tree_index as int);
                        }
                        Path::new(tree_index, length, &*self).contains(i)
                    },
                    SearchMode::AnyFields => false,
                };
                proof {
                    let fl = start.spec_adds(mode, (tree_index, length), ys.flatten(), sk);
                    let fl0 = start.spec_adds(mode, (tree_index, length), ys.flatten(), data@.take(k as int));
                    assert(sk.drop_last() =~= data@.take(k as int));
                    assert forall|j: int| 0 <= j < k implies sk.take(j) =~= data@.take(k as int).take(j) by {}
                    assert(fl.drop_last() =~= fl0);
                    assert(sk.take(k as int) =~= data@.take(k as int));
                    assert(sk.last() == i);
                    assert(fl.last() == !overlap);
                    lemma_push_contains(ys.flatten() + data@.take(k as int), i);
                    assert(ys.flatten() + sk =~= (ys.flatten() + data@.take(k as int)).push(i));
                }
                if !overlap {
                    let ghost before = *self;
                    proof {
                        lemma_indices_push(
                            self.spec_tree(),
                            old_tree.len() as int,
                            (if i == old_idx { parent_of_end } else { tree_index }, i),
                        );
                        assert(data@.take(k as int).push(i) =~= data@.take(k as int + 1));
                        lemma_points_prefix(self.spec_tree(), old_tree, tree_index as int, length as nat);
                        lemma_points_len(old_tree, tree_index as int, length as nat);
                    }
                    self.add_endpoint(i, tree_index, parent_of_end, old_idx, length, Ghost(old_tree));
                    proof {
                        lemma_push_contains(indices_from(before_step.spec_tree(), old_tree.len() as int), i);
                        assert(ks.flatten() + cur.push(i) =~= (ks.flatten() + cur).push(i));
                        let e = path_entry(old_tree, (tree_index, length), i);
                        let nl = path_length(old_tree, (tree_index, length), i);
                        let bt = before_step.spec_tree();
                        let st = self.spec_tree();
                        assert(st == bt.push(e));
                        assert(st.subrange(old_tree.len() as int, st.len() as int) =~= bt.subrange(
                            old_tree.len() as int,
                            bt.len() as int,
                        ).push(e));
                        assert(entries_for(old_tree, (tree_index, length), cur.push(i)) =~= entries_for(
                            old_tree,
                            (tree_index, length),
                            cur,
                        ).push(e));
                        assert(start.spec_added_entries(ks).flatten() + entries_for(old_tree, (tree_index, length), cur).push(e)
                            =~= (start.spec_added_entries(ks).flatten() + entries_for(old_tree, (tree_index, length), cur)).push(e));
                        assert(self.spec_open_paths().last().1 == nl);
                        assert(open_lengths(self.spec_open_paths()) =~= open_lengths(before_step.spec_open_paths()).push(nl));
                        assert(lengths_for(old_tree, (tree_index, length), cur.push(i)) =~= lengths_for(
                            old_tree,
                            (tree_index, length),
                            cur,
                        ).push(nl));
                        assert(start.spec_added_lengths(ks).flatten() + lengths_for(old_tree, (tree_index, length), cur).push(nl)
                            =~= (start.spec_added_lengths(ks).flatten() + lengths_for(old_tree, (tree_index, length), cur)).push(nl));
                        cur = cur.push(i);
                        if mode is NewFieldsOnly {
                            assert(!before.spec_contains(i));
                            assert(before.adds_only_new_fields(start));
                            assert(start.spec_tree() == old_tree);
                            let t = self.spec_tree();
                            assert forall|a: int| old_tree.len() <= a < t.len() implies !start.spec_contains(#[trigger] t[a].1)
                                && (forall|b: int| a < b < t.len() ==> t[a].1 != #[trigger] t[b].1) by {
                                let bt = before.spec_tree();
                                assert(t.len() == bt.len() + 1);
                                assert(t[t.len() - 1].1 == i);
                                if a < t.len() - 1 {
                                    assert(t[a] == bt[a]);
                                    assert(before.spec_contains(bt[a].1));
                                    assert(!start.spec_contains(bt[a].1));
                                    assert forall|b: int| a < b < t.len() implies t[a].1 != #[trigger] t[b].1 by {
                                        if b < t.len() - 1 {
                                            assert(t[b] == bt[b]);
                                            assert(bt[a].1 != bt[b].1);
                                        }
                                    }
                                } else {
                                    if start.spec_contains(i) {
                                        assert(before.spec_contains(i));
                                    }
                                }
                            }
                        }
                        if mode is NoCycles && acyclic {
                            assert(old_idx == path_points(old_tree, tree_index as int, length as nat)[0]);
                            assert(i != old_idx);
                            lemma_acyclic_push(
                                before.spec_tree(),
                                before.spec_open_paths(),
                                tree_index as int,
                                length as nat,
                                (tree_index, i),
                                self.spec_open_paths().last(),
                            );
                        }
                    }
                }
                k += 1;
            }
            proof {
                assert(data@.take(data@.len() as int) =~= data@);
                ys.lemma_flatten_push(data@);
                ks.lemma_flatten_push(cur);
                let ks2 = ks.push(cur);
                let ee = entries_for(old_tree, (tree_index, length), cur);
                let ll = lengths_for(old_tree, (tree_index, length), cur);
                assert(start.spec_added_entries(ks2) =~= start.spec_added_entries(ks).push(ee));
                assert(start.spec_added_lengths(ks2) =~= start.spec_added_lengths(ks).push(ll));
                start.spec_added_entries(ks).lemma_flatten_push(ee);
                start.spec_added_lengths(ks).lemma_flatten_push(ll);
                let ys3 = ys.push(data@);
                assert forall|q: int| 0 <= q < p + 1 implies #[trigger] ks2[q] == kept_of(
                    ys3[q],
                    start.spec_adds(mode, old_paths@[q], ys3.take(q).flatten(), ys3[q]),
                ) by {
                    if q < p {
                        assert(ys3.take(q) =~= ys.take(q));
                        assert(ks2[q] == ks[q]);
                    } else {
                        assert(ys3.take(q) =~= ys);
                    }
                }
                ks = ks2;
                let op = old_paths@.take(p as int + 1);
                assert forall|q: int| 0 <= q < op.len() implies #[trigger] yields_at(
                    *map_fields,
                    start.spec_board(),
                    old_tree[op[q].0 as int].1,
                    ys3[q],
                ) by {
                    if q < p {
                        assert(op[q] == old_paths@.take(p as int)[q]);
                        assert(ys3[q] == ys[q]);
                    }
                }
                ys = ys.push(data@);
            }
            p += 1;
        }
        assert(old_paths@.take(old_paths@.len() as int) =~= old_paths@);
        assert(start.spec_extended(*self, mode, ys, ks));
        self.tree.len() > old_len
    }

    /// Adds a new endpoint for the open path of `length` points that ends at
    /// entry `tree_index`: the index moves the endpoint when it equals the
    /// endpoint's index, else it extends the path.
    fn add_endpoint(
        &mut self,
        i: B::Index,
        tree_index: usize,
        parent_of_end: usize,
        old_idx: B::Index,
        length: usize,
        Ghost(old_tree): Ghost<Seq<(usize, B::Index)>>,
    )
        requires
            old(self).wf(),
            old(self).spec_board().spec_get(i) is Some,
            parents_ok(old_tree),
            tree_index < old_tree.len(),
            1 <= length <= tree_depth(old_tree, tree_index as int),
            old_tree[tree_index as int] == (parent_of_end, old_idx),
            old(self).spec_tree().len() >= old_tree.len(),
            old(self).spec_tree().subrange(0, old_tree.len() as int) == old_tree,
        ensures
            final(self).wf(),
            final(self).spec_board() == old(self).spec_board(),
            final(self).spec_tree() == old(self).spec_tree().push(
                (if i == old_idx { parent_of_end } else { tree_index }, i),
            ),
            final(self).spec_open_paths() == old(self).spec_open_paths().push(
                (
                    final(self).spec_open_paths().last().0,
                    if i == old_idx { length } else { length.saturating_add(1) },
                ),
            ),
            final(self).spec_open_paths().last().0 == old(self).spec_tree().len(),
            forall|j: B::Index| #[trigger] final(self).spec_contains(j) == (old(self).spec_contains(j) || j == i),
    {
        proof {
            lemma_depth_prefix(self.spec_tree(), old_tree, tree_index as int);
            if parent_of_end < tree_index {
                lemma_depth_prefix(self.spec_tree(), old_tree, parent_of_end as int);
            }
        }
        if i.index_eq(&old_idx) {
            self.insert_new_endpoint(i, parent_of_end, length);
        } else {
            self.insert_new_endpoint(i, tree_index, length.saturating_add(1));
        }
    }
}

/// A path in a searching tree: the position of its endpoint and the number of
/// its points, which lead from the endpoint towards the root.
pub struct Path<'a, M: IndexMap<Item = ()>, B: Board<Index = M::IndexType>> {
    pub tree_index: usize,
    pub length: usize,
    pub searching_tree: &'a SearchingTree<'a, M, B>,
}

impl<'a, M: IndexMap<Item = ()>, B: Board<Index = M::IndexType>> Path<'a, M, B> {
    /// The path ends at an entry of a well-formed tree and has no more points
    /// than lead from there to the root.
    pub open spec fn wf(&self) -> bool {
        &&& self.searching_tree.wf()
        &&& self.tree_index < self.searching_tree.spec_tree().len()
        &&& self.length <= tree_depth(self.searching_tree.spec_tree(), self.tree_index as int)
    }

    /// The number of points that the path visits: a path of no points still
    /// has its endpoint.
    pub open spec fn spec_visited_len(&self) -> nat {
        if self.length == 0 {
            1
        } else {
            self.length as nat
        }
    }

    /// The indices of the points, from the endpoint back to the start.
    pub open spec fn spec_points(&self) -> Seq<B::Index> {
        path_points(self.searching_tree.spec_tree(), self.tree_index as int, self.spec_visited_len())
    }

    pub fn len(&self) -> (r: usize)
        ensures
            r == self.length,
    {
        self.length
    }

    pub fn searching_tree(&self) -> (r: &'a SearchingTree<'a, M, B>)
        ensures
            r == self.searching_tree,
    {
        self.searching_tree
    }

    fn tree_values(&self) -> (r: (usize, B::Index))
        requires
            self.wf(),
        ensures
            r == self.searching_tree.spec_tree()[self.tree_index as int],
    {
        self.searching_tree.tree[self.tree_index]
    }

    fn new(tree_index: usize, length: usize, searching_tree: &'a SearchingTree<'a, M, B>) -> (r: Self)
        requires
            searching_tree.wf(),
            tree_index < searching_tree.spec_tree().len(),
            length <= tree_depth(searching_tree.spec_tree(), tree_index as int),
        ensures
            r.wf(),
            r.tree_index == tree_index,
            r.length == length,
            r.searching_tree == searching_tree,
    {
        Self { tree_index, length, searching_tree }
    }

    /// The field at the endpoint.
    pub fn endpoint(&self) -> (r: Field<'a, B>)
        requires
            self.wf(),
        ensures
            r.spec_board() == self.searching_tree.spec_board(),
            r.spec_index() == self.searching_tree.spec_tree()[self.tree_index as int].1,
            r.spec_index() == self.spec_points()[0],
    {
        let (_, index) = self.tree_values();
        let board = self.searching_tree.board;
        assert(board.spec_get(self.searching_tree.spec_tree()[self.tree_index as int].1) is Some);
        match Field::new(board, index) {
            Some(f) => f,
            None => vstd::pervasive::unreached(),
        }
    }

    /// The path without its endpoint, if it has more than one point.
    pub fn next_subpath(&self) -> (r: Option<Self>)
        requires
            self.wf(),
        ensures
            r is Some == (self.length > 1),
            r matches Some(p) ==> p.wf() && p.searching_tree == self.searching_tree && p.tree_index
                == self.searching_tree.spec_tree()[self.tree_index as int].0 && p.length == self.length - 1,
    {
        if self.length > 1 {
            let (parent, _) = self.tree_values();
            Some(Self::new(parent, self.length - 1, self.searching_tree))
        } else {
            None
        }
    }

    /// The path and its subpaths, each without the endpoint of the one
    /// before.
    pub fn iter_subpaths(&self) -> (r: Vec<Self>)
        requires
            self.wf(),
        ensures
            r@.len() == self.spec_visited_len(),
            forall|k: int| 0 <= k < r@.len() ==> (#[trigger] r@[k]).wf() && r@[k].searching_tree == self.searching_tree
                && r@[k].tree_index == ancestor(self.searching_tree.spec_tree(), self.tree_index as int, k as nat)
                && r@[k].length == (if self.length == 0 { 0 } else { self.length - k }),
    {
        let mut result: Vec<Self> = Vec::new();
        result.push(*self);
        let mut current = *self;
        while current.length > 1
            invariant
                self.wf(),
                current.wf(),
                current.searching_tree == self.searching_tree,
                result@.len() >= 1,
                self.length > 0 ==> result@.len() + current.length == self.length + 1,
                self.length == 0 ==> current.length == 0 && result@.len() == 1,
                self.length > 0 ==> current.length >= 1,
                current == result@[result@.len() - 1],
                forall|k: int| 0 <= k < result@.len() ==> (#[trigger] result@[k]).wf() && result@[k].searching_tree
                    == self.searching_tree && result@[k].tree_index == ancestor(
                    self.searching_tree.spec_tree(),
                    self.tree_index as int,
                    k as nat,
                ) && result@[k].length == (if self.length == 0 { 0 } else { self.length - k }),
            decreases current.length,
        {
            let ghost n = result@.len();
            proof {
                lemma_ancestor_step(self.searching_tree.spec_tree(), self.tree_index as int, (n - 1) as nat);
            }
            match current.next_subpath() {
                Some(p) => {
                    result.push(p);
                    current = p;
                },
                None => {
                    assert(false);
                },
            }
        }
        result
    }

    /// The fields of the points, from the endpoint back to the start.
    pub fn iter_points(&self) -> (r: Vec<Field<'a, B>>)
        requires
            self.wf(),
        ensures
            r@.len() == self.spec_visited_len(),
            forall|k: int| 0 <= k < r@.len() ==> (#[trigger] r@[k]).spec_board() == self.searching_tree.spec_board()
                && r@[k].spec_index() == self.spec_points()[k],
    {
        let subpaths = self.iter_subpaths();
        let mut result: Vec<Field<'a, B>> = Vec::new();
        let mut k: usize = 0;
        while k < subpaths.len()
            invariant
                self.wf(),
                subpaths@.len() == self.spec_visited_len(),
                forall|a: int| 0 <= a < subpaths@.len() ==> (#[trigger] subpaths@[a]).wf() && subpaths@[a].searching_tree
                    == self.searching_tree && subpaths@[a].tree_index == ancestor(
                    self.searching_tree.spec_tree(),
                    self.tree_index as int,
                    a as nat,
                ),
                k <= subpaths@.len(),
                result@.len() == k,
                forall|a: int| 0 <= a < k ==> (#[trigger] result@[a]).spec_board() == self.searching_tree.spec_board()
                    && result@[a].spec_index() == self.spec_points()[a],
            decreases subpaths@.len() - k,
        {
            let f = subpaths[k].endpoint();
            proof {
                lemma_points_ancestor(
                    self.searching_tree.spec_tree(),
                    self.tree_index as int,
                    self.spec_visited_len(),
                    k as nat,
                );
            }
            result.push(f);
            k += 1;
        }
        result
    }

    /// Whether a point of the path is at the index.
    pub fn contains(&self, el: B::Index) -> (r: bool)
        requires
            self.wf(),
        ensures
            r == self.spec_points().contains(el),
    {
        let points = self.iter_points();
        proof {
            lemma_points_len(self.searching_tree.spec_tree(), self.tree_index as int, self.spec_visited_len());
        }
        let mut k: usize = 0;
        while k < points.len()
            invariant
                points@.len() == self.spec_points().len(),
                forall|a: int| 0 <= a < points@.len() ==> (#[trigger] points@[a]).spec_index() == self.spec_points()[a],
                k <= points@.len(),
                forall|a: int| 0 <= a < k ==> self.spec_points()[a] != el,
            decreases points@.len() - k,
        {
            if points[k].index().index_eq(&el) {
                assert(self.spec_points()[k as int] == el);
                return true;
            }
            k += 1;
        }
        false
    }

    /// The part of the path from point `start` to point `end` (counted from
    /// the endpoint), if `end` is at most the length and the part has at
    /// least one point or starts at the endpoint.
    pub fn subpath(&self, start: usize, end: usize) -> (r: Option<Self>)
        requires
            self.wf(),
        ensures
            r is Some == (end <= self.length && (start == 0 || start < end)),
            r matches Some(p) ==> p.wf() && p.searching_tree == self.searching_tree && p.tree_index == ancestor(
                self.searching_tree.spec_tree(),
                self.tree_index as int,
                start as nat,
            ) && p.length == end - start,
    {
        if end > self.length {
            return None;
        }
        let mut path = Self::new(self.tree_index, end, self.searching_tree);
        let mut remaining = start;
        while remaining > 0
            invariant
                self.wf(),
                path.wf(),
                path.searching_tree == self.searching_tree,
                remaining <= start,
                end <= self.length,
                path.length == end - (start - remaining),
                path.tree_index == ancestor(self.searching_tree.spec_tree(), self.tree_index as int, (start - remaining) as nat),
                end > start - remaining || start == remaining,
            decreases remaining,
        {
            proof {
                lemma_ancestor_step(self.searching_tree.spec_tree(), self.tree_index as int, (start - remaining) as nat);
            }
            match path.next_subpath() {
                Some(p) => {
                    path = p;
                },
                None => {
                    return None;
                },
            }
            remaining -= 1;
        }
        Some(path)
    }
}

impl<'a, M: IndexMap<Item = ()>, B: Board<Index = M::IndexType>> Clone for Path<'a, M, B> {
    fn clone(&self) -> (r: Self)
        ensures
            r == *self,
    {
        *self
    }
}

impl<'a, M: IndexMap<Item = ()>, B: Board<Index = M::IndexType>> Copy for Path<'a, M, B> {
}

impl<'a, M: IndexMap<Item = ()>, B: Board<Index = M::IndexType>> PartialEq for Path<'a, M, B> {
    fn eq(&self, other: &Self) -> (r: bool) {
        self.tree_index == other.tree_index && self.length == other.length
    }
}

impl<'a, M: IndexMap<Item = ()>, B: Board<Index = M::IndexType>> vstd::std_specs::cmp::PartialEqSpecImpl for Path<'a, M, B> {
    open spec fn obeys_eq_spec() -> bool {
        true
    }

    open spec fn eq_spec(&self, other: &Self) -> bool {
        self.tree_index == other.tree_index && self.length == other.length
    }
}

proof fn lemma_ancestor_step<I>(tree: Seq<(usize, I)>, k: int, steps: nat)
    ensures
        ancestor(tree, k, steps + 1) == tree[ancestor(tree, k, steps)].0 as int,
    decreases steps,
{
    reveal_with_fuel(ancestor, 2);
    if steps > 0 {
        lemma_ancestor_step(tree, tree[k].0 as int, (steps - 1) as nat);
    }
}

proof fn lemma_points_ancestor<I>(tree: Seq<(usize, I)>, k: int, len: nat, a: nat)
    requires
        a < len,
    ensures
        path_points(tree, k, len)[a as int] == tree[ancestor(tree, k, a)].1,
    decreases a,
{
    lemma_points_len(tree, tree[k].0 as int, (len - 1) as nat);
    if a > 0 {
        lemma_points_ancestor(tree, tree[k].0 as int, (len - 1) as nat, (a - 1) as nat);
    }
}

impl<'a, B: BoardToMap<()>> Field<'a, B> {
    /// A searching tree with this field as its root.
    pub fn search_tree(self) -> (r: SearchingTree<'a, B::Map, B>)
        ensures
            r.wf(),
            r.spec_board() == self.spec_board(),
            r.spec_tree() == seq![(0usize, self.spec_index())],
            r.spec_open_paths() == seq![(0usize, 1usize)],
    {
        proof {
            use_type_invariant(&self);
        }
        let mut tree = SearchingTree::new(self.board());
        tree.insert_root(self.index());
        tree
    }
}

} // verus!
