use vstd::prelude::*;
use crate::ai::params::RatingType;
use crate::util::{sort_descending, sorted_desc, Rated};
use crate::ai::algorithm::{MinMaxError, RateAndMap};
use crate::game::trait_definitions::{Decision, GameData};
use crate::game::engine::{Engine, EventListener};

verus! {

broadcast use vstd::seq_lib::group_to_multiset_ensures;

/// Index of an option or of a move inside the rater.
pub type IndexType = u32;

/// Whether a decision is resolved into its follow-up decisions
/// (`HigherLevel`) or rated directly (`BottomLevel`).
#[derive(Debug, Clone, Copy, PartialEq, Eq)]
pub enum DecisionType {
    HigherLevel,
    BottomLevel,
}

/// The state of a single move in the rater.
#[derive(Debug, Clone, Copy, PartialEq, Eq)]
pub enum Rating {
    Value(RatingType),
    Equivalency(IndexType),
    Moved(Option<IndexType>),
    Unrated,
}

/// Collects ratings for all moves of a (possibly nested) decision.  The
/// moves of the bottom-level decisions are laid out one after the other:
/// the moves of decision `i` occupy the indices `start_index[i]` up to
/// `start_index[i + 1]`.
pub struct Rater {
    start_index: Vec<IndexType>,
    decision_path: Vec<Vec<IndexType>>,
    move_ratings: Vec<Rating>,
    max_rating: RatingType,
    /// Every equivalency points to a move of smaller rank, so that following
    /// equivalencies ends.
    rank: Ghost<Seq<int>>,
    floor: Ghost<int>,
}

/// Entry of the result of `cut_and_sort`: the rating and the path of
/// option indices that selects the move.
pub type RatedMove = (RatingType, Vec<IndexType>);

/// Entry of the result of `cut_and_sort_with_equivalency`: additionally the
/// paths of all moves that are equivalent to this one.
pub type RatedClass = (RatingType, Vec<IndexType>, Vec<Vec<IndexType>>);

/// The sum of the first `k` elements.
pub open spec fn spec_sum(s: Seq<usize>, k: int) -> int
    decreases k,
{
    if k <= 0 { 0 } else { spec_sum(s, k - 1) + s[k - 1] }
}

proof fn lemma_sum_prefix_mono(s: Seq<usize>, a: int, b: int)
    requires 0 <= a <= b <= s.len(),
    ensures spec_sum(s, a) <= spec_sum(s, b),
    decreases b - a,
{
    if a < b {
        lemma_sum_prefix_mono(s, a, b - 1);
    }
}

/// Move `k` had a value of at least `min` and has been moved out.
pub open spec fn moved_at(orig: Seq<Rating>, cur: Seq<Rating>, min: RatingType, k: int) -> bool {
    orig[k] is Value && orig[k]->Value_0 >= min && cur[k] is Moved
}

/// The number of moves below `n` that had a value of at least `min` and
/// have been moved out.
pub open spec fn count_moved(orig: Seq<Rating>, cur: Seq<Rating>, min: RatingType, n: int) -> int
    decreases n,
{
    if n <= 0 {
        0
    } else {
        count_moved(orig, cur, min, n - 1) + if moved_at(orig, cur, min, n - 1) { 1int } else { 0 }
    }
}

/// Changing the ratings at one position changes the count by what that
/// position adds.
proof fn lemma_count_moved_update(orig: Seq<Rating>, a: Seq<Rating>, b: Seq<Rating>, min: RatingType, n: int, index: int)
    requires
        0 <= index,
        n <= a.len(),
        a.len() == b.len(),
        forall|k: int| 0 <= k < a.len() && k != index ==> a[k] == b[k],
    ensures
        count_moved(orig, b, min, n) == count_moved(orig, a, min, n) + if index < n {
            (if moved_at(orig, b, min, index) { 1int } else { 0 }) - (if moved_at(orig, a, min, index) { 1int } else { 0 })
        } else {
            0
        },
    decreases n,
{
    if n > 0 {
        lemma_count_moved_update(orig, a, b, min, n - 1, index);
        if n - 1 != index {
            assert(a[n - 1] == b[n - 1]);
        }
    }
}

/// Where nothing has been moved, the count is zero.
proof fn lemma_count_moved_none(orig: Seq<Rating>, cur: Seq<Rating>, min: RatingType, n: int)
    requires
        n <= cur.len(),
        forall|k: int| 0 <= k < n ==> !(#[trigger] cur[k] is Moved),
    ensures
        count_moved(orig, cur, min, n) == 0,
    decreases n,
{
    if n > 0 {
        lemma_count_moved_none(orig, cur, min, n - 1);
    }
}

/// The ratings and paths of `v` are those of `l`.
pub open spec fn matches_list(v: Seq<RatedMove>, l: Seq<(RatingType, Seq<IndexType>)>) -> bool {
    &&& v.len() == l.len()
    &&& forall|t: int| 0 <= t < v.len() ==> (#[trigger] v[t]).0 == l[t].0 && v[t].1@ == l[t].1
}

/// Move `m` of the rater has an equivalency, `path` is its path and the
/// class `x` is that of the move representing its class.
pub open spec fn equivalent_member(rater: Rater, x: RatedClass, path: Seq<IndexType>, m: int) -> bool {
    &&& 0 <= m < rater.spec_ratings().len()
    &&& rater.spec_ratings()[m] is Equivalency
    &&& path == rater.spec_move_path(m)
    &&& x.1@ == rater.spec_move_path(rater.spec_representative(m))
}

/// The `q`-th path listed in class `x` is that of a move of the rater that
/// is equivalent to the move of the class.
pub open spec fn lists_equivalent(rater: Rater, x: RatedClass, q: int) -> bool {
    exists|m: int| #[trigger] equivalent_member(rater, x, x.2@[q]@, m)
}

/// The moves whose paths a class lists.
pub open spec fn member_list(ml: Seq<int>) -> bool {
    ml.len() >= 0
}

/// The class `x` lists the paths of distinct moves of the rater, each with
/// an equivalency to the move of the class: every such move at most once.
pub open spec fn lists_each_once(rater: Rater, x: RatedClass) -> bool {
    exists|ml: Seq<int>| #[trigger] member_list(ml) && ml.len() == x.2@.len() && ml.no_duplicates() && forall|q: int|
        0 <= q < ml.len() ==> #[trigger] equivalent_member(rater, x, x.2@[q]@, ml[q])
}

/// Some class of `v` is that of the move representing the class of move
/// `m` and lists the path of `m`.
pub open spec fn listed_with_class(rater: Rater, v: Seq<RatedClass>, m: int) -> bool {
    exists|a: int, q: int| 0 <= a < v.len() && 0 <= q < v[a].2@.len() && #[trigger] equivalent_member(rater, v[a], v[a].2@[q]@, m)
}

/// `x` has the rating of some entry of `l` and its path as positions.
#[verifier::opaque]
pub open spec fn position_listed_in(x: (RatingType, Vec<usize>), l: Seq<(RatingType, Seq<IndexType>)>) -> bool {
    exists|t: int| 0 <= t < l.len() && x.0 == l[t].0 && x.1@ == as_positions(#[trigger] l[t].1)
}

/// Some entry of `v` has the rating of `y` and its path as positions.
#[verifier::opaque]
pub open spec fn position_present_in(y: (RatingType, Seq<IndexType>), v: Seq<(RatingType, Vec<usize>)>) -> bool {
    exists|a: int| 0 <= a < v.len() && (#[trigger] v[a]).0 == y.0 && v[a].1@ == as_positions(y.1)
}

/// `v` is the cut list of the rater for `min`, sorted by decreasing value,
/// with the paths as positions.
#[verifier::opaque]
pub open spec fn rated_cut(rater: Rater, min: RatingType, v: Seq<(RatingType, Vec<usize>)>) -> bool {
    &&& forall|a: int, b: int| 0 <= a < b < v.len() ==> v[a].0 >= v[b].0
    &&& v.len() == rater.spec_cut_moves(min).len()
    &&& forall|a: int| 0 <= a < v.len() ==> #[trigger] position_listed_in(v[a], rater.spec_cut_moves(min))
    &&& forall|t: int| 0 <= t < rater.spec_cut_moves(min).len() ==> #[trigger] position_present_in(
        rater.spec_cut_moves(min)[t],
        v,
    )
}

/// `v` is what rating the moves gives: every move is rated, and `v` is the
/// cut list for the lowest value.
#[verifier::opaque]
pub open spec fn rated_result(rater: Rater, v: Seq<(RatingType, Vec<usize>)>) -> bool {
    &&& rater.spec_all_rated()
    &&& exists|min: RatingType| #[trigger] rater.spec_is_lowest_value(min) && rated_cut(rater, min, v)
}

/// The class `x` has the rating and path of some entry of `l`.
pub open spec fn class_listed_in(x: RatedClass, l: Seq<(RatingType, Seq<IndexType>)>) -> bool {
    exists|t: int| 0 <= t < l.len() && x.0 == l[t].0 && x.1@ == #[trigger] l[t].1
}

/// Some class of `v` has the rating and path `y`.
pub open spec fn class_present_in(y: (RatingType, Seq<IndexType>), v: Seq<RatedClass>) -> bool {
    exists|a: int| 0 <= a < v.len() && (#[trigger] v[a]).0 == y.0 && v[a].1@ == y.1
}

/// `x` has the rating and path of some entry of `l`.
pub open spec fn listed_in(x: RatedMove, l: Seq<(RatingType, Seq<IndexType>)>) -> bool {
    exists|t: int| 0 <= t < l.len() && x.0 == l[t].0 && x.1@ == #[trigger] l[t].1
}

/// Some entry of `v` has the rating and path `y`.
pub open spec fn present_in(y: (RatingType, Seq<IndexType>), v: Seq<RatedMove>) -> bool {
    exists|a: int| 0 <= a < v.len() && (#[trigger] v[a]).0 == y.0 && v[a].1@ == y.1
}

proof fn lemma_permuted_matches(
    pre: Seq<RatedMove>,
    sorted: Seq<RatedMove>,
    l: Seq<(RatingType, Seq<IndexType>)>,
)
    requires
        matches_list(pre, l),
        sorted.to_multiset() == pre.to_multiset(),
    ensures
        sorted.len() == l.len(),
        forall|a: int| 0 <= a < sorted.len() ==> listed_in(#[trigger] sorted[a], l),
        forall|t: int| 0 <= t < l.len() ==> present_in(#[trigger] l[t], sorted),
{
    assert(sorted.len() == sorted.to_multiset().len());
    assert(pre.len() == pre.to_multiset().len());
    assert forall|a: int| 0 <= a < sorted.len() implies listed_in(#[trigger] sorted[a], l) by {
        assert(sorted.to_multiset().count(sorted[a]) > 0);
        assert(pre.contains(sorted[a]));
        let t = choose|t: int| 0 <= t < pre.len() && pre[t] == sorted[a];
        assert(pre[t].0 == l[t].0);
        assert(sorted[a].0 == l[t].0 && sorted[a].1@ == l[t].1);
    }
    assert forall|t: int| 0 <= t < l.len() implies present_in(#[trigger] l[t], sorted) by {
        assert(pre[t].0 == l[t].0);
        assert(pre.to_multiset().count(pre[t]) > 0);
        assert(sorted.contains(pre[t]));
        let a = choose|a: int| 0 <= a < sorted.len() && sorted[a] == pre[t];
        assert(sorted[a].0 == l[t].0 && sorted[a].1@ == l[t].1);
    }
}

impl Rater {
    pub closed spec fn wf(&self) -> bool {
        let s = self.start_index@;
        let m = self.move_ratings@;
        &&& s.len() >= 1
        &&& s[0] == 0
        &&& forall|i: int, j: int| 0 <= i < j < s.len() ==> s[i] < s[j]
        &&& s[s.len() - 1] == m.len()
        &&& m.len() < u32::MAX
        &&& self.decision_path@.len() + 1 == s.len()
        &&& self.rank@.len() == m.len()
        &&& forall|k: int| 0 <= k < m.len() ==> self.rank@[k] >= self.floor@
        &&& forall|k: int| #![trigger m[k]] 0 <= k < m.len() ==> match m[k] {
            Rating::Equivalency(p) => p < m.len() && !(m[p as int] is Unrated) && self.rank@[p as int]
                < self.rank@[k],
            _ => true,
        }
    }

    /// The number of bottom-level decisions.
    pub closed spec fn spec_num_decisions(&self) -> int {
        self.start_index@.len() - 1
    }

    /// The number of options of decision `i`.
    pub closed spec fn spec_option_count(&self, i: int) -> int {
        self.start_index@[i + 1] - self.start_index@[i]
    }

    /// The position of option `j` of decision `i` among all moves.
    pub closed spec fn spec_move_index(&self, i: int, j: int) -> int {
        self.start_index@[i] + j
    }

    /// The ratings of all moves.
    pub closed spec fn spec_ratings(&self) -> Seq<Rating> {
        self.move_ratings@
    }

    /// The path of option indices that leads to decision `i`.
    pub closed spec fn spec_decision_path(&self, i: int) -> Seq<IndexType> {
        self.decision_path@[i]@
    }

    pub closed spec fn spec_max_rating(&self) -> RatingType {
        self.max_rating
    }

    /// The move at `(i, j)` exists.
    pub open spec fn spec_valid_move(&self, i: int, j: int) -> bool {
        0 <= i < self.spec_num_decisions() && 0 <= j < self.spec_option_count(i)
    }

    /// The rating of option `j` of decision `i`.
    pub open spec fn spec_rating_at(&self, i: int, j: int) -> Rating {
        self.spec_ratings()[self.spec_move_index(i, j)]
    }

    /// Every move has a value or an equivalency, and no move was moved yet.
    pub open spec fn spec_all_rated(&self) -> bool {
        forall|k: int| 0 <= k < self.spec_ratings().len() ==> (#[trigger] self.spec_ratings()[k] is Value
            || self.spec_ratings()[k] is Equivalency)
    }

    /// The move that represents the equivalency class of move `k`: the end of
    /// the chain of equivalencies that starts at `k`.
    pub closed spec fn spec_representative(&self, k: int) -> int {
        self.representative(k)
    }

    spec fn representative(&self, k: int) -> int
        decreases self.rank@[k] - self.floor@,
    {
        if self.wf() && 0 <= k < self.move_ratings@.len() {
            match self.move_ratings@[k] {
                Rating::Equivalency(p) => if self.rank@[p as int] < self.rank@[k] && self.rank@[p as int] >= self.floor@ {
                    self.representative(p as int)
                } else {
                    k
                },
                _ => k,
            }
        } else {
            k
        }
    }

    /// The decision that contains the move with position `k`.
    pub closed spec fn spec_decision_of(&self, k: int) -> int {
        choose|i: int| 0 <= i < self.spec_num_decisions() && #[trigger] self.start_index@[i] <= k < self.start_index@[i + 1]
    }

    /// The path of option indices that selects the move with position `k`.
    pub closed spec fn spec_move_path(&self, k: int) -> Seq<IndexType> {
        let i = self.spec_decision_of(k);
        self.decision_path@[i]@.push((k - self.start_index@[i]) as IndexType)
    }

    /// The moves with position below `k` that have a value of at least `min`,
    /// in order of their position.
    pub closed spec fn spec_cut_list(&self, min: RatingType, k: int) -> Seq<(RatingType, Seq<IndexType>)>
        decreases k,
    {
        if k <= 0 {
            Seq::empty()
        } else {
            let prev = self.spec_cut_list(min, k - 1);
            match self.move_ratings@[k - 1] {
                Rating::Value(v) => if v >= min {
                    prev.push((v, self.spec_move_path(k - 1)))
                } else {
                    prev
                },
                _ => prev,
            }
        }
    }

    /// All moves that have a value of at least `min`, in order of their
    /// position.
    pub open spec fn spec_cut_moves(&self, min: RatingType) -> Seq<(RatingType, Seq<IndexType>)> {
        self.spec_cut_list(min, self.spec_ratings().len() as int)
    }

    /// Each entry of the cut list below `n` is a move below `n` with a value
    /// of at least `min`, with its path.
    #[verifier::spinoff_prover]
    pub proof fn lemma_cut_list_sound(&self, min: RatingType, n: int)
        requires
            0 <= n <= self.spec_ratings().len(),
        ensures
            forall|t: int| 0 <= t < self.spec_cut_list(min, n).len() ==> exists|k: int|
                0 <= k < n && self.spec_ratings()[k] == Rating::Value((#[trigger] self.spec_cut_list(min, n)[t]).0)
                    && self.spec_cut_list(min, n)[t].0 >= min && self.spec_cut_list(min, n)[t].1 == self.spec_move_path(k),
        decreases n,
    {
        if n > 0 {
            self.lemma_cut_list_sound(min, n - 1);
            let prev = self.spec_cut_list(min, n - 1);
            let cur = self.spec_cut_list(min, n);
            let m = self.move_ratings@;
            assert forall|t: int| 0 <= t < cur.len() implies exists|k: int| 0 <= k < n
                && m[k] == Rating::Value((#[trigger] cur[t]).0) && cur[t].0 >= min && cur[t].1
                == self.spec_move_path(k) by {
                if t < prev.len() {
                    assert(cur[t] == prev[t]);
                    assert(prev[t] == self.spec_cut_list(min, n - 1)[t]);
                    let k = choose|k: int| 0 <= k < n - 1 && m[k] == Rating::Value(prev[t].0)
                        && prev[t].0 >= min && prev[t].1 == self.spec_move_path(k);
                    assert(m[k] == Rating::Value(cur[t].0));
                } else {
                    assert(m[n - 1] == Rating::Value(cur[t].0));
                }
            }
        }
    }

    /// Each move below `n` with a value of at least `min` has an entry with
    /// its path in the cut list below `n`.
    #[verifier::spinoff_prover]
    pub proof fn lemma_cut_list_complete(&self, min: RatingType, n: int, k: int) -> (t: int)
        requires
            0 <= k < n <= self.spec_ratings().len(),
            self.spec_ratings()[k] is Value,
            self.spec_ratings()[k]->Value_0 >= min,
        ensures
            0 <= t < self.spec_cut_list(min, n).len(),
            self.spec_cut_list(min, n)[t] == (self.spec_ratings()[k]->Value_0, self.spec_move_path(k)),
        decreases n,
    {
        let prev = self.spec_cut_list(min, n - 1);
        let cur = self.spec_cut_list(min, n);
        let m = self.move_ratings@;
        let v = m[k]->Value_0;
        let p = self.spec_move_path(k);
        if m[n - 1] is Value && m[n - 1]->Value_0 >= min {
            assert(cur == prev.push((m[n - 1]->Value_0, self.spec_move_path(n - 1))));
        } else {
            assert(cur == prev);
        }
        if k < n - 1 {
            let t = self.lemma_cut_list_complete(min, n - 1, k);
            t
        } else {
            prev.len() as int
        }
    }

    /// Every move in the cut list has a value of at least `min`.
    pub proof fn lemma_cut_list_at_least(&self, min: RatingType, k: int)
        ensures
            forall|t: int| 0 <= t < self.spec_cut_list(min, k).len() ==> (#[trigger] self.spec_cut_list(min, k)[t]).0 >= min,
        decreases k,
    {
        if k > 0 {
            self.lemma_cut_list_at_least(min, k - 1);
            let prev = self.spec_cut_list(min, k - 1);
            let cur = self.spec_cut_list(min, k);
            assert forall|t: int| 0 <= t < cur.len() implies (#[trigger] cur[t]).0 >= min by {
                if t < prev.len() {
                    assert(cur[t] == prev[t]);
                }
            }
        }
    }

    proof fn lemma_representative(&self, k: int)
        requires
            self.wf(),
            0 <= k < self.move_ratings@.len(),
            !(self.move_ratings@[k] is Unrated),
        ensures
            0 <= self.spec_representative(k) < self.move_ratings@.len(),
            self.move_ratings@[self.spec_representative(k)] is Value
                || self.move_ratings@[self.spec_representative(k)] is Moved,
            self.rank@[self.spec_representative(k)] <= self.rank@[k],
        decreases self.rank@[k] - self.floor@,
    {
        let m = self.move_ratings@;
        assert(match m[k] {
            Rating::Equivalency(p) => p < m.len() && !(m[p as int] is Unrated) && self.rank@[p as int] < self.rank@[k],
            _ => true,
        });
        match m[k] {
            Rating::Equivalency(p) => {
                self.lemma_representative(p as int);
            },
            _ => {},
        }
    }

    proof fn lemma_decision_of(&self, i: int, j: int)
        requires
            self.wf(),
            self.spec_valid_move(i, j),
        ensures
            self.spec_decision_of(self.spec_move_index(i, j)) == i,
    {
        let k = self.spec_move_index(i, j);
        let d = self.spec_decision_of(k);
        assert(0 <= i < self.spec_num_decisions() && self.start_index@[i] <= k < self.start_index@[i + 1]);
        if d < i {
            assert(self.start_index@[d + 1] <= self.start_index@[i]);
        } else if d > i {
            assert(self.start_index@[i + 1] <= self.start_index@[d]);
        }
    }

    /// Creates a rater for bottom-level decisions with the given numbers of
    /// options, reached through the given paths.  No move is rated yet.
    pub fn from_decisions(option_counts: &Vec<usize>, paths: Vec<Vec<IndexType>>) -> (r: Self)
        requires
            option_counts@.len() == paths@.len(),
            forall|i: int| 0 <= i < option_counts@.len() ==> option_counts@[i] > 0,
            spec_sum(option_counts@, option_counts@.len() as int) < u32::MAX,
        ensures
            r.wf(),
            r.spec_num_decisions() == option_counts@.len(),
            forall|i: int| 0 <= i < option_counts@.len() ==> r.spec_option_count(i) == option_counts@[i],
            forall|i: int| 0 <= i < option_counts@.len() ==> r.spec_decision_path(i) == paths@[i]@,
            forall|k: int| 0 <= k < r.spec_ratings().len() ==> r.spec_ratings()[k] == Rating::Unrated,
            r.spec_max_rating() == i32::MIN,
    {
        let mut start_index: Vec<IndexType> = Vec::new();
        start_index.push(0);
        let mut move_ratings: Vec<Rating> = Vec::new();
        let mut i: usize = 0;
        let mut total: usize = 0;
        while i < option_counts.len()
            invariant
                i <= option_counts@.len(),
                option_counts@.len() == paths@.len(),
                forall|k: int| 0 <= k < option_counts@.len() ==> option_counts@[k] > 0,
                start_index@.len() == i + 1,
                start_index@[0] == 0,
                forall|a: int, b: int| 0 <= a < b <= i ==> start_index@[a] < start_index@[b],
                start_index@[i as int] == total,
                move_ratings@.len() == total,
                total == spec_sum(option_counts@, i as int),
                spec_sum(option_counts@, option_counts@.len() as int) < u32::MAX,
                forall|k: int| 0 <= k < i ==> start_index@[k + 1] - start_index@[k] == option_counts@[k],
                forall|k: int| 0 <= k < move_ratings@.len() ==> move_ratings@[k] == Rating::Unrated,
            decreases option_counts@.len() - i,
        {
            let count = option_counts[i];
            proof { lemma_sum_prefix_mono(option_counts@, i as int + 1, option_counts@.len() as int); }
            let mut c: usize = 0;
            while c < count
                invariant
                    c <= count,
                    move_ratings@.len() == total + c,
                    forall|k: int| 0 <= k < move_ratings@.len() ==> move_ratings@[k] == Rating::Unrated,
                decreases count - c,
            {
                move_ratings.push(Rating::Unrated);
                c += 1;
            }
            total = total + count;
            start_index.push(total as u32);
            i += 1;
        }
        Self {
            start_index,
            decision_path: paths,
            move_ratings,
            max_rating: i32::MIN,
            rank: Ghost(Seq::new(total as nat, |k: int| 0)),
            floor: Ghost(0),
        }
    }

    /// The number of bottom-level decisions.
    pub fn num_decisions(&self) -> (r: usize)
        requires
            self.wf(),
        ensures
            r == self.spec_num_decisions(),
    {
        self.start_index.len() - 1
    }

    /// The number of moves: the options of all bottom-level decisions.
    pub fn num_moves(&self) -> (r: usize)
        ensures
            r == self.spec_ratings().len(),
    {
        self.move_ratings.len()
    }

    /// The highest value rated so far (`i32::MIN` if none was rated).
    pub fn current_max(&self) -> (r: RatingType)
        ensures
            r == self.spec_max_rating(),
    {
        self.max_rating
    }

    /// The number of options of decision `dec_index`.
    pub fn option_count(&self, dec_index: usize) -> (r: usize)
        requires
            self.wf(),
            dec_index < self.spec_num_decisions(),
        ensures
            r == self.spec_option_count(dec_index as int),
    {
        let n = self.start_index.len();
        assert(dec_index + 1 < n);
        (self.start_index[dec_index + 1] - self.start_index[dec_index]) as usize
    }

    fn moves_start_index(&self, dec_index: usize) -> (r: usize)
        requires
            self.wf(),
            dec_index < self.spec_num_decisions(),
        ensures
            r == self.start_index@[dec_index as int],
    {
        self.start_index[dec_index] as usize
    }

    fn to_move_index(&self, dec_index: usize, option_index: usize) -> (r: usize)
        requires
            self.wf(),
            self.spec_valid_move(dec_index as int, option_index as int),
        ensures
            r == self.spec_move_index(dec_index as int, option_index as int),
            r < self.spec_ratings().len(),
    {
        let start = self.moves_start_index(dec_index);
        proof {
            assert(self.start_index@[dec_index + 1] <= self.start_index@[self.start_index@.len() - 1]
                || dec_index + 1 == self.start_index@.len() - 1);
        }
        start + option_index
    }

    /// Rates option `option_index` of decision `dec_index` with `value`.
    pub fn rate(&mut self, dec_index: usize, option_index: usize, value: RatingType)
        requires
            old(self).wf(),
            old(self).spec_valid_move(dec_index as int, option_index as int),
            old(self).spec_rating_at(dec_index as int, option_index as int) is Unrated,
        ensures
            final(self).wf(),
            final(self).spec_ratings() == old(self).spec_ratings().update(
                old(self).spec_move_index(dec_index as int, option_index as int),
                Rating::Value(value),
            ),
            final(self).spec_max_rating() == (if value > old(self).spec_max_rating() { value } else {
                old(self).spec_max_rating()
            }),
            final(self).same_layout(*old(self)),
    {
        self.set_rating(dec_index, option_index, Rating::Value(value));
        if value > self.max_rating {
            self.max_rating = value;
        }
    }

    /// Both raters have the same decisions with the same options and paths.
    pub closed spec fn same_layout(&self, other: Self) -> bool {
        &&& self.start_index@ == other.start_index@
        &&& self.decision_path@ == other.decision_path@
        &&& self.spec_ratings().len() == other.spec_ratings().len()
    }

    /// Whether the move has a value or an equivalency.
    pub fn is_rated(&self, dec_index: usize, option_index: usize) -> (r: bool)
        requires
            self.wf(),
            self.spec_valid_move(dec_index as int, option_index as int),
            !(self.spec_rating_at(dec_index as int, option_index as int) is Moved),
        ensures
            r == !(self.spec_rating_at(dec_index as int, option_index as int) is Unrated),
    {
        let index = self.to_move_index(dec_index, option_index);
        match self.move_ratings[index] {
            Rating::Equivalency(_) | Rating::Value(_) => true,
            _ => false,
        }
    }

    fn set_rating(&mut self, dec_index: usize, option_index: usize, value: Rating)
        requires
            old(self).wf(),
            old(self).spec_valid_move(dec_index as int, option_index as int),
            old(self).spec_rating_at(dec_index as int, option_index as int) is Unrated,
            value is Value,
        ensures
            final(self).wf(),
            final(self).spec_ratings() == old(self).spec_ratings().update(
                old(self).spec_move_index(dec_index as int, option_index as int),
                value,
            ),
            final(self).max_rating == old(self).max_rating,
            final(self).same_layout(*old(self)),
            final(self).rank@ == old(self).rank@,
            final(self).floor@ == old(self).floor@,
    {
        let index = self.to_move_index(dec_index, option_index);
        self.move_ratings.set(index, value);
        proof {
            let m = self.move_ratings@;
            assert forall|k: int| #![trigger m[k]] 0 <= k < m.len() implies match m[k] {
                Rating::Equivalency(p) => p < m.len() && !(m[p as int] is Unrated) && self.rank@[p as int]
                    < self.rank@[k],
                _ => true,
            } by {
                assert(old(self).move_ratings@[k] == m[k] || k == index);
                let om = old(self).move_ratings@;
                assert(match om[k] {
                    Rating::Equivalency(p) => p < om.len() && !(om[p as int] is Unrated),
                    _ => true,
                });
            }
        }
    }

    /// Follows the equivalencies that start at `target_index` to the move
    /// that represents the class.
    fn contracted_target_from_index(&self, own_index: usize, target_index: usize) -> (r: usize)
        requires
            self.wf(),
            target_index < self.spec_ratings().len(),
            !(self.spec_ratings()[target_index as int] is Unrated),
        ensures
            r == self.spec_representative(target_index as int),
            r < self.spec_ratings().len(),
            self.spec_ratings()[r as int] is Value || self.spec_ratings()[r as int] is Moved,
    {
        let mut t = target_index;
        proof {
            self.lemma_representative(target_index as int);
        }
        loop
            invariant
                self.wf(),
                t < self.move_ratings@.len(),
                !(self.move_ratings@[t as int] is Unrated),
                self.spec_representative(t as int) == self.spec_representative(target_index as int),
            decreases self.rank@[t as int] - self.floor@,
        {
            let ghost m = self.move_ratings@;
            assert(match m[t as int] {
                Rating::Equivalency(p) => p < m.len() && !(m[p as int] is Unrated) && self.rank@[p as int]
                    < self.rank@[t as int],
                _ => true,
            });
            match self.move_ratings[t] {
                Rating::Equivalency(parent) => {
                    t = parent as usize;
                },
                _ => {
                    return t;
                },
            }
        }
    }

    fn contracted_target(&self, own_index: usize, dec_index_target: usize, option_index_target: usize) -> (r: usize)
        requires
            self.wf(),
            self.spec_valid_move(dec_index_target as int, option_index_target as int),
            !(self.spec_rating_at(dec_index_target as int, option_index_target as int) is Unrated),
        ensures
            r == self.spec_representative(
                self.spec_move_index(dec_index_target as int, option_index_target as int),
            ),
            r < self.spec_ratings().len(),
            self.spec_ratings()[r as int] is Value || self.spec_ratings()[r as int] is Moved,
    {
        let target_index = self.to_move_index(dec_index_target, option_index_target);
        self.contracted_target_from_index(own_index, target_index)
    }

    /// Marks the move as equivalent to the target move.  The equivalency
    /// points to the move that represents the class of the target.
    pub fn set_equivalent_to(
        &mut self,
        dec_index: usize,
        option_index: usize,
        dec_index_target: usize,
        option_index_target: usize,
    )
        requires
            old(self).wf(),
            old(self).spec_valid_move(dec_index as int, option_index as int),
            old(self).spec_valid_move(dec_index_target as int, option_index_target as int),
            old(self).spec_rating_at(dec_index as int, option_index as int) is Unrated,
            !(old(self).spec_rating_at(dec_index_target as int, option_index_target as int) is Unrated),
        ensures
            final(self).wf(),
            final(self).spec_ratings() == old(self).spec_ratings().update(
                old(self).spec_move_index(dec_index as int, option_index as int),
                Rating::Equivalency(
                    old(self).spec_representative(
                        old(self).spec_move_index(dec_index_target as int, option_index_target as int),
                    ) as IndexType,
                ),
            ),
            final(self).spec_max_rating() == old(self).spec_max_rating(),
            final(self).same_layout(*old(self)),
    {
        let own_index = self.to_move_index(dec_index, option_index);
        let target = self.contracted_target(own_index, dec_index_target, option_index_target);
        let ghost old_rank = self.rank@;
        self.move_ratings.set(own_index, Rating::Equivalency(target as IndexType));
        self.rank = Ghost(old_rank.update(own_index as int, old_rank[target as int] + 1));
        proof {
            let m = self.move_ratings@;
            let om = old(self).move_ratings@;
            assert forall|k: int| #![trigger m[k]] 0 <= k < m.len() implies match m[k] {
                Rating::Equivalency(p) => p < m.len() && !(m[p as int] is Unrated) && self.rank@[p as int]
                    < self.rank@[k],
                _ => true,
            } by {
                if k != own_index {
                    assert(om[k] == m[k]);
                    assert(match om[k] {
                        Rating::Equivalency(p) => p < om.len() && !(om[p as int] is Unrated) && old_rank[p as int] < old_rank[k],
                        _ => true,
                    });
                }
            }
        }
    }

    /// Rates the move with `value` and makes it the representative of the
    /// class of the target move: the former representative of that class
    /// becomes equivalent to this move.
    pub fn set_equivalent_as_representative(
        &mut self,
        dec_index: usize,
        option_index: usize,
        dec_index_target: usize,
        option_index_target: usize,
        value: RatingType,
    )
        requires
            old(self).wf(),
            old(self).spec_valid_move(dec_index as int, option_index as int),
            old(self).spec_valid_move(dec_index_target as int, option_index_target as int),
            old(self).spec_rating_at(dec_index as int, option_index as int) is Unrated,
            !(old(self).spec_rating_at(dec_index_target as int, option_index_target as int) is Unrated),
        ensures
            final(self).wf(),
            final(self).spec_ratings() == old(self).spec_ratings().update(
                old(self).spec_move_index(dec_index as int, option_index as int),
                Rating::Value(value),
            ).update(
                old(self).spec_representative(
                    old(self).spec_move_index(dec_index_target as int, option_index_target as int),
                ),
                Rating::Equivalency(old(self).spec_move_index(dec_index as int, option_index as int) as IndexType),
            ),
            final(self).spec_max_rating() == old(self).spec_max_rating(),
            final(self).same_layout(*old(self)),
    {
        let own_index = self.to_move_index(dec_index, option_index);
        let target = self.contracted_target(own_index, dec_index_target, option_index_target);
        let ghost old_rank = self.rank@;
        let ghost old_floor = self.floor@;
        self.set_rating(dec_index, option_index, Rating::Value(value));
        self.move_ratings.set(target, Rating::Equivalency(own_index as IndexType));
        let ghost new_own_rank = old_rank[target as int] - 1;
        self.rank = Ghost(old_rank.update(own_index as int, new_own_rank));
        self.floor = Ghost(if new_own_rank < old_floor { new_own_rank } else { old_floor });
        proof {
            let m = self.move_ratings@;
            let om = old(self).move_ratings@;
            assert forall|k: int| #![trigger m[k]] 0 <= k < m.len() implies match m[k] {
                Rating::Equivalency(p) => p < m.len() && !(m[p as int] is Unrated) && self.rank@[p as int]
                    < self.rank@[k],
                _ => true,
            } by {
                if k != own_index && k != target {
                    assert(om[k] == m[k]);
                    assert(match om[k] {
                        Rating::Equivalency(p) => p < om.len() && !(om[p as int] is Unrated) && old_rank[p as int] < old_rank[k],
                        _ => true,
                    });
                    match om[k] {
                        Rating::Equivalency(p) => {
                            assert(p != own_index);
                        },
                        _ => {},
                    }
                }
            }
            assert forall|k: int| 0 <= k < m.len() implies self.rank@[k] >= self.floor@ by {
                assert(old_rank[k] >= old_floor);
            }
        }
    }

    /// The path of option indices that selects option `index` of decision
    /// `i`.
    fn extended_path(&self, i: usize, index: IndexType) -> (r: Vec<IndexType>)
        requires
            self.wf(),
            i < self.spec_num_decisions(),
        ensures
            r@ == self.decision_path@[i as int]@.push(index),
    {
        let src = &self.decision_path[i];
        let mut indizes: Vec<IndexType> = Vec::new();
        let mut k: usize = 0;
        while k < src.len()
            invariant
                k <= src@.len(),
                indizes@ == src@.subrange(0, k as int),
            decreases src@.len() - k,
        {
            indizes.push(src[k]);
            k += 1;
            assert(indizes@ =~= src@.subrange(0, k as int));
        }
        assert(indizes@ =~= src@);
        indizes.push(index);
        indizes
    }

    proof fn lemma_move_path(&self, i: int, j: int)
        requires
            self.wf(),
            self.spec_valid_move(i, j),
        ensures
            self.spec_move_path(self.spec_move_index(i, j)) == self.decision_path@[i]@.push(j as IndexType),
    {
        self.lemma_decision_of(i, j);
    }

    /// Appends the move `(i, j)` to `result` if it has a value of at least
    /// `min`.
    #[verifier::spinoff_prover]
    #[verifier::rlimit(90)]
    fn push_if_cut(&self, i: usize, j: IndexType, min: RatingType, result: &mut Vec<RatedMove>)
        requires
            self.wf(),
            self.spec_valid_move(i as int, j as int),
            matches_list(old(result)@, self.spec_cut_list(min, self.spec_move_index(i as int, j as int))),
        ensures
            matches_list(final(result)@, self.spec_cut_list(min, self.spec_move_index(i as int, j as int) + 1)),
    {
        let k = self.to_move_index(i, j as usize);
        let ghost prev = self.spec_cut_list(min, k as int);
        let ghost cur = self.spec_cut_list(min, k + 1);
        let ghost old_result = result@;
        proof {
            self.lemma_move_path(i as int, j as int);
        }
        match self.move_ratings[k] {
            Rating::Value(val) => {
                if val >= min {
                    let path = self.extended_path(i, j);
                    result.push((val, path));
                    proof {
                        assert(cur == prev.push((val, self.spec_move_path(k as int))));
                        assert forall|t: int| 0 <= t < result@.len() implies (#[trigger] result@[t]).0 == cur[t].0
                            && result@[t].1@ == cur[t].1 by {
                            if t < old_result.len() {
                                assert(result@[t] == old_result[t]);
                            }
                        }
                    }
                } else {
                    assert(cur == prev);
                }
            },
            _ => {
                assert(cur == prev);
            },
        }
    }

    /// The moves that have a value of at least `min` with their paths, sorted
    /// by decreasing value.  Moves with an equivalency are left out.
    #[verifier::spinoff_prover]
    #[verifier::rlimit(90)]
    pub fn cut_and_sort(self, min: RatingType) -> (r: Vec<RatedMove>)
        requires
            self.wf(),
            self.spec_all_rated(),
        ensures
            sorted_desc(r@),
            r@.len() == self.spec_cut_moves(min).len(),
            forall|a: int| 0 <= a < r@.len() ==> listed_in(#[trigger] r@[a], self.spec_cut_moves(min)),
            forall|t: int| 0 <= t < self.spec_cut_moves(min).len() ==> present_in(
                #[trigger] self.spec_cut_moves(min)[t],
                r@,
            ),
    {
        let mut result: Vec<RatedMove> = Vec::new();
        let n = self.num_decisions();
        let mut i: usize = 0;
        while i < n
            invariant
                self.wf(),
                n == self.spec_num_decisions(),
                i <= n,
                matches_list(result@, self.spec_cut_list(min, self.start_index@[i as int] as int)),
            decreases n - i,
        {
            let range = self.option_count(i) as IndexType;
            let mut j: IndexType = 0;
            while j < range
                invariant
                    self.wf(),
                    n == self.spec_num_decisions(),
                    i < n,
                    range == self.spec_option_count(i as int),
                    j <= range,
                    matches_list(result@, self.spec_cut_list(min, self.spec_move_index(i as int, j as int))),
                decreases range - j,
            {
                self.push_if_cut(i, j, min, &mut result);
                j += 1;
            }
            i += 1;
        }
        let ghost pre = result@;
        proof {
            assert(self.start_index@[n as int] == self.move_ratings@.len());
            assert(matches_list(pre, self.spec_cut_moves(min)));
        }
        let sorted = sort_descending(result);
        proof {
            lemma_permuted_matches(pre, sorted@, self.spec_cut_moves(min));
        }
        sorted
    }

    /// The state while the moves are moved into the result of
    /// `cut_and_sort_with_equivalency`: no move is unrated, every moved value
    /// refers to an entry of the result and every entry has a rating of at
    /// least `min`.
    spec fn moving_state(&self, result: Seq<RatedClass>, min: RatingType) -> bool {
        &&& self.wf()
        &&& forall|k: int| 0 <= k < self.move_ratings@.len() ==> !(#[trigger] self.move_ratings@[k] is Unrated)
        &&& forall|k: int| 0 <= k < self.move_ratings@.len() ==> match #[trigger] self.move_ratings@[k] {
            Rating::Moved(Some(m)) => m < result.len(),
            _ => true,
        }
        &&& forall|t: int| 0 <= t < result.len() ==> (#[trigger] result[t]).0 >= min
    }

    /// Move `k` had the value `v` before the moves were moved into `result`:
    /// it is unmoved, or moved out without an entry (its value is below
    /// `min`), or moved into the entry of `result` that carries its value
    /// and path.
    spec fn value_moved(&self, k: int, v: RatingType, result: Seq<RatedClass>, min: RatingType) -> bool {
        ||| self.move_ratings@[k] == Rating::Value(v)
        ||| self.move_ratings@[k] == Rating::Moved(None) && v < min
        ||| self.move_ratings@[k] matches Rating::Moved(Some(t)) && v >= min && t < result.len() && result[t as int].0
            == v && result[t as int].1@ == self.spec_move_path(k)
    }

    /// `orig` holds the ratings before the moves were moved into `result`:
    /// every move with a value is tracked by `value_moved`, the moves that
    /// still have a value had it from the start, and every entry of
    /// `result` stems from a move with a value.
    #[verifier::opaque]
    spec fn tracks(&self, orig: Seq<Rating>, result: Seq<RatedClass>, min: RatingType) -> bool {
        &&& orig.len() == self.move_ratings@.len()
        &&& forall|k: int| 0 <= k < orig.len() ==> (#[trigger] orig[k] matches Rating::Value(v) ==> self.value_moved(
            k,
            v,
            result,
            min,
        ))
        &&& forall|k: int| 0 <= k < orig.len() ==> (#[trigger] self.move_ratings@[k] is Value ==> orig[k]
            == self.move_ratings@[k])
        &&& forall|t: int| #![trigger result[t]] 0 <= t < result.len() ==> exists|k: int| 0 <= k < orig.len() && orig[k] == Rating::Value(
            result[t].0,
        ) && #[trigger] self.move_ratings@[k] == Rating::Moved(Some(t as IndexType))
        &&& result.len() == count_moved(orig, self.move_ratings@, min, orig.len() as int)
    }

    /// The move representing the class of each move with an equivalency has
    /// a value.
    spec fn reps_have_values(&self) -> bool {
        forall|m: int| #![trigger self.spec_representative(m)] 0 <= m < self.move_ratings@.len()
            && self.move_ratings@[m] is Equivalency ==> 0 <= self.spec_representative(m) < self.move_ratings@.len()
            && self.move_ratings@[self.spec_representative(m)] is Value
    }

    proof fn lemma_reps_have_values(&self)
        requires
            self.wf(),
            self.spec_all_rated(),
        ensures
            self.reps_have_values(),
    {
        assert forall|m: int| #![trigger self.spec_representative(m)] 0 <= m < self.move_ratings@.len()
            && self.move_ratings@[m] is Equivalency implies 0 <= self.spec_representative(m) < self.move_ratings@.len()
            && self.move_ratings@[self.spec_representative(m)] is Value by {
            self.lemma_representative(m);
        }
    }

    /// Move `m` had an equivalency in `start`, has been moved into entry `t`
    /// of `result`, and `path` is its path.
    spec fn member_at(&self, start: Rater, result: Seq<RatedClass>, t: int, path: Seq<IndexType>, m: int) -> bool {
        &&& 0 <= m < start.move_ratings@.len()
        &&& start.move_ratings@[m] is Equivalency
        &&& self.move_ratings@[m] == Rating::Moved(Some(t as IndexType))
        &&& path == self.spec_move_path(m)
    }

    /// The paths listed in each entry of `result` are those of the distinct
    /// moves `mem` of that entry, in order (see `member_at`).
    #[verifier::opaque]
    spec fn members_listed(&self, start: Rater, result: Seq<RatedClass>, mem: Seq<Seq<int>>) -> bool {
        &&& mem.len() == result.len()
        &&& forall|t: int| 0 <= t < result.len() ==> (#[trigger] mem[t]).len() == result[t].2@.len() && mem[t].no_duplicates()
        &&& forall|t: int, q: int| 0 <= t < result.len() && 0 <= q < mem[t].len() ==> #[trigger] self.member_at(
            start,
            result,
            t,
            result[t].2@[q]@,
            mem[t][q],
        )
    }

    /// A move that has not been moved out keeps its rating from `start`.
    proof fn lemma_kept_rating(&self, start: Rater, result: Seq<RatedClass>, k: int)
        requires
            self.classes_tracked(start, result),
            0 <= k < self.move_ratings@.len(),
            !(self.move_ratings@[k] is Moved),
        ensures
            start.move_ratings@[k] == self.move_ratings@[k],
            start.move_ratings@.len() == self.move_ratings@.len(),
    {
        reveal(Rater::classes_tracked);
    }

    /// Moving out move `index`, which had a value, keeps the members listed;
    /// a new entry lists none.
    #[verifier::spinoff_prover]
    proof fn lemma_members_moved_value(
        &self,
        before: Rater,
        start: Rater,
        old_result: Seq<RatedClass>,
        result: Seq<RatedClass>,
        index: int,
        mem: Seq<Seq<int>>,
    )
        requires
            before.members_listed(start, old_result, mem),
            self.same_layout(before),
            0 <= index < before.move_ratings@.len(),
            start.move_ratings@.len() == before.move_ratings@.len(),
            !(start.move_ratings@[index] is Equivalency),
            self.move_ratings@.len() == before.move_ratings@.len(),
            forall|k: int| 0 <= k < self.move_ratings@.len() && k != index ==> self.move_ratings@[k]
                == before.move_ratings@[k],
            result.len() == old_result.len() || result.len() == old_result.len() + 1,
            forall|t: int| 0 <= t < old_result.len() ==> #[trigger] result[t] == old_result[t],
            forall|t: int| old_result.len() <= t < result.len() ==> (#[trigger] result[t]).2@.len() == 0,
        ensures
            self.members_listed(
                start,
                result,
                if result.len() > old_result.len() { mem.push(Seq::<int>::empty()) } else { mem },
            ),
    {
        reveal(Rater::members_listed);
        let m2 = if result.len() > old_result.len() { mem.push(Seq::<int>::empty()) } else { mem };
        assert forall|t: int| 0 <= t < result.len() implies (#[trigger] m2[t]).len() == result[t].2@.len()
            && m2[t].no_duplicates() by {
            if t < old_result.len() {
                assert(m2[t] == mem[t]);
                assert(result[t] == old_result[t]);
            } else {
                assert(m2[t] == Seq::<int>::empty());
            }
        }
        assert forall|t: int, q: int| 0 <= t < result.len() && 0 <= q < m2[t].len() implies #[trigger] self.member_at(
            start,
            result,
            t,
            result[t].2@[q]@,
            m2[t][q],
        ) by {
            if t < old_result.len() {
                assert(m2[t] == mem[t]);
                assert(result[t] == old_result[t]);
                assert(before.member_at(start, old_result, t, old_result[t].2@[q]@, mem[t][q]));
                assert(mem[t][q] != index);
                assert(self.spec_move_path(mem[t][q]) == before.spec_move_path(mem[t][q]));
            } else {
                assert(m2[t] == Seq::<int>::empty());
            }
        }
    }

    /// Moving out move `index`, which has an equivalency, into entry `t0`
    /// and listing its path there keeps the members listed.
    #[verifier::spinoff_prover]
    proof fn lemma_members_relabel(
        &self,
        before: Rater,
        start: Rater,
        old_result: Seq<RatedClass>,
        result: Seq<RatedClass>,
        index: int,
        mem: Seq<Seq<int>>,
    )
        requires
            before.members_listed(start, old_result, mem),
            self.same_layout(before),
            0 <= index < before.move_ratings@.len(),
            start.move_ratings@.len() == before.move_ratings@.len(),
            start.move_ratings@[index] is Equivalency,
            !(before.move_ratings@[index] is Moved),
            self.move_ratings@.len() == before.move_ratings@.len(),
            forall|k: int| 0 <= k < self.move_ratings@.len() && k != index ==> self.move_ratings@[k]
                == before.move_ratings@[k],
            self.move_ratings@[index] is Moved,
            result.len() == old_result.len(),
            self.move_ratings@[index] is Moved && self.move_ratings@[index]->Moved_0 is None ==> result == old_result,
            self.move_ratings@[index] matches Rating::Moved(Some(t0)) ==> (t0 < result.len() && result == old_result.update(
                t0 as int,
                (old_result[t0 as int].0, old_result[t0 as int].1, result[t0 as int].2),
            ) && result[t0 as int].2@ == old_result[t0 as int].2@.push(result[t0 as int].2@.last())
                && result[t0 as int].2@.last()@ == before.spec_move_path(index)),
        ensures
            self.members_listed(
                start,
                result,
                match self.move_ratings@[index] {
                    Rating::Moved(Some(t0)) => mem.update(t0 as int, mem[t0 as int].push(index)),
                    _ => mem,
                },
            ),
    {
        reveal(Rater::members_listed);
        let m2 = match self.move_ratings@[index] {
            Rating::Moved(Some(t0)) => mem.update(t0 as int, mem[t0 as int].push(index)),
            _ => mem,
        };
        assert forall|t: int| 0 <= t < mem.len() implies !(#[trigger] mem[t]).contains(index) by {
            if mem[t].contains(index) {
                let q = choose|q: int| 0 <= q < mem[t].len() && mem[t][q] == index;
                assert(before.member_at(start, old_result, t, old_result[t].2@[q]@, mem[t][q]));
            }
        }
        assert forall|t: int| 0 <= t < result.len() implies (#[trigger] m2[t]).len() == result[t].2@.len()
            && m2[t].no_duplicates() by {
            assert(mem[t].len() == old_result[t].2@.len() && mem[t].no_duplicates());
            if self.move_ratings@[index] is Moved && self.move_ratings@[index]->Moved_0 is Some {
                let t0 = self.move_ratings@[index]->Moved_0->Some_0 as int;
                if t == t0 {
                    assert(!mem[t].contains(index));
                    assert forall|a: int, b: int| 0 <= a < b < m2[t].len() implies m2[t][a] != m2[t][b] by {
                        if b == m2[t].len() - 1 {
                            assert(m2[t][b] == index);
                            assert(m2[t][a] == mem[t][a]);
                        } else {
                            assert(m2[t][a] == mem[t][a] && m2[t][b] == mem[t][b]);
                        }
                    }
                } else {
                    assert(result[t] == old_result[t]);
                }
            }
        }
        assert forall|t: int, q: int| 0 <= t < result.len() && 0 <= q < m2[t].len() implies #[trigger] self.member_at(
            start,
            result,
            t,
            result[t].2@[q]@,
            m2[t][q],
        ) by {
            assert(self.spec_move_path(index) == before.spec_move_path(index));
            if q < mem[t].len() && (m2[t][q] == mem[t][q]) {
                assert(mem[t].len() == old_result[t].2@.len());
                assert(before.member_at(start, old_result, t, old_result[t].2@[q]@, mem[t][q]));
                assert(mem[t][q] != index);
                assert(self.spec_move_path(mem[t][q]) == before.spec_move_path(mem[t][q]));
                assert(result[t].2@[q] == old_result[t].2@[q]);
            } else {
                assert(self.move_ratings@[index] is Moved && self.move_ratings@[index]->Moved_0 is Some
                    && t == self.move_ratings@[index]->Moved_0->Some_0 as int);
                assert(m2[t][q] == index);
                assert(result[t].2@[q]@ == before.spec_move_path(index));
            }
        }
    }

    /// While the moves are moved into `result`, starting from the ratings
    /// of `start`: a move that is not moved out keeps its rating; a moved
    /// move with an equivalency went where the move representing its class
    /// went, and its path is listed in that entry; and every listed path is
    /// the path of such a move.
    #[verifier::opaque]
    spec fn classes_tracked(&self, start: Rater, result: Seq<RatedClass>) -> bool {
        &&& start.move_ratings@.len() == self.move_ratings@.len()
        &&& start.rank@ == self.rank@
        &&& start.floor@ == self.floor@
        &&& forall|m: int| 0 <= m < start.move_ratings@.len() && !(#[trigger] self.move_ratings@[m] is Moved)
            ==> start.move_ratings@[m] == self.move_ratings@[m]
        &&& forall|m: int| #![trigger start.spec_representative(m)] 0 <= m < start.move_ratings@.len()
            && start.move_ratings@[m] is Equivalency && self.move_ratings@[m] is Moved
            ==> self.move_ratings@[start.spec_representative(m)] == self.move_ratings@[m]
        &&& forall|m: int| 0 <= m < start.move_ratings@.len() && start.move_ratings@[m] is Equivalency
            && (#[trigger] self.move_ratings@[m] matches Rating::Moved(Some(t))) ==> self.listed_at(
            result,
            self.move_ratings@[m]->Moved_0->Some_0 as int,
            self.spec_move_path(m),
        )
        &&& forall|t: int, q: int| 0 <= t < result.len() && 0 <= q < result[t].2@.len()
            ==> #[trigger] self.has_member(start, result, t, q)
    }

    /// The `q`-th path listed in entry `t` of `result` is that of a move
    /// that had an equivalency and was moved into that entry.
    spec fn has_member(&self, start: Rater, result: Seq<RatedClass>, t: int, q: int) -> bool {
        exists|m: int| #[trigger] self.member_at(start, result, t, result[t].2@[q]@, m)
    }

    /// Entry `t` of `result` lists `path` among its equivalent moves.
    spec fn listed_at(&self, result: Seq<RatedClass>, t: int, path: Seq<IndexType>) -> bool {
        0 <= t < result.len() && exists|q: int| 0 <= q < result[t].2@.len() && #[trigger] result[t].2@[q]@ == path
    }

    /// Following the equivalencies from move `k` in the current ratings ends
    /// at the move representing its class in `start`, while that one still
    /// has its value, and otherwise at a move that was moved to the same
    /// place.
    proof fn lemma_current_representative(&self, start: Rater, result: Seq<RatedClass>, k: int)
        requires
            self.wf(),
            start.wf(),
            start.spec_all_rated(),
            self.classes_tracked(start, result),
            0 <= k < self.move_ratings@.len(),
        ensures
            self.move_ratings@[self.spec_representative(k)] is Value ==> self.spec_representative(k)
                == start.spec_representative(k),
            self.move_ratings@[self.spec_representative(k)] is Moved ==> self.move_ratings@[self.spec_representative(k)]
                == self.move_ratings@[start.spec_representative(k)],
        decreases self.rank@[k] - self.floor@,
    {
        reveal(Rater::classes_tracked);
        let m = self.move_ratings@;
        let s = start.move_ratings@;
        assert(match m[k] {
            Rating::Equivalency(p) => p < m.len() && !(m[p as int] is Unrated) && self.rank@[p as int] < self.rank@[k],
            _ => true,
        });
        assert(self.rank@[k] >= self.floor@);
        assert(s[k] is Value || s[k] is Equivalency);
        match m[k] {
            Rating::Equivalency(p) => {
                assert(s[k] == m[k]);
                assert(self.rank@[p as int] >= self.floor@);
                assert(self.spec_representative(k) == self.spec_representative(p as int));
                assert(start.spec_representative(k) == start.spec_representative(p as int));
                self.lemma_current_representative(start, result, p as int);
            },
            Rating::Value(_) => {
                assert(s[k] == m[k]);
                assert(self.spec_representative(k) == k);
                assert(start.spec_representative(k) == k);
            },
            _ => {
                assert(self.spec_representative(k) == k);
                if s[k] is Value {
                    assert(start.spec_representative(k) == k);
                }
            },
        }
    }

    /// The decision that contains the move with position `target`, and the
    /// index of the move within it.
    fn decision_containing(&self, target: usize) -> (r: (usize, IndexType))
        requires
            self.wf(),
            target < self.spec_ratings().len(),
        ensures
            self.spec_valid_move(r.0 as int, r.1 as int),
            self.spec_move_index(r.0 as int, r.1 as int) == target,
    {
        let n = self.start_index.len() - 1;
        // the largest decision index whose start is not above target
        let mut lo: usize = 0;
        let mut hi: usize = n;
        proof {
            assert(self.start_index@[n as int] == self.move_ratings@.len());
        }
        while lo + 1 < hi
            invariant
                self.wf(),
                n == self.start_index@.len() - 1,
                0 <= lo < hi <= n,
                self.start_index@[lo as int] <= target,
                target < self.start_index@[hi as int],
            decreases hi - lo,
        {
            let mid = lo + (hi - lo) / 2;
            if self.start_index[mid] as usize <= target {
                lo = mid;
            } else {
                hi = mid;
            }
        }
        proof {
            if lo + 1 < n {
                assert(self.start_index@[lo + 1] <= self.start_index@[hi as int] || lo + 1 == hi);
            }
        }
        (lo, (target - self.start_index[lo] as usize) as IndexType)
    }

    /// Moving the value `v` of move `index` out (into a new last entry of
    /// the result where it is at least `min`) keeps the ratings tracked.
    proof fn lemma_tracks_moved_value(
        &self,
        before: Rater,
        orig: Seq<Rating>,
        old_result: Seq<RatedClass>,
        result: Seq<RatedClass>,
        index: int,
        v: RatingType,
        min: RatingType,
    )
        requires
            before.tracks(orig, old_result, min),
            self.same_layout(before),
            0 <= index < before.move_ratings@.len(),
            before.move_ratings@[index] == Rating::Value(v),
            self.move_ratings@.len() == before.move_ratings@.len(),
            forall|k: int| 0 <= k < self.move_ratings@.len() && k != index ==> self.move_ratings@[k]
                == before.move_ratings@[k],
            v >= min ==> result.len() == old_result.len() + 1 && result.drop_last() == old_result && result.last().0 == v
                && result.last().1@ == before.spec_move_path(index) && self.move_ratings@[index] == Rating::Moved(
                Some(old_result.len() as IndexType),
            ),
            v < min ==> result == old_result && self.move_ratings@[index] == Rating::Moved(None),
            old_result.len() < u32::MAX,
        ensures
            self.tracks(orig, result, min),
    {
        reveal(Rater::tracks);
        assert(orig[index] == before.move_ratings@[index]);
        lemma_count_moved_update(orig, before.move_ratings@, self.move_ratings@, min, orig.len() as int, index);
        assert forall|k: int| 0 <= k < orig.len() implies (#[trigger] orig[k] matches Rating::Value(w)
            ==> self.value_moved(k, w, result, min)) by {
            assert(self.spec_move_path(k) == before.spec_move_path(k));
            if let Rating::Value(w) = orig[k] {
                assert(before.value_moved(k, w, old_result, min));
                if k == index {
                    assert(w == v);
                } else if v >= min {
                    if let Rating::Moved(Some(t)) = before.move_ratings@[k] {
                        assert(result[t as int] == old_result[t as int]);
                    }
                }
            }
        }
        assert forall|k: int| 0 <= k < orig.len() && #[trigger] self.move_ratings@[k] is Value implies orig[k]
            == self.move_ratings@[k] by {
            if k != index {
                assert(before.move_ratings@[k] == self.move_ratings@[k]);
            }
        }
        assert forall|t: int| #![trigger result[t]] 0 <= t < result.len() implies exists|k: int| 0 <= k < orig.len()
            && orig[k] == Rating::Value(result[t].0) && #[trigger] self.move_ratings@[k] == Rating::Moved(
            Some(t as IndexType),
        ) by {
            if t < old_result.len() {
                assert(result[t] == old_result[t]) by {
                    if v >= min {
                        assert(result[t] == result.drop_last()[t]);
                    }
                }
                assert(old_result[t] == old_result[t]);
                let k = choose|k: int| 0 <= k < orig.len() && orig[k] == Rating::Value(old_result[t].0)
                    && #[trigger] before.move_ratings@[k] == Rating::Moved(Some(t as IndexType));
                assert(k != index);
                assert(self.move_ratings@[k] == Rating::Moved(Some(t as IndexType)));
            } else {
                assert(v >= min && t == old_result.len());
                assert(orig[index] matches Rating::Value(w) ==> before.value_moved(index, w, old_result, min));
                assert(orig[index] == Rating::Value(v));
                assert(self.move_ratings@[index] == Rating::Moved(Some(t as IndexType)));
            }
        }
    }

    /// Marking move `index`, which has an equivalency, as moved keeps the
    /// ratings tracked, as does a change of the result that keeps the value
    /// and path of each entry.
    proof fn lemma_tracks_relabel(
        &self,
        before: Rater,
        orig: Seq<Rating>,
        old_result: Seq<RatedClass>,
        result: Seq<RatedClass>,
        index: int,
        min: RatingType,
    )
        requires
            before.tracks(orig, old_result, min),
            self.same_layout(before),
            0 <= index < before.move_ratings@.len(),
            before.move_ratings@[index] is Equivalency,
            !(self.move_ratings@[index] is Value),
            self.move_ratings@.len() == before.move_ratings@.len(),
            forall|k: int| 0 <= k < self.move_ratings@.len() && k != index ==> self.move_ratings@[k]
                == before.move_ratings@[k],
            result.len() == old_result.len(),
            forall|t: int| 0 <= t < result.len() ==> (#[trigger] result[t]).0 == old_result[t].0 && result[t].1@
                == old_result[t].1@,
        ensures
            self.tracks(orig, result, min),
    {
        reveal(Rater::tracks);
        lemma_count_moved_update(orig, before.move_ratings@, self.move_ratings@, min, orig.len() as int, index);
        assert(!(orig[index] is Value)) by {
            if let Rating::Value(w) = orig[index] {
                assert(before.value_moved(index, w, old_result, min));
            }
        }
        assert forall|k: int| 0 <= k < orig.len() implies (#[trigger] orig[k] matches Rating::Value(w)
            ==> self.value_moved(k, w, result, min)) by {
            assert(self.spec_move_path(k) == before.spec_move_path(k));
            if let Rating::Value(w) = orig[k] {
                assert(before.value_moved(k, w, old_result, min));
                if let Rating::Moved(Some(t)) = before.move_ratings@[k] {
                    assert(result[t as int].0 == old_result[t as int].0);
                }
            }
        }
        assert forall|k: int| 0 <= k < orig.len() && #[trigger] self.move_ratings@[k] is Value implies orig[k]
            == self.move_ratings@[k] by {
            if k != index {
                assert(before.move_ratings@[k] == self.move_ratings@[k]);
            }
        }
        assert forall|t: int| #![trigger result[t]] 0 <= t < result.len() implies exists|k: int| 0 <= k < orig.len()
            && orig[k] == Rating::Value(result[t].0) && #[trigger] self.move_ratings@[k] == Rating::Moved(
            Some(t as IndexType),
        ) by {
            assert(old_result[t] == old_result[t]);
            let k = choose|k: int| 0 <= k < orig.len() && orig[k] == Rating::Value(old_result[t].0)
                && #[trigger] before.move_ratings@[k] == Rating::Moved(Some(t as IndexType));
            assert(k != index);
            assert(self.move_ratings@[k] == Rating::Moved(Some(t as IndexType)));
        }
    }

    /// Moving out move `index`, which has a value, keeps the classes
    /// tracked, where the result only gains an entry without equivalent
    /// moves.
    #[verifier::spinoff_prover]
    proof fn lemma_classes_moved_value(
        &self,
        before: Rater,
        start: Rater,
        old_result: Seq<RatedClass>,
        result: Seq<RatedClass>,
        index: int,
    )
        requires
            before.classes_tracked(start, old_result),
            start.reps_have_values(),
            self.same_layout(before),
            self.rank@ == before.rank@,
            self.floor@ == before.floor@,
            0 <= index < before.move_ratings@.len(),
            before.move_ratings@[index] is Value,
            self.move_ratings@[index] is Moved,
            self.move_ratings@.len() == before.move_ratings@.len(),
            forall|k: int| 0 <= k < self.move_ratings@.len() && k != index ==> self.move_ratings@[k]
                == before.move_ratings@[k],
            result.len() >= old_result.len(),
            forall|t: int| 0 <= t < old_result.len() ==> #[trigger] result[t] == old_result[t],
            forall|t: int| old_result.len() <= t < result.len() ==> (#[trigger] result[t]).2@.len() == 0,
        ensures
            self.classes_tracked(start, result),
    {
        reveal(Rater::classes_tracked);
        let s = start.move_ratings@;
        assert(s[index] == before.move_ratings@[index]);
        assert forall|m: int| 0 <= m < s.len() && !(#[trigger] self.move_ratings@[m] is Moved) implies s[m]
            == self.move_ratings@[m] by {
            assert(m != index);
        }
        assert forall|m: int| #![trigger start.spec_representative(m)] 0 <= m < s.len() && s[m] is Equivalency
            && self.move_ratings@[m] is Moved implies self.move_ratings@[start.spec_representative(m)]
            == self.move_ratings@[m] by {
            assert(m != index);
            assert(before.move_ratings@[m] is Moved);
            assert(before.move_ratings@[start.spec_representative(m)] == before.move_ratings@[m]);
            assert(start.spec_representative(m) != index);
        }
        assert forall|m: int| 0 <= m < s.len() && s[m] is Equivalency && (#[trigger] self.move_ratings@[m] matches Rating::Moved(
            Some(t),
        )) implies self.listed_at(result, self.move_ratings@[m]->Moved_0->Some_0 as int, self.spec_move_path(m)) by {
            assert(m != index);
            assert(self.spec_move_path(m) == before.spec_move_path(m));
            let t = self.move_ratings@[m]->Moved_0->Some_0 as int;
            assert(before.listed_at(old_result, t, before.spec_move_path(m)));
            let q = choose|q: int| 0 <= q < old_result[t].2@.len() && #[trigger] old_result[t].2@[q]@ == before.spec_move_path(m);
            assert(result[t] == old_result[t]);
            assert(result[t].2@[q]@ == self.spec_move_path(m));
        }
        assert forall|t: int, q: int| 0 <= t < result.len() && 0 <= q < result[t].2@.len()
            implies #[trigger] self.has_member(start, result, t, q) by {
            if t < old_result.len() {
                assert(result[t] == old_result[t]);
                assert(old_result[t].2@[q] == old_result[t].2@[q]);
                assert(before.has_member(start, old_result, t, q));
                let m = choose|m: int| #[trigger] before.member_at(start, old_result, t, old_result[t].2@[q]@, m);
                assert(m != index);
                assert(self.spec_move_path(m) == before.spec_move_path(m));
                assert(self.member_at(start, result, t, result[t].2@[q]@, m));
            } else {
                assert(result[t].2@.len() == 0);
            }
        }
    }

    /// Moving out move `index`, which has an equivalency, to where the move
    /// representing its class went, and listing its path there, keeps the
    /// classes tracked.
    #[verifier::spinoff_prover]
    proof fn lemma_classes_relabel(
        &self,
        before: Rater,
        start: Rater,
        old_result: Seq<RatedClass>,
        result: Seq<RatedClass>,
        index: int,
    )
        requires
            before.classes_tracked(start, old_result),
            start.reps_have_values(),
            self.same_layout(before),
            self.rank@ == before.rank@,
            self.floor@ == before.floor@,
            0 <= index < before.move_ratings@.len(),
            before.move_ratings@[index] is Equivalency,
            self.move_ratings@.len() == before.move_ratings@.len(),
            forall|k: int| 0 <= k < self.move_ratings@.len() && k != index ==> self.move_ratings@[k]
                == before.move_ratings@[k],
            self.move_ratings@[index] is Moved,
            self.move_ratings@[index] == before.move_ratings@[start.spec_representative(index)],
            result.len() == old_result.len(),
            forall|t: int| 0 <= t < result.len() ==> (#[trigger] result[t]).2@.len() >= old_result[t].2@.len(),
            forall|t: int, q: int| 0 <= t < result.len() && 0 <= q < old_result[t].2@.len() ==> #[trigger] result[t].2@[q]
                == old_result[t].2@[q],
            forall|t: int, q: int| 0 <= t < result.len() && old_result[t].2@.len() <= q < result[t].2@.len() ==> (
            #[trigger] result[t].2@[q])@ == before.spec_move_path(index) && self.move_ratings@[index] == Rating::Moved(
                Some(t as IndexType),
            ),
            self.move_ratings@[index] matches Rating::Moved(Some(t0)) ==> self.listed_at(
                result,
                t0 as int,
                self.spec_move_path(index),
            ),
        ensures
            self.classes_tracked(start, result),
    {
        reveal(Rater::classes_tracked);
        let s = start.move_ratings@;
        assert(s[index] == before.move_ratings@[index]);
        let ri = start.spec_representative(index);
        assert(s[ri] is Value);
        assert(ri != index);
        assert forall|m: int| 0 <= m < s.len() && !(#[trigger] self.move_ratings@[m] is Moved) implies s[m]
            == self.move_ratings@[m] by {
            assert(m != index);
        }
        assert forall|m: int| #![trigger start.spec_representative(m)] 0 <= m < s.len() && s[m] is Equivalency
            && self.move_ratings@[m] is Moved implies self.move_ratings@[start.spec_representative(m)]
            == self.move_ratings@[m] by {
            let rm = start.spec_representative(m);
            assert(s[rm] is Value);
            assert(rm != index);
            if m != index {
                assert(before.move_ratings@[m] is Moved);
                assert(before.move_ratings@[rm] == before.move_ratings@[m]);
            }
        }
        assert forall|m: int| 0 <= m < s.len() && s[m] is Equivalency && (#[trigger] self.move_ratings@[m] matches Rating::Moved(
            Some(t),
        )) implies self.listed_at(result, self.move_ratings@[m]->Moved_0->Some_0 as int, self.spec_move_path(m)) by {
            if m != index {
                assert(self.spec_move_path(m) == before.spec_move_path(m));
                let t = self.move_ratings@[m]->Moved_0->Some_0 as int;
                assert(before.move_ratings@[m] == self.move_ratings@[m]);
                assert(before.listed_at(old_result, t, before.spec_move_path(m)));
                let q = choose|q: int| 0 <= q < old_result[t].2@.len() && #[trigger] old_result[t].2@[q]@
                    == before.spec_move_path(m);
                assert(result[t].2@[q] == old_result[t].2@[q]);
                assert(result[t].2@[q]@ == self.spec_move_path(m));
            }
        }
        assert forall|t: int, q: int| 0 <= t < result.len() && 0 <= q < result[t].2@.len()
            implies #[trigger] self.has_member(start, result, t, q) by {
            assert(self.spec_move_path(index) == before.spec_move_path(index));
            if q < old_result[t].2@.len() {
                assert(result[t].2@[q] == old_result[t].2@[q]);
                assert(before.has_member(start, old_result, t, q));
                let m = choose|m: int| #[trigger] before.member_at(start, old_result, t, old_result[t].2@[q]@, m);
                assert(m != index);
                assert(self.spec_move_path(m) == before.spec_move_path(m));
                assert(self.member_at(start, result, t, result[t].2@[q]@, m));
            } else {
                assert(result[t].2@[q]@ == before.spec_move_path(index));
                assert(self.member_at(start, result, t, result[t].2@[q]@, index));
            }
        }
    }

    /// Moves the value of move `index` (option `j` of decision `i`) into the
    /// result if it is at least `min`.
    fn move_value(&mut self, i: usize, j: IndexType, index: usize, min: RatingType, result: &mut Vec<RatedClass>)
        requires
            old(self).moving_state(old(result)@, min),
            old(self).spec_valid_move(i as int, j as int),
            index == old(self).spec_move_index(i as int, j as int),
            old(self).move_ratings@[index as int] is Value,
            old(result)@.len() < u32::MAX,
        ensures
            final(self).moving_state(final(result)@, min),
            final(self).same_layout(*old(self)),
            final(self).move_ratings@[index as int] is Moved,
            forall|k: int| 0 <= k < final(self).move_ratings@.len() && k != index ==> final(self).move_ratings@[k]
                == old(self).move_ratings@[k],
            final(result)@.len() <= old(result)@.len() + 1,
            forall|orig: Seq<Rating>| #[trigger] old(self).tracks(orig, old(result)@, min) ==> final(self).tracks(
                orig,
                final(result)@,
                min,
            ),
            final(self).rank@ == old(self).rank@,
            final(self).floor@ == old(self).floor@,
            forall|start: Rater| #[trigger] old(self).classes_tracked(start, old(result)@) && start.wf()
                && start.spec_all_rated() ==> final(self).classes_tracked(start, final(result)@),
            final(result)@.len() >= old(result)@.len(),
            forall|t: int| 0 <= t < old(result)@.len() ==> #[trigger] final(result)@[t] == old(result)@[t],
            forall|start: Rater, mem: Seq<Seq<int>>| #[trigger] old(self).members_listed(start, old(result)@, mem)
                && start.move_ratings@.len() == old(self).move_ratings@.len() && !(start.move_ratings@[index as int] is Equivalency)
                ==> final(self).members_listed(
                start,
                final(result)@,
                if final(result)@.len() > old(result)@.len() { mem.push(Seq::<int>::empty()) } else { mem },
            ),
    {
        let ghost om = self.move_ratings@;
        let ghost before = *self;
        let ghost old_result = result@;
        proof {
            self.lemma_move_path(i as int, j as int);
        }
        match self.move_ratings[index] {
            Rating::Value(val) => {
                if val >= min {
                    let mapped = result.len() as IndexType;
                    let path = self.extended_path(i, j);
                    self.move_ratings.set(index, Rating::Moved(Some(mapped)));
                    result.push((val, path, Vec::new()));
                    assert(result@.drop_last() =~= old_result);
                } else {
                    self.move_ratings.set(index, Rating::Moved(None));
                }
                proof {
                    assert forall|orig: Seq<Rating>| #[trigger] before.tracks(orig, old_result, min) implies self.tracks(
                        orig,
                        result@,
                        min,
                    ) by {
                        self.lemma_tracks_moved_value(before, orig, old_result, result@, index as int, val, min);
                    }
                    assert forall|start: Rater| #[trigger] before.classes_tracked(start, old_result) && start.wf()
                        && start.spec_all_rated() implies self.classes_tracked(start, result@) by {
                        start.lemma_reps_have_values();
                        self.lemma_classes_moved_value(before, start, old_result, result@, index as int);
                    }
                    assert forall|start: Rater, mem: Seq<Seq<int>>| #[trigger] before.members_listed(start, old_result, mem)
                        && start.move_ratings@.len() == before.move_ratings@.len() && !(start.move_ratings@[index as int] is Equivalency)
                        implies self.members_listed(
                        start,
                        result@,
                        if result@.len() > old_result.len() { mem.push(Seq::<int>::empty()) } else { mem },
                    ) by {
                        self.lemma_members_moved_value(before, start, old_result, result@, index as int, mem);
                    }
                    if val >= min {
                        assert(forall|t: int| 0 <= t < old_result.len() ==> result@[t] == result@.drop_last()[t]);
                    }
                }
            },
            _ => {},
        }
        proof {
            let m = self.move_ratings@;
            assert forall|k: int| #![trigger m[k]] 0 <= k < m.len() implies match m[k] {
                Rating::Equivalency(p) => p < m.len() && !(m[p as int] is Unrated) && self.rank@[p as int]
                    < self.rank@[k],
                _ => true,
            } by {
                assert(om[k] == m[k] || k == index);
                assert(match om[k] {
                    Rating::Equivalency(p) => p < om.len() && !(om[p as int] is Unrated),
                    _ => true,
                });
            }
            assert forall|k: int| 0 <= k < m.len() implies match #[trigger] m[k] {
                Rating::Moved(Some(mm)) => mm < result@.len(),
                _ => true,
            } by {
                assert(om[k] == m[k] || k == index);
                assert(match om[k] {
                    Rating::Moved(Some(mm)) => mm < old(result)@.len(),
                    _ => true,
                });
            }
            assert forall|k: int| 0 <= k < m.len() implies !(#[trigger] m[k] is Unrated) by {
                assert(om[k] == m[k] || k == index);
                assert(!(om[k] is Unrated));
            }
        }
    }

    #[verifier::spinoff_prover]
    #[verifier::rlimit(100)]
    fn move_rating_at(&mut self, i: usize, j: IndexType, min: RatingType, result: &mut Vec<RatedClass>)
        requires
            old(self).moving_state(old(result)@, min),
            old(self).spec_valid_move(i as int, j as int),
            old(result)@.len() <= old(self).spec_move_index(i as int, j as int),
        ensures
            final(self).moving_state(final(result)@, min),
            final(self).same_layout(*old(self)),
            final(result)@.len() <= old(result)@.len() + 1,
            forall|orig: Seq<Rating>| #[trigger] old(self).tracks(orig, old(result)@, min) ==> final(self).tracks(
                orig,
                final(result)@,
                min,
            ),
            !(final(self).move_ratings@[old(self).spec_move_index(i as int, j as int)] is Value),
            forall|k: int| 0 <= k < old(self).move_ratings@.len() && !(old(self).move_ratings@[k] is Value)
                ==> !(#[trigger] final(self).move_ratings@[k] is Value),
            final(self).move_ratings@[old(self).spec_move_index(i as int, j as int)] is Moved,
            forall|k: int| 0 <= k < old(self).move_ratings@.len() && old(self).move_ratings@[k] is Moved
                ==> #[trigger] final(self).move_ratings@[k] is Moved,
            forall|start: Rater| #[trigger] old(self).classes_tracked(start, old(result)@) && start.wf()
                && start.spec_all_rated() ==> final(self).classes_tracked(start, final(result)@),
            forall|start: Rater, mem: Seq<Seq<int>>| #[trigger] old(self).members_listed(start, old(result)@, mem)
                && old(self).classes_tracked(start, old(result)@) ==> exists|mem2: Seq<Seq<int>>| #[trigger] final(self).members_listed(
                start,
                final(result)@,
                mem2,
            ),
    {
        let ghost before = *self;
        let ghost old_result = result@;
        let index = self.to_move_index(i, j as usize);
        proof {
            self.lemma_move_path(i as int, j as int);
        }
        match self.move_ratings[index] {
            Rating::Value(_) => {
                self.move_value(i, j, index, min, result);
                proof {
                    self.lemma_members_value(before, old_result, result@, index as int);
                }
            },
            Rating::Equivalency(target) => {
                proof {
                    let m = self.move_ratings@;
                    assert(match m[index as int] {
                        Rating::Equivalency(p) => p < m.len() && !(m[p as int] is Unrated),
                        _ => true,
                    });
                }
                let ghost tp = target;
                let target = self.contracted_target_from_index(index, target as usize);
                proof {
                    assert(self.rank@[tp as int] >= self.floor@);
                    assert(self.spec_representative(index as int) == self.spec_representative(tp as int));
                }
                let is_value = match self.move_ratings[target] {
                    Rating::Value(_) => true,
                    _ => false,
                };
                let ghost pre_value = *self;
                let ghost pre_value_result = result@;
                if is_value {
                    let (ti, tj) = self.decision_containing(target);
                    self.move_value(ti, tj, target, min, result);
                }
                let ghost om = self.move_ratings@;
                let ghost rlen = result@.len();
                let ghost mid = *self;
                let ghost mid_result = result@;
                match self.move_ratings[target] {
                    Rating::Moved(to) => {
                        if let Some(mapped) = to {
                            let path = self.extended_path(i, j);
                            let mut entry = result.remove(mapped as usize);
                            entry.2.push(path);
                            result.insert(mapped as usize, entry);
                            assert(result@ =~= mid_result.update(mapped as int, entry));
                        }
                        self.move_ratings.set(index, Rating::Moved(to));
                        proof {
                            assert forall|orig: Seq<Rating>| #[trigger] before.tracks(orig, old_result, min) implies self.tracks(
                                orig,
                                result@,
                                min,
                            ) by {
                                assert(mid.tracks(orig, mid_result, min));
                                self.lemma_tracks_relabel(mid, orig, mid_result, result@, index as int, min);
                            }
                            let m = self.move_ratings@;
                            assert forall|k: int| #![trigger m[k]] 0 <= k < m.len() implies match m[k] {
                                Rating::Equivalency(p) => p < m.len() && !(m[p as int] is Unrated) && self.rank@[p as int]
                                    < self.rank@[k],
                                _ => true,
                            } by {
                                assert(om[k] == m[k] || k == index);
                                assert(match om[k] {
                                    Rating::Equivalency(p) => p < om.len() && !(om[p as int] is Unrated) && self.rank@[p as int] < self.rank@[k],
                                    _ => true,
                                });
                            }
                            assert forall|k: int| 0 <= k < m.len() implies match #[trigger] m[k] {
                                Rating::Moved(Some(mm)) => mm < result@.len(),
                                _ => true,
                            } by {
                                assert(om[k] == m[k] || k == index);
                                assert(match om[k] {
                                    Rating::Moved(Some(mm)) => mm < rlen,
                                    _ => true,
                                });
                            }
                            assert forall|k: int| 0 <= k < m.len() implies !(#[trigger] m[k] is Unrated) by {
                                assert(om[k] == m[k] || k == index);
                                assert(!(om[k] is Unrated));
                            }
                            assert forall|t: int| 0 <= t < result@.len() implies (#[trigger] result@[t]).0 >= min by {
                            }
                            assert forall|start: Rater| #[trigger] before.classes_tracked(start, old_result) && start.wf()
                                && start.spec_all_rated() implies self.classes_tracked(start, result@) by {
                                start.lemma_reps_have_values();
                                before.lemma_current_representative(start, old_result, index as int);
                                assert(mid.classes_tracked(start, mid_result));
                                assert(mid.move_ratings@[start.spec_representative(index as int)] == mid.move_ratings@[target as int]);
                                if let Some(t0) = to {
                                    let k0 = mid_result[t0 as int].2@.len() as int;
                                    assert(result@[t0 as int].2@[k0]@ == self.spec_move_path(index as int));
                                    assert(self.listed_at(result@, t0 as int, self.spec_move_path(index as int)));
                                }
                                self.lemma_classes_relabel(mid, start, mid_result, result@, index as int);
                            }
                            if let Some(t0) = to {
                                assert(result@[t0 as int].2@ == mid_result[t0 as int].2@.push(result@[t0 as int].2@.last()));
                                assert(result@[t0 as int].2@.last()@ == mid.spec_move_path(index as int));
                                assert(result@ == mid_result.update(
                                    t0 as int,
                                    (mid_result[t0 as int].0, mid_result[t0 as int].1, result@[t0 as int].2),
                                ));
                            }
                            self.lemma_members_equivalent(before, pre_value, mid, old_result, pre_value_result, mid_result, result@, index as int, target as int, is_value);
                        }
                    },
                    _ => {
                        assert(false);
                    },
                }
            },
            _ => {
                assert(*self == before && result@ == old_result);
            },
        }
    }

    /// Moving out move `index`, which has a value, keeps the members listed.
    #[verifier::spinoff_prover]
    proof fn lemma_members_value(&self, before: Rater, old_result: Seq<RatedClass>, result: Seq<RatedClass>, index: int)
        requires
            0 <= index < before.move_ratings@.len(),
            before.move_ratings@[index] is Value,
            forall|start: Rater, mem: Seq<Seq<int>>| #[trigger] before.members_listed(start, old_result, mem)
                && start.move_ratings@.len() == before.move_ratings@.len() && !(start.move_ratings@[index] is Equivalency)
                ==> self.members_listed(
                start,
                result,
                if result.len() > old_result.len() { mem.push(Seq::<int>::empty()) } else { mem },
            ),
        ensures
            forall|start: Rater, mem: Seq<Seq<int>>| #[trigger] before.members_listed(start, old_result, mem)
                && before.classes_tracked(start, old_result) ==> exists|mem2: Seq<Seq<int>>| #[trigger] self.members_listed(
                start,
                result,
                mem2,
            ),
    {
        assert forall|start: Rater, mem: Seq<Seq<int>>| #[trigger] before.members_listed(start, old_result, mem)
            && before.classes_tracked(start, old_result) implies exists|mem2: Seq<Seq<int>>| #[trigger] self.members_listed(
            start,
            result,
            mem2,
        ) by {
            before.lemma_kept_rating(start, old_result, index);
            let mem2 = if result.len() > old_result.len() { mem.push(Seq::<int>::empty()) } else { mem };
            assert(self.members_listed(start, result, mem2));
        }
    }

    /// Moving out move `index`, which has an equivalency (after moving out
    /// the move `target` representing its class where it still had a
    /// value), keeps the members listed.
    #[verifier::spinoff_prover]
    proof fn lemma_members_equivalent(
        &self,
        before: Rater,
        pre_value: Rater,
        mid: Rater,
        old_result: Seq<RatedClass>,
        pre_value_result: Seq<RatedClass>,
        mid_result: Seq<RatedClass>,
        result: Seq<RatedClass>,
        index: int,
        target: int,
        is_value: bool,
    )
        requires
            pre_value == before,
            pre_value_result == old_result,
            0 <= index < before.move_ratings@.len(),
            0 <= target < before.move_ratings@.len(),
            before.move_ratings@[index] is Equivalency,
            is_value == (before.move_ratings@[target] is Value),
            !is_value ==> mid == before && mid_result == old_result,
            is_value ==> forall|start: Rater, mem: Seq<Seq<int>>| #[trigger] pre_value.members_listed(
                start,
                pre_value_result,
                mem,
            ) && start.move_ratings@.len() == pre_value.move_ratings@.len() && !(start.move_ratings@[target] is Equivalency)
                ==> mid.members_listed(
                start,
                mid_result,
                if mid_result.len() > pre_value_result.len() { mem.push(Seq::<int>::empty()) } else { mem },
            ),
            mid.move_ratings@.len() == before.move_ratings@.len(),
            mid.move_ratings@[index] == before.move_ratings@[index],
            self.same_layout(mid),
            self.move_ratings@.len() == mid.move_ratings@.len(),
            forall|k: int| 0 <= k < self.move_ratings@.len() && k != index ==> self.move_ratings@[k] == mid.move_ratings@[k],
            self.move_ratings@[index] is Moved,
            result.len() == mid_result.len(),
            self.move_ratings@[index] is Moved && self.move_ratings@[index]->Moved_0 is None ==> result == mid_result,
            self.move_ratings@[index] matches Rating::Moved(Some(t0)) ==> (t0 < result.len() && result == mid_result.update(
                t0 as int,
                (mid_result[t0 as int].0, mid_result[t0 as int].1, result[t0 as int].2),
            ) && result[t0 as int].2@ == mid_result[t0 as int].2@.push(result[t0 as int].2@.last())
                && result[t0 as int].2@.last()@ == mid.spec_move_path(index)),
        ensures
            forall|start: Rater, mem: Seq<Seq<int>>| #[trigger] before.members_listed(start, old_result, mem)
                && before.classes_tracked(start, old_result) ==> exists|mem2: Seq<Seq<int>>| #[trigger] self.members_listed(
                start,
                result,
                mem2,
            ),
    {
        assert forall|start: Rater, mem: Seq<Seq<int>>| #[trigger] before.members_listed(start, old_result, mem)
            && before.classes_tracked(start, old_result) implies exists|mem2: Seq<Seq<int>>| #[trigger] self.members_listed(
            start,
            result,
            mem2,
        ) by {
            before.lemma_kept_rating(start, old_result, index);
            let mem1 = if is_value {
                before.lemma_kept_rating(start, old_result, target);
                if mid_result.len() > old_result.len() { mem.push(Seq::<int>::empty()) } else { mem }
            } else {
                mem
            };
            assert(mid.members_listed(start, mid_result, mem1));
            self.lemma_members_relabel(mid, start, mid_result, result, index, mem1);
        }
    }

    /// The move that an entry of a tracked result stems from.
    #[verifier::spinoff_prover]
    proof fn lemma_tracked_entry(&self, orig: Seq<Rating>, result: Seq<RatedClass>, min: RatingType, a: int) -> (k: int)
        requires
            self.tracks(orig, result, min),
            0 <= a < result.len(),
            result.len() < u32::MAX,
        ensures
            0 <= k < orig.len(),
            orig[k] == Rating::Value(result[a].0),
            result[a].0 >= min,
            result[a].1@ == self.spec_move_path(k),
    {
        reveal(Rater::tracks);
        let k = choose|k: int| 0 <= k < orig.len() && orig[k] == Rating::Value(result[a].0)
            && #[trigger] self.move_ratings@[k] == Rating::Moved(Some(a as IndexType));
        assert(orig[k] matches Rating::Value(w) ==> self.value_moved(k, w, result, min));
        k
    }

    /// Once no move has a value left, each entry of `result` is a move of
    /// the cut list of `start`, with its value and path.
    #[verifier::spinoff_prover]
    proof fn lemma_classes_listed(start: Rater, rater: Rater, orig: Seq<Rating>, result: Seq<RatedClass>, min: RatingType)
        requires
            start.wf(),
            orig == start.move_ratings@,
            rater.tracks(orig, result, min),
            result.len() < u32::MAX,
            rater.same_layout(start),
        ensures
            forall|a: int| 0 <= a < result.len() ==> class_listed_in(#[trigger] result[a], start.spec_cut_moves(min)),
    {
        let n = orig.len() as int;
        let l = start.spec_cut_moves(min);
        assert forall|a: int| 0 <= a < result.len() implies class_listed_in(#[trigger] result[a], l) by {
            let k = rater.lemma_tracked_entry(orig, result, min, a);
            assert(start.spec_ratings()[k] == orig[k]);
            assert(rater.spec_move_path(k) == start.spec_move_path(k));
            let t = start.lemma_cut_list_complete(min, n, k);
            assert(l[t].0 == result[a].0);
            assert(l[t].1 == result[a].1@);
        }
    }

    /// Where every move with a value of at least `min` has been moved out,
    /// the count of moved moves is the length of the cut list.
    #[verifier::spinoff_prover]
    proof fn lemma_count_all_moved(start: Rater, cur: Seq<Rating>, min: RatingType, n: int)
        requires
            0 <= n <= start.move_ratings@.len(),
            cur.len() == start.move_ratings@.len(),
            forall|k: int| #![trigger cur[k]] 0 <= k < n && start.move_ratings@[k] is Value
                && start.move_ratings@[k]->Value_0 >= min ==> cur[k] is Moved,
        ensures
            count_moved(start.move_ratings@, cur, min, n) == start.spec_cut_list(min, n).len(),
        decreases n,
    {
        if n > 0 {
            Self::lemma_count_all_moved(start, cur, min, n - 1);
            let m = start.move_ratings@;
            assert(cur[n - 1] == cur[n - 1]);
            if m[n - 1] is Value && m[n - 1]->Value_0 >= min {
                assert(start.spec_cut_list(min, n) == start.spec_cut_list(min, n - 1).push(
                    (m[n - 1]->Value_0, start.spec_move_path(n - 1)),
                ));
            } else {
                assert(start.spec_cut_list(min, n) == start.spec_cut_list(min, n - 1));
            }
        }
    }

    /// Once no move has a value left, `result` has as many entries as the
    /// cut list of `start`.
    #[verifier::spinoff_prover]
    proof fn lemma_classes_count(start: Rater, rater: Rater, orig: Seq<Rating>, result: Seq<RatedClass>, min: RatingType)
        requires
            start.wf(),
            orig == start.move_ratings@,
            rater.tracks(orig, result, min),
            forall|k: int| 0 <= k < rater.move_ratings@.len() ==> !(#[trigger] rater.move_ratings@[k] is Value),
        ensures
            result.len() == start.spec_cut_moves(min).len(),
    {
        reveal(Rater::tracks);
        let cur = rater.move_ratings@;
        assert forall|k: int| #![trigger cur[k]] 0 <= k < orig.len() && orig[k] is Value && orig[k]->Value_0 >= min
            implies cur[k] is Moved by {
            assert(orig[k] matches Rating::Value(w) ==> rater.value_moved(k, w, result, min));
            assert(!(cur[k] is Value));
        }
        Self::lemma_count_all_moved(start, cur, min, orig.len() as int);
    }

    /// At the start, nothing has been moved and every rating is kept.
    proof fn lemma_classes_start(&self)
        ensures
            self.classes_tracked(*self, Seq::<RatedClass>::empty()),
            self.members_listed(*self, Seq::<RatedClass>::empty(), Seq::<Seq<int>>::empty()),
    {
        reveal(Rater::classes_tracked);
        reveal(Rater::members_listed);
    }

    /// Once every move has been moved out, each class lists the paths of
    /// distinct moves equivalent to the move of the class.
    #[verifier::spinoff_prover]
    proof fn lemma_members_once(start: Rater, rater: Rater, result: Seq<RatedClass>, min: RatingType, mem: Seq<Seq<int>>)
        requires
            start.wf(),
            start.spec_all_rated(),
            rater.tracks(start.move_ratings@, result, min),
            rater.classes_tracked(start, result),
            rater.members_listed(start, result, mem),
            rater.same_layout(start),
            result.len() < u32::MAX,
        ensures
            forall|t: int| 0 <= t < result.len() ==> #[trigger] lists_each_once(start, result[t]),
    {
        reveal(Rater::classes_tracked);
        reveal(Rater::tracks);
        reveal(Rater::members_listed);
        start.lemma_reps_have_values();
        let s = start.move_ratings@;
        let c = rater.move_ratings@;
        assert forall|t: int| 0 <= t < result.len() implies #[trigger] lists_each_once(start, result[t]) by {
            let ml = mem[t];
            assert(ml.len() == result[t].2@.len() && ml.no_duplicates());
            assert forall|q: int| 0 <= q < ml.len() implies #[trigger] equivalent_member(start, result[t], result[t].2@[q]@, ml[q]) by {
                let m = ml[q];
                assert(rater.member_at(start, result, t, result[t].2@[q]@, m));
                let rm = start.spec_representative(m);
                assert(s[rm] is Value);
                assert(c[rm] == c[m]);
                assert(s[rm] matches Rating::Value(w) ==> rater.value_moved(rm, w, result, min));
                assert(rater.spec_move_path(rm) == start.spec_move_path(rm));
                assert(rater.spec_move_path(m) == start.spec_move_path(m));
            }
            assert(member_list(ml));
        }
    }

    /// Once every move has been moved out, each listed path of a class is
    /// that of a move equivalent to the move of the class, and every move
    /// with an equivalency whose class has a value of at least `min` is
    /// listed in its class.
    #[verifier::spinoff_prover]
    proof fn lemma_class_members(start: Rater, rater: Rater, result: Seq<RatedClass>, min: RatingType)
        requires
            start.wf(),
            start.spec_all_rated(),
            rater.tracks(start.move_ratings@, result, min),
            rater.classes_tracked(start, result),
            rater.same_layout(start),
            forall|k: int| 0 <= k < rater.move_ratings@.len() ==> #[trigger] rater.move_ratings@[k] is Moved,
            result.len() < u32::MAX,
        ensures
            forall|t: int, q: int| 0 <= t < result.len() && 0 <= q < result[t].2@.len() ==> #[trigger] lists_equivalent(
                start,
                result[t],
                q,
            ),
            forall|m: int| 0 <= m < start.spec_ratings().len() && start.spec_ratings()[m] is Equivalency
                && start.spec_ratings()[start.spec_representative(m)]->Value_0 >= min ==> #[trigger] listed_with_class(
                start,
                result,
                m,
            ),
    {
        reveal(Rater::classes_tracked);
        reveal(Rater::tracks);
        start.lemma_reps_have_values();
        let s = start.move_ratings@;
        let c = rater.move_ratings@;
        assert forall|t: int, q: int| 0 <= t < result.len() && 0 <= q < result[t].2@.len() implies #[trigger] lists_equivalent(
            start,
            result[t],
            q,
        ) by {
            assert(rater.has_member(start, result, t, q));
            let m = choose|m: int| #[trigger] rater.member_at(start, result, t, result[t].2@[q]@, m);
            let rm = start.spec_representative(m);
            assert(s[rm] is Value);
            assert(c[rm] == c[m]);
            assert(s[rm] matches Rating::Value(w) ==> rater.value_moved(rm, w, result, min));
            assert(rater.spec_move_path(rm) == start.spec_move_path(rm));
            assert(rater.spec_move_path(m) == start.spec_move_path(m));
            assert(equivalent_member(start, result[t], result[t].2@[q]@, m));
        }
        assert forall|m: int| 0 <= m < start.spec_ratings().len() && start.spec_ratings()[m] is Equivalency
            && start.spec_ratings()[start.spec_representative(m)]->Value_0 >= min implies #[trigger] listed_with_class(
            start,
            result,
            m,
        ) by {
            let rm = start.spec_representative(m);
            assert(s[rm] is Value);
            assert(c[m] is Moved);
            assert(c[rm] == c[m]);
            assert(s[rm] matches Rating::Value(w) ==> rater.value_moved(rm, w, result, min));
            assert(c[rm] is Moved);
            let t = c[m]->Moved_0->Some_0 as int;
            assert(rater.listed_at(result, t, rater.spec_move_path(m)));
            let q = choose|q: int| 0 <= q < result[t].2@.len() && #[trigger] result[t].2@[q]@ == rater.spec_move_path(m);
            assert(rater.spec_move_path(rm) == start.spec_move_path(rm));
            assert(rater.spec_move_path(m) == start.spec_move_path(m));
            assert(equivalent_member(start, result[t], result[t].2@[q]@, m));
        }
    }

    /// Once no move has a value left, each move of the cut list of `start`
    /// has an entry with its value and path in `result`.
    #[verifier::spinoff_prover]
    proof fn lemma_classes_present(start: Rater, rater: Rater, orig: Seq<Rating>, result: Seq<RatedClass>, min: RatingType)
        requires
            start.wf(),
            orig == start.move_ratings@,
            rater.tracks(orig, result, min),
            result.len() < u32::MAX,
            rater.same_layout(start),
            forall|k: int| 0 <= k < rater.move_ratings@.len() ==> !(#[trigger] rater.move_ratings@[k] is Value),
        ensures
            forall|t: int| 0 <= t < start.spec_cut_moves(min).len() ==> class_present_in(
                #[trigger] start.spec_cut_moves(min)[t],
                result,
            ),
    {
        reveal(Rater::tracks);
        let n = orig.len() as int;
        let l = start.spec_cut_moves(min);
        start.lemma_cut_list_sound(min, n);
        assert forall|t: int| 0 <= t < l.len() implies class_present_in(#[trigger] l[t], result) by {
            let k = choose|k: int| 0 <= k < n && start.spec_ratings()[k] == Rating::Value(
                (#[trigger] start.spec_cut_list(min, n)[t]).0,
            ) && start.spec_cut_list(min, n)[t].0 >= min && start.spec_cut_list(min, n)[t].1 == start.spec_move_path(k);
            assert(orig[k] matches Rating::Value(w) ==> rater.value_moved(k, w, result, min));
            assert(rater.spec_move_path(k) == start.spec_move_path(k));
            assert(!(rater.move_ratings@[k] is Value));
            let a = rater.move_ratings@[k]->Moved_0->Some_0;
            assert(result[a as int].0 == l[t].0 && result[a as int].1@ == l[t].1);
        }
    }

    /// Like `cut_and_sort`, but every value that represents an equivalency
    /// class carries the paths of the equivalent moves.  The result is sorted
    /// by decreasing value and only holds values of at least `min`.
    #[verifier::spinoff_prover]
    pub fn cut_and_sort_with_equivalency(self, min: RatingType) -> (r: Vec<RatedClass>)
        requires
            self.wf(),
            self.spec_all_rated(),
        ensures
            sorted_desc(r@),
            forall|a: int| 0 <= a < r@.len() ==> (#[trigger] r@[a]).0 >= min,
            r@.len() == self.spec_cut_moves(min).len(),
            forall|a: int| 0 <= a < r@.len() ==> class_listed_in(#[trigger] r@[a], self.spec_cut_moves(min)),
            forall|t: int| 0 <= t < self.spec_cut_moves(min).len() ==> class_present_in(
                #[trigger] self.spec_cut_moves(min)[t],
                r@,
            ),
            forall|a: int, q: int| 0 <= a < r@.len() && 0 <= q < r@[a].2@.len() ==> #[trigger] lists_equivalent(
                self,
                r@[a],
                q,
            ),
            forall|m: int| 0 <= m < self.spec_ratings().len() && self.spec_ratings()[m] is Equivalency
                && self.spec_ratings()[self.spec_representative(m)]->Value_0 >= min ==> #[trigger] listed_with_class(
                self,
                r@,
                m,
            ),
            forall|a: int| 0 <= a < r@.len() ==> #[trigger] lists_each_once(self, r@[a]),
    {
        let ghost start = self;
        let ghost orig = self.move_ratings@;
        let mut rater = self;
        let mut result: Vec<RatedClass> = Vec::new();
        proof {
            reveal(Rater::tracks);
            assert forall|k: int| 0 <= k < orig.len() implies (#[trigger] orig[k] matches Rating::Value(w)
                ==> rater.value_moved(k, w, result@, min)) by {}
            lemma_count_moved_none(orig, orig, min, orig.len() as int);
            rater.lemma_classes_start();
            assert(rater.members_listed(start, result@, Seq::<Seq<int>>::empty()));
        }
        let n = rater.num_decisions();
        let mut i: usize = 0;
        while i < n
            invariant
                rater.moving_state(result@, min),
                n == rater.spec_num_decisions(),
                i <= n,
                result@.len() <= rater.start_index@[i as int],
                rater.tracks(orig, result@, min),
                rater.same_layout(start),
                forall|k: int| 0 <= k < rater.start_index@[i as int] ==> !(#[trigger] rater.move_ratings@[k] is Value),
                forall|k: int| 0 <= k < rater.start_index@[i as int] ==> #[trigger] rater.move_ratings@[k] is Moved,
                rater.classes_tracked(start, result@),
                exists|mem: Seq<Seq<int>>| #[trigger] rater.members_listed(start, result@, mem),
                start.wf(),
                start.spec_all_rated(),
            decreases n - i,
        {
            let range = rater.option_count(i) as IndexType;
            let mut j: IndexType = 0;
            while j < range
                invariant
                    rater.moving_state(result@, min),
                    n == rater.spec_num_decisions(),
                    i < n,
                    range == rater.spec_option_count(i as int),
                    j <= range,
                    result@.len() <= rater.spec_move_index(i as int, j as int),
                    rater.tracks(orig, result@, min),
                    rater.same_layout(start),
                    forall|k: int| 0 <= k < rater.spec_move_index(i as int, j as int) ==> !(
                    #[trigger] rater.move_ratings@[k] is Value),
                    forall|k: int| 0 <= k < rater.spec_move_index(i as int, j as int) ==> #[trigger] rater.move_ratings@[k] is Moved,
                    rater.classes_tracked(start, result@),
                    exists|mem: Seq<Seq<int>>| #[trigger] rater.members_listed(start, result@, mem),
                    start.wf(),
                    start.spec_all_rated(),
                decreases range - j,
            {
                proof {
                    assert(rater.start_index@[i + 1] <= rater.move_ratings@.len()) by {
                        if i + 1 < rater.start_index@.len() - 1 {
                            assert(rater.start_index@[i + 1] < rater.start_index@[rater.start_index@.len() - 1]);
                        }
                    }
                }
                rater.move_rating_at(i, j, min, &mut result);
                j += 1;
            }
            i += 1;
        }
        proof {
            assert(rater.start_index@[n as int] == rater.move_ratings@.len());
            Self::lemma_classes_listed(start, rater, orig, result@, min);
            Self::lemma_classes_present(start, rater, orig, result@, min);
            Self::lemma_classes_count(start, rater, orig, result@, min);
            Self::lemma_class_members(start, rater, result@, min);
            let mem = choose|mem: Seq<Seq<int>>| #[trigger] rater.members_listed(start, result@, mem);
            Self::lemma_members_once(start, rater, result@, min, mem);
        }
        let ghost pre = result@;
        let sorted = sort_descending(result);
        proof {
            assert(sorted@.len() == sorted@.to_multiset().len());
            assert(pre.len() == pre.to_multiset().len());
            assert forall|a: int| 0 <= a < sorted@.len() implies (#[trigger] sorted@[a]).0 >= min by {
                assert(sorted@.to_multiset().count(sorted@[a]) > 0);
                assert(result@.contains(sorted@[a]));
            }
            assert forall|a: int| 0 <= a < sorted@.len() implies class_listed_in(
                #[trigger] sorted@[a],
                start.spec_cut_moves(min),
            ) by {
                assert(sorted@.to_multiset().count(sorted@[a]) > 0);
                assert(pre.contains(sorted@[a]));
                let b = choose|b: int| 0 <= b < pre.len() && pre[b] == sorted@[a];
                assert(class_listed_in(pre[b], start.spec_cut_moves(min)));
            }
            assert forall|t: int| 0 <= t < start.spec_cut_moves(min).len() implies class_present_in(
                #[trigger] start.spec_cut_moves(min)[t],
                sorted@,
            ) by {
                assert(class_present_in(start.spec_cut_moves(min)[t], pre));
                let b = choose|b: int| 0 <= b < pre.len() && (#[trigger] pre[b]).0 == start.spec_cut_moves(min)[t].0
                    && pre[b].1@ == start.spec_cut_moves(min)[t].1;
                assert(pre.to_multiset().count(pre[b]) > 0);
                assert(sorted@.contains(pre[b]));
                let a = choose|a: int| 0 <= a < sorted@.len() && sorted@[a] == pre[b];
            }
            assert forall|a: int, q: int| 0 <= a < sorted@.len() && 0 <= q < sorted@[a].2@.len() implies #[trigger] lists_equivalent(
                start,
                sorted@[a],
                q,
            ) by {
                assert(sorted@.to_multiset().count(sorted@[a]) > 0);
                assert(pre.contains(sorted@[a]));
                let b = choose|b: int| 0 <= b < pre.len() && pre[b] == sorted@[a];
                assert(lists_equivalent(start, pre[b], q));
            }
            assert forall|m: int| 0 <= m < start.spec_ratings().len() && start.spec_ratings()[m] is Equivalency
                && start.spec_ratings()[start.spec_representative(m)]->Value_0 >= min implies #[trigger] listed_with_class(
                start,
                sorted@,
                m,
            ) by {
                assert(listed_with_class(start, pre, m));
                let (b, q) = choose|b: int, q: int| 0 <= b < pre.len() && 0 <= q < pre[b].2@.len()
                    && #[trigger] equivalent_member(start, pre[b], pre[b].2@[q]@, m);
                assert(pre.to_multiset().count(pre[b]) > 0);
                assert(sorted@.contains(pre[b]));
                let a = choose|a: int| 0 <= a < sorted@.len() && sorted@[a] == pre[b];
                assert(equivalent_member(start, sorted@[a], sorted@[a].2@[q]@, m));
            }
            assert forall|a: int| 0 <= a < sorted@.len() implies #[trigger] lists_each_once(start, sorted@[a]) by {
                assert(sorted@.to_multiset().count(sorted@[a]) > 0);
                assert(pre.contains(sorted@[a]));
                let b = choose|b: int| 0 <= b < pre.len() && pre[b] == sorted@[a];
                assert(lists_each_once(start, pre[b]));
            }
        }
        sorted
    }
}

impl Rater {
    /// Every move has a value or an equivalency.
    pub fn all_rated(&self) -> (r: bool)
        requires
            self.wf(),
        ensures
            r == (forall|k: int| 0 <= k < self.spec_ratings().len() ==> (#[trigger] self.spec_ratings()[k] is Value
                || self.spec_ratings()[k] is Equivalency)),
    {
        let mut k: usize = 0;
        while k < self.move_ratings.len()
            invariant
                k <= self.move_ratings@.len(),
                forall|a: int| 0 <= a < k ==> (#[trigger] self.move_ratings@[a] is Value || self.move_ratings@[a] is Equivalency),
            decreases self.move_ratings@.len() - k,
        {
            match self.move_ratings[k] {
                Rating::Value(_) | Rating::Equivalency(_) => {},
                _ => {
                    return false;
                },
            }
            k += 1;
        }
        true
    }

    /// Some move has a value.
    pub open spec fn spec_has_value(&self) -> bool {
        exists|k: int| 0 <= k < self.spec_ratings().len() && #[trigger] self.spec_ratings()[k] is Value
    }

    /// `m` is the lowest value among the moves.
    pub open spec fn spec_is_lowest_value(&self, m: RatingType) -> bool {
        &&& exists|k: int| 0 <= k < self.spec_ratings().len() && #[trigger] self.spec_ratings()[k] == Rating::Value(m)
        &&& forall|k: int| 0 <= k < self.spec_ratings().len() ==> (#[trigger] self.spec_ratings()[k] matches Rating::Value(
            v,
        ) ==> m <= v)
    }

    /// The lowest value among the moves, if any move has a value.
    pub fn min_value(&self) -> (r: Option<RatingType>)
        ensures
            r matches Some(m) ==> exists|k: int| 0 <= k < self.spec_ratings().len() && #[trigger] self.spec_ratings()[k] == Rating::Value(m),
            r matches Some(m) ==> forall|k: int| 0 <= k < self.spec_ratings().len() ==> (#[trigger] self.spec_ratings()[k] matches Rating::Value(v) ==> m <= v),
            r is None ==> forall|k: int| 0 <= k < self.spec_ratings().len() ==> !(#[trigger] self.spec_ratings()[k] is Value),
    {
        let mut best: Option<RatingType> = None;
        let mut k: usize = 0;
        while k < self.move_ratings.len()
            invariant
                k <= self.move_ratings@.len(),
                best matches Some(m) ==> exists|a: int| 0 <= a < k && #[trigger] self.move_ratings@[a] == Rating::Value(m),
                best matches Some(m) ==> forall|a: int| 0 <= a < k ==> (#[trigger] self.move_ratings@[a] matches Rating::Value(v) ==> m <= v),
                best is None ==> forall|a: int| 0 <= a < k ==> !(#[trigger] self.move_ratings@[a] is Value),
            decreases self.move_ratings@.len() - k,
        {
            match self.move_ratings[k] {
                Rating::Value(v) => {
                    match best {
                        Some(m) => {
                            if v < m {
                                best = Some(v);
                            }
                        },
                        None => {
                            best = Some(v);
                        },
                    }
                },
                _ => {},
            }
            k += 1;
        }
        best
    }

    /// Creates a rater for all bottom-level decisions that can be reached
    /// from the pending decision of the engine (see `for_each_decision_flat`)
    /// and returns it with the contexts of these decisions.  The engine ends
    /// in the state it started in.
    pub fn new<T: GameData, L: EventListener<T>, F>(engine: &mut Engine<T, L>, type_mapping: F) -> (r: Result<(Self, Vec<T::Context>), MinMaxError>)
        where
            F: Fn(&T::Context) -> DecisionType,
        requires
            old(engine).wf(),
            old(engine).spec_is_pending_decision(),
            forall|c: &T::Context| #[trigger] type_mapping.requires((c,)),
        ensures
            final(engine).wf(),
            r is Ok ==> final(engine).spec_is_pending_decision() && final(engine).spec_level() == old(engine).spec_level(),
            r matches Ok((rater, contexts)) ==> rater.wf() && rater.spec_num_decisions() == contexts@.len()
                && rater.spec_max_rating() == i32::MIN
                && forall|k: int| 0 <= k < rater.spec_ratings().len() ==> #[trigger] rater.spec_ratings()[k] == Rating::Unrated,
            r is Err ==> r == Err::<(Self, Vec<T::Context>), MinMaxError>(MinMaxError::InvalidGame),
            only_bottom::<T, F>(&type_mapping) ==> (r is Ok <==> 0 < old(engine).spec_option_count() < u32::MAX),
            only_bottom::<T, F>(&type_mapping) ==> (r matches Ok((rater, contexts)) ==> rater.spec_num_decisions() == 1
                && rater.spec_option_count(0) == old(engine).spec_option_count()
                && rater.spec_decision_path(0) == Seq::<IndexType>::empty()
                && old(engine).spec_decision().spec_context_of(&old(engine).spec_data(), contexts@[0])
                && *final(engine) == *old(engine)),
            r is Ok ==> final(engine).spec_same_decisions(*old(engine)),
            r matches Ok((rater, contexts)) ==> exists|entries: Seq<(usize, Vec<IndexType>, T::Context)>| #[trigger] decisions_below(
                MAX_NESTING as int,
                *old(engine),
                Seq::empty(),
                &type_mapping,
                entries,
            ) && rater_lists(rater, contexts@, entries),
            r matches Ok((rater, contexts)) ==> forall|i: int| 0 <= i < rater.spec_num_decisions() ==> #[trigger] reaches_bottom(
                *old(engine),
                as_positions(rater.spec_decision_path(i)),
                rater.spec_option_count(i) as usize,
                contexts@[i],
                &type_mapping,
            ),
    {
        let ghost bottom = only_bottom::<T, F>(&type_mapping);
        let decisions = for_each_decision_flat(engine, type_mapping)?;
        let ghost d0 = decisions@[0];
        let ghost all = decisions@;
        let mut counts: Vec<usize> = Vec::new();
        let mut paths: Vec<Vec<IndexType>> = Vec::new();
        let mut contexts: Vec<T::Context> = Vec::new();
        let mut total: usize = 0;
        let mut src = decisions;
        let ghost level = engine.spec_level();
        while src.len() > 0
            invariant
                engine.wf(),
                engine.spec_is_pending_decision(),
                engine.spec_level() == level,
                level == old(engine).spec_level(),
                counts@.len() == paths@.len(),
                counts@.len() == contexts@.len(),
                forall|i: int| 0 <= i < counts@.len() ==> counts@[i] > 0,
                total == spec_sum(counts@, counts@.len() as int),
                total < u32::MAX,
                bottom == only_bottom::<T, F>(&type_mapping),
                bottom ==> *engine == *old(engine),
                bottom ==> counts@.len() + src@.len() == 1,
                bottom ==> bottom_entry(*old(engine), Seq::empty(), d0),
                bottom && src@.len() == 1 ==> src@[0] == d0,
                bottom && counts@.len() == 1 ==> counts@[0] == d0.0 && paths@[0]@ == d0.1@ && contexts@[0] == d0.2,
                engine.spec_same_decisions(*old(engine)),
                counts@.len() + src@.len() == all.len(),
                forall|k: int| 0 <= k < src@.len() ==> src@[k] == all[counts@.len() + k],
                forall|k: int| #![trigger all[k]] 0 <= k < counts@.len() ==> counts@[k] == all[k].0 && paths@[k]@ == all[k].1@
                    && contexts@[k] == all[k].2,
                forall|k: int| 0 <= k < all.len() ==> #[trigger] reaches_bottom(
                    *old(engine),
                    as_positions(all[k].1@),
                    all[k].0,
                    all[k].2,
                    &type_mapping,
                ),
            decreases src@.len(),
        {
            let ghost src_before = src@;
            let (count, path, context) = src.remove(0);
            proof {
                if bottom {
                    assert(src_before[0] == d0);
                    assert(counts@.len() == 0);
                    assert(total == 0);
                    assert(count == d0.0);
                    assert(d0.0 == old(engine).spec_option_count());
                }
            }
            if count == 0 || count >= u32::MAX as usize - total {
                return Err(MinMaxError::InvalidGame);
            }
            let ghost old_counts = counts@;
            counts.push(count);
            proof {
                lemma_sum_prefix_mono(counts@, old_counts.len() as int, counts@.len() as int);
                assert(counts@.subrange(0, old_counts.len() as int) =~= old_counts);
                lemma_sum_prefix_eq(counts@, old_counts, old_counts.len() as int);
            }
            paths.push(path);
            contexts.push(context);
            total = total + count;
            proof {
                assert(src_before[0] == all[counts@.len() - 1]);
            }
        }
        proof {
            if bottom {
                assert(spec_sum(counts@, 1) == spec_sum(counts@, 0) + counts@[0]);
            }
        }
        let ghost pv = paths@;
        let rater = Self::from_decisions(&counts, paths);
        proof {
            assert forall|i: int| 0 <= i < all.len() implies (#[trigger] all[i]).0 == rater.spec_option_count(i)
                && all[i].1@ == rater.spec_decision_path(i) && all[i].2 == contexts@[i] by {
                assert(counts@.len() == all.len());
                assert(0 <= i < counts@.len());
                assert(counts@[i] == all[i].0);
                assert(pv[i]@ == all[i].1@);
            }
            assert(rater_lists(rater, contexts@, all));
            assert forall|i: int| 0 <= i < rater.spec_num_decisions() implies #[trigger] reaches_bottom(
                *old(engine),
                as_positions(rater.spec_decision_path(i)),
                rater.spec_option_count(i) as usize,
                contexts@[i],
                &type_mapping,
            ) by {
                assert(all[i].0 == rater.spec_option_count(i) && all[i].1@ == rater.spec_decision_path(i)
                    && all[i].2 == contexts@[i]);
                assert(reaches_bottom(*old(engine), as_positions(all[i].1@), all[i].0, all[i].2, &type_mapping));
            }
            assert(decisions_below(MAX_NESTING as int, *old(engine), Seq::empty(), &type_mapping, all));
        }
        Ok((rater, contexts))
    }

    /// Exists primarily for testing purposes: rates the moves of the pending
    /// decision of the engine and returns the moves with a value of at least
    /// the lowest value, sorted by decreasing value.
    #[verifier::spinoff_prover]
    pub fn create_rating<T: GameData, L: EventListener<T>, R: RateAndMap<T>>(
        engine: &mut Engine<T, L>,
        r_a_m: &R,
    ) -> (r: Result<Vec<(RatingType, Vec<usize>)>, MinMaxError>)
        requires
            old(engine).wf(),
            old(engine).spec_is_pending_decision(),
        ensures
            final(engine).wf(),
            r matches Ok(v) ==> forall|a: int, b: int| 0 <= a < b < v@.len() ==> v@[a].0 >= v@[b].0,
            r is Err ==> r == Err::<Vec<(RatingType, Vec<usize>)>, MinMaxError>(MinMaxError::InvalidGame),
            r matches Ok(v) ==> v@.len() > 0,
            r matches Ok(v) ==> exists|rated: Rater| #[trigger] rated_result(rated, v@) && rated.wf(),
    {
        let (mut rater, context_list) = Self::new(engine, |c: &T::Context| r_a_m.apply_type_mapping(c))?;
        let no_context: Vec<(T::Context, usize)> = Vec::new();
        r_a_m.rate_moves(&mut rater, &context_list, engine.data(), &no_context);
        let ghost rated = rater;
        let r = rater.rated_moves();
        proof {
            if r is Ok {
                let v = r->Ok_0@;
                assert(rated.wf() && rated_result(rated, v));
                reveal(rated_result);
                reveal(rated_cut);
                let min = choose|min: RatingType| #[trigger] rated.spec_is_lowest_value(min) && rated_cut(rated, min, v);
                let k = choose|k: int| 0 <= k < rated.spec_ratings().len() && #[trigger] rated.spec_ratings()[k]
                    == Rating::Value(min);
                let t = rated.lemma_cut_list_complete(min, rated.spec_ratings().len() as int, k);
            }
        }
        r
    }

    /// The moves with the lowest value or more, with their paths, sorted by
    /// decreasing value: every move with a value, as each has at least the
    /// lowest one.  Fails if a move is unrated or no move has a value.
    #[verifier::spinoff_prover]
    pub fn rated_moves(self) -> (r: Result<Vec<(RatingType, Vec<usize>)>, MinMaxError>)
        requires
            self.wf(),
        ensures
            r is Err <==> !self.spec_all_rated() || !self.spec_has_value(),
            r is Err ==> r == Err::<Vec<(RatingType, Vec<usize>)>, MinMaxError>(MinMaxError::InvalidGame),
            r matches Ok(v) ==> rated_result(self, v@),
    {
        if !self.all_rated() {
            return Err(MinMaxError::InvalidGame);
        }
        let min = match self.min_value() {
            Some(m) => m,
            None => {
                return Err(MinMaxError::InvalidGame);
            },
        };
        proof {
            let k = choose|k: int| 0 <= k < self.spec_ratings().len() && #[trigger] self.spec_ratings()[k] == Rating::Value(min);
            let t = self.lemma_cut_list_complete(min, self.spec_ratings().len() as int, k);
        }
        let ghost rated = self;
        let result = self.cut_and_sort(min);
        proof {
            assert(rated.spec_cut_moves(min).len() > 0);
            assert(present_in(rated.spec_cut_moves(min)[0], result@));
        }
        let mut out: Vec<(RatingType, Vec<usize>)> = Vec::new();
        let mut k: usize = 0;
        while k < result.len()
            invariant
                k <= result@.len(),
                out@.len() == k,
                sorted_desc(result@),
                forall|a: int| 0 <= a < k ==> (#[trigger] out@[a]).0 == result@[a].0 && out@[a].1@ == as_positions(
                    result@[a].1@,
                ),
            decreases result@.len() - k,
        {
            let path = &result[k].1;
            let mut converted: Vec<usize> = Vec::new();
            let mut j: usize = 0;
            while j < path.len()
                invariant
                    j <= path@.len(),
                    converted@ == as_positions(path@.take(j as int)),
                decreases path@.len() - j,
            {
                converted.push(path[j] as usize);
                j += 1;
                assert(converted@ =~= as_positions(path@.take(j as int)));
            }
            assert(path@.take(path@.len() as int) =~= path@);
            out.push((result[k].0, converted));
            k += 1;
        }
        proof {
            assert forall|a: int, b: int| 0 <= a < b < out@.len() implies out@[a].0 >= out@[b].0 by {
                assert(out@[a].0 == result@[a].0 && out@[b].0 == result@[b].0);
            }
            let l = rated.spec_cut_moves(min);
            reveal(position_listed_in);
            reveal(position_present_in);
            reveal(rated_cut);
            reveal(rated_result);
            assert forall|a: int| 0 <= a < out@.len() implies #[trigger] position_listed_in(out@[a], l) by {
                assert(listed_in(result@[a], l));
            }
            assert forall|t: int| 0 <= t < l.len() implies #[trigger] position_present_in(l[t], out@) by {
                assert(present_in(l[t], result@));
                let a = choose|a: int| 0 <= a < result@.len() && (#[trigger] result@[a]).0 == l[t].0 && result@[a].1@ == l[t].1;
                assert(out@[a].0 == l[t].0 && out@[a].1@ == as_positions(l[t].1));
            }
            assert(rated_cut(rated, min, out@));
            assert(rated.spec_is_lowest_value(min));
            assert(rated_result(rated, out@));
        }
        Ok(out)
    }
}

proof fn lemma_sum_prefix_eq(s: Seq<usize>, t: Seq<usize>, k: int)
    requires
        0 <= k <= s.len(),
        k <= t.len(),
        forall|i: int| 0 <= i < k ==> s[i] == t[i],
    ensures
        spec_sum(s, k) == spec_sum(t, k),
    decreases k,
{
    if k > 0 {
        lemma_sum_prefix_eq(s, t, k - 1);
    }
}

/// The type mapping rates every decision directly.
pub open spec fn only_bottom<T: GameData, F: Fn(&T::Context) -> DecisionType>(type_mapping: &F) -> bool {
    forall|c: &T::Context, d: DecisionType| #[trigger] type_mapping.ensures((c,), d) ==> d == DecisionType::BottomLevel
}

/// The entry that collecting gives for the pending decision of the engine
/// at the end of `path`: its number of options, the path and its context.
pub open spec fn bottom_entry<T: GameData, L: EventListener<T>>(
    engine: Engine<T, L>,
    path: Seq<IndexType>,
    e: (usize, Vec<IndexType>, T::Context),
) -> bool {
    &&& e.0 == engine.spec_option_count()
    &&& e.1@ == path
    &&& engine.spec_decision().spec_context_of(&engine.spec_data(), e.2)
}

/// The decisions of the rater, with the contexts, are the entries of
/// collecting: their numbers of options, their paths and their contexts.
pub open spec fn rater_lists<C>(rater: Rater, contexts: Seq<C>, entries: Seq<(usize, Vec<IndexType>, C)>) -> bool {
    &&& entries.len() == rater.spec_num_decisions()
    &&& contexts.len() == entries.len()
    &&& forall|i: int| 0 <= i < entries.len() ==> (#[trigger] entries[i]).0 == rater.spec_option_count(i) && entries[i].1@
        == rater.spec_decision_path(i) && entries[i].2 == contexts[i]
}

/// The option indices as positions.
pub open spec fn as_positions(path: Seq<IndexType>) -> Seq<usize> {
    path.map_values(|x: IndexType| x as usize)
}

/// Selecting the options `suffix` in turn from the engine `e0` (up to its
/// chain of decisions) leads to a decision with `count` options and the
/// context `ctx`, which the type mapping rates directly.
pub open spec fn reaches_bottom<T: GameData, L: EventListener<T>, F: Fn(&T::Context) -> DecisionType>(
    e0: Engine<T, L>,
    suffix: Seq<usize>,
    count: usize,
    ctx: T::Context,
    type_mapping: &F,
) -> bool {
    exists|chain: Seq<Engine<T, L>>| #[trigger] Engine::<T, L>::selections(suffix, chain) && bottom_chain(
        e0,
        chain,
        count,
        ctx,
        type_mapping,
    )
}

/// The chain of engines starts where `e0` is and ends at a decision with
/// `count` options and the context `ctx`, which the type mapping rates
/// directly.
pub open spec fn bottom_chain<T: GameData, L: EventListener<T>, F: Fn(&T::Context) -> DecisionType>(
    e0: Engine<T, L>,
    chain: Seq<Engine<T, L>>,
    count: usize,
    ctx: T::Context,
    type_mapping: &F,
) -> bool {
    &&& chain[0].spec_same_decisions(e0)
    &&& chain.last().spec_is_pending_decision()
    &&& count == chain.last().spec_option_count()
    &&& chain.last().spec_decision().spec_context_of(&chain.last().spec_data(), ctx)
    &&& type_mapping.ensures((&ctx,), DecisionType::BottomLevel)
}

/// The entry of collecting lies below `prefix`: its path continues
/// `prefix`, and selecting the rest of the path from `e0` leads to its
/// bottom-level decision.
pub open spec fn entry_below<T: GameData, L: EventListener<T>, F: Fn(&T::Context) -> DecisionType>(
    e0: Engine<T, L>,
    prefix: Seq<IndexType>,
    type_mapping: &F,
    entry: (usize, Vec<IndexType>, T::Context),
) -> bool {
    &&& entry.1@.len() >= prefix.len()
    &&& entry.1@.subrange(0, prefix.len() as int) == prefix
    &&& reaches_bottom(e0, as_positions(entry.1@.skip(prefix.len() as int)), entry.0, entry.2, type_mapping)
}

/// The decision waiting in `e` has the context `ctx`, and the type mapping
/// gives `kind` for it.
pub open spec fn decision_kind<T: GameData, L: EventListener<T>, F: Fn(&T::Context) -> DecisionType>(
    e: Engine<T, L>,
    type_mapping: &F,
    ctx: T::Context,
    kind: DecisionType,
) -> bool {
    &&& e.spec_decision().spec_context_of(&e.spec_data(), ctx)
    &&& type_mapping.ensures((&ctx,), kind)
}

/// The engines after selecting each option of a decision, and where the
/// entries below each option start.
pub open spec fn option_split<T: GameData, L: EventListener<T>>(w: (Seq<Engine<T, L>>, Seq<int>)) -> bool {
    w.1.len() == w.0.len() + 1
}

/// `entries` are what collecting the bottom-level decisions below the
/// decision waiting in `e`, reached by the path `prefix`, gives with at most
/// `fuel` levels of decisions that the type mapping resolves: a decision that
/// it rates directly gives one entry (its number of options, the path and
/// its context); one that it resolves gives, option by option in order, the
/// entries below the decision that selecting the option leads to.
pub open spec fn decisions_below<T: GameData, L: EventListener<T>, F: Fn(&T::Context) -> DecisionType>(
    fuel: int,
    e: Engine<T, L>,
    prefix: Seq<IndexType>,
    type_mapping: &F,
    entries: Seq<(usize, Vec<IndexType>, T::Context)>,
) -> bool
    decreases fuel, 2int, 0int,
{
    exists|ctx: T::Context, kind: DecisionType| #[trigger] decision_kind(e, type_mapping, ctx, kind) && match kind {
        DecisionType::BottomLevel => {
            &&& entries.len() == 1
            &&& entries[0].0 == e.spec_option_count()
            &&& entries[0].1@ == prefix
            &&& entries[0].2 == ctx
        },
        DecisionType::HigherLevel => {
            &&& fuel > 0
            &&& exists|w: (Seq<Engine<T, L>>, Seq<int>)| #[trigger] option_split(w) && {
                let n = e.spec_option_count() as int;
                &&& w.0.len() == n
                &&& w.1[0] == 0
                &&& w.1[n] == entries.len()
                &&& n <= u32::MAX
                &&& options_below(fuel, e, prefix, type_mapping, entries, w, 0)
            }
        },
    }
}

/// The options from `i` on of the decision waiting in `e` were collected:
/// selecting option `j` leads to `w.0[j]`, and the entries `w.1[j]` to
/// `w.1[j + 1]` are those below that decision (see `decisions_below`).
pub open spec fn options_below<T: GameData, L: EventListener<T>, F: Fn(&T::Context) -> DecisionType>(
    fuel: int,
    e: Engine<T, L>,
    prefix: Seq<IndexType>,
    type_mapping: &F,
    entries: Seq<(usize, Vec<IndexType>, T::Context)>,
    w: (Seq<Engine<T, L>>, Seq<int>),
    i: int,
) -> bool
    decreases fuel, 1int, e.spec_option_count() - i,
{
    if i < 0 || i >= e.spec_option_count() {
        true
    } else {
        &&& fuel > 0
        &&& 0 <= w.1[i] <= w.1[i + 1] <= entries.len()
        &&& e.spec_selection_step(i as usize, w.0[i])
        &&& decisions_below(fuel - 1, w.0[i], prefix.push(i as IndexType), type_mapping, entries.subrange(w.1[i], w.1[i + 1]))
        &&& options_below(fuel, e, prefix, type_mapping, entries, w, i + 1)
    }
}

/// Option `j` of the decision waiting in `e0` was collected: selecting it
/// leads to `es[j]`, and the entries `offs[j]` to `offs[j + 1]` after `ol`
/// in `out` are those below that decision.
pub open spec fn option_collected<T: GameData, L: EventListener<T>, F: Fn(&T::Context) -> DecisionType>(
    fuel: int,
    e0: Engine<T, L>,
    prefix: Seq<IndexType>,
    type_mapping: &F,
    out: Seq<(usize, Vec<IndexType>, T::Context)>,
    ol: int,
    es: Seq<Engine<T, L>>,
    offs: Seq<int>,
    j: int,
) -> bool {
    &&& 0 <= offs[j] <= offs[j + 1] <= out.len() - ol
    &&& e0.spec_selection_step(j as usize, es[j])
    &&& decisions_below(fuel, es[j], prefix.push(j as IndexType), type_mapping, out.subrange(ol + offs[j], ol + offs[j + 1]))
}

/// The options from `i` on are collected when each of them is.
proof fn lemma_options_below<T: GameData, L: EventListener<T>, F: Fn(&T::Context) -> DecisionType>(
    fuel: int,
    e: Engine<T, L>,
    prefix: Seq<IndexType>,
    type_mapping: &F,
    out: Seq<(usize, Vec<IndexType>, T::Context)>,
    ol: int,
    es: Seq<Engine<T, L>>,
    offs: Seq<int>,
    i: int,
)
    requires
        0 <= i,
        fuel > 0,
        0 <= ol <= out.len(),
        forall|j: int| i <= j < e.spec_option_count() ==> #[trigger] option_collected(fuel - 1, e, prefix, type_mapping, out, ol, es, offs, j),
    ensures
        options_below(fuel, e, prefix, type_mapping, out.subrange(ol, out.len() as int), (es, offs), i),
    decreases e.spec_option_count() - i,
{
    let entries = out.subrange(ol, out.len() as int);
    if i < e.spec_option_count() {
        lemma_options_below(fuel, e, prefix, type_mapping, out, ol, es, offs, i + 1);
        assert(option_collected(fuel - 1, e, prefix, type_mapping, out, ol, es, offs, i));
        assert(entries.subrange(offs[i], offs[i + 1]) =~= out.subrange(ol + offs[i], ol + offs[i + 1]));
    }
}

/// An entry below the decision `e1` that selecting option `i` from `e_cur`
/// leads to lies below `e_cur` too.
proof fn lemma_entry_extends<T: GameData, L: EventListener<T>, F: Fn(&T::Context) -> DecisionType>(
    e0: Engine<T, L>,
    e_cur: Engine<T, L>,
    e1: Engine<T, L>,
    prefix: Seq<IndexType>,
    i: usize,
    type_mapping: &F,
    entry: (usize, Vec<IndexType>, T::Context),
)
    requires
        e_cur.spec_same_decisions(e0),
        e_cur.spec_selection_step(i, e1),
        i < u32::MAX,
        entry_below(e1, prefix.push(i as IndexType), type_mapping, entry),
    ensures
        entry_below(e0, prefix, type_mapping, entry),
{
    let p1 = prefix.push(i as IndexType);
    let s1 = as_positions(entry.1@.skip(p1.len() as int));
    assert(reaches_bottom(e1, s1, entry.0, entry.2, type_mapping));
    let chain = choose|chain: Seq<Engine<T, L>>| #[trigger] Engine::<T, L>::selections(s1, chain) && bottom_chain(
        e1,
        chain,
        entry.0,
        entry.2,
        type_mapping,
    );
    let chain2 = seq![e_cur] + chain;
    let s0 = as_positions(entry.1@.skip(prefix.len() as int));
    assert(entry.1@.subrange(0, p1.len() as int)[prefix.len() as int] == i as IndexType);
    assert(s0 =~= seq![i] + s1);
    assert(e1.spec_same_decisions(chain[0]));
    Engine::<T, L>::lemma_selection_to_same(e_cur, i, e1, chain[0]);
    assert forall|j: int| 0 <= j < s0.len() implies #[trigger] chain2[j].spec_selection_step(s0[j], chain2[j + 1]) by {
        if j > 0 {
            assert(chain2[j] == chain[j - 1] && chain2[j + 1] == chain[j] && s0[j] == s1[j - 1]);
            let j1 = j - 1;
            assert(0 <= j1 < s1.len());
            assert(chain[j1].spec_selection_step(s1[j1], chain[j1 + 1]));
            assert(j1 + 1 == j);
        } else {
            assert(chain2[0] == e_cur && chain2[1] == chain[0] && s0[0] == i);
        }
    }
    assert(Engine::<T, L>::selections(s0, chain2));
    assert(chain2.last() == chain.last());
    assert(bottom_chain(e0, chain2, entry.0, entry.2, type_mapping));
    assert(entry.1@.subrange(0, prefix.len() as int) =~= entry.1@.subrange(0, p1.len() as int).subrange(
        0,
        prefix.len() as int,
    ));
    assert(p1.subrange(0, prefix.len() as int) =~= prefix);
    assert(reaches_bottom(e0, s0, entry.0, entry.2, type_mapping));
}

/// Selecting the options of `path` but the last in turn from the engine
/// `e0` (up to its chain of decisions) leads to a decision that the type
/// mapping rates directly, and the last index of `path` is one of its
/// options: `path` selects a bottom-level move.
pub open spec fn selects_move<T: GameData, L: EventListener<T>, F: Fn(&T::Context) -> DecisionType>(
    e0: Engine<T, L>,
    path: Seq<usize>,
    type_mapping: &F,
) -> bool {
    path.len() >= 1 && exists|chain: Seq<Engine<T, L>>, ctx: T::Context| Engine::<T, L>::selections(
        path.drop_last(),
        chain,
    ) && #[trigger] move_chain(e0, chain, path.last(), ctx, type_mapping)
}

/// The chain of engines starts where `e0` is and ends at a decision with
/// the context `ctx`, which the type mapping rates directly, and which has
/// the option `index`.
pub open spec fn move_chain<T: GameData, L: EventListener<T>, F: Fn(&T::Context) -> DecisionType>(
    e0: Engine<T, L>,
    chain: Seq<Engine<T, L>>,
    index: usize,
    ctx: T::Context,
    type_mapping: &F,
) -> bool {
    &&& bottom_chain(e0, chain, chain.last().spec_option_count() as usize, ctx, type_mapping)
    &&& index < chain.last().spec_option_count()
}

/// A move selected below the decision `e1` that selecting option `i` from
/// `e_cur` leads to is selected below `e_cur` by the path with `i` in front.
proof fn lemma_move_extends<T: GameData, L: EventListener<T>, F: Fn(&T::Context) -> DecisionType>(
    e0: Engine<T, L>,
    e_cur: Engine<T, L>,
    e1: Engine<T, L>,
    i: usize,
    type_mapping: &F,
    path: Seq<usize>,
)
    requires
        e_cur.spec_same_decisions(e0),
        e_cur.spec_selection_step(i, e1),
        selects_move(e1, path, type_mapping),
    ensures
        selects_move(e0, seq![i] + path, type_mapping),
{
    let (chain, ctx) = choose|chain: Seq<Engine<T, L>>, ctx: T::Context| Engine::<T, L>::selections(
        path.drop_last(),
        chain,
    ) && #[trigger] move_chain(e1, chain, path.last(), ctx, type_mapping);
    let p2 = seq![i] + path;
    let s1 = path.drop_last();
    let s0 = p2.drop_last();
    assert(s0 =~= seq![i] + s1);
    let chain2 = seq![e_cur] + chain;
    assert(e1.spec_same_decisions(chain[0]));
    Engine::<T, L>::lemma_selection_to_same(e_cur, i, e1, chain[0]);
    assert forall|j: int| 0 <= j < s0.len() implies #[trigger] chain2[j].spec_selection_step(s0[j], chain2[j + 1]) by {
        if j > 0 {
            let j1 = j - 1;
            assert(0 <= j1 < s1.len());
            assert(chain[j1].spec_selection_step(s1[j1], chain[j1 + 1]));
            assert(chain2[j] == chain[j1] && chain2[j + 1] == chain[j1 + 1] && s0[j] == s1[j1]);
        } else {
            assert(chain2[0] == e_cur && chain2[1] == chain[0] && s0[0] == i);
        }
    }
    assert(Engine::<T, L>::selections(s0, chain2));
    assert(chain2.last() == chain.last());
    assert(p2.last() == path.last());
    assert(move_chain(e0, chain2, p2.last(), ctx, type_mapping));
}

/// The deepest nesting of follow-up decisions that the rater resolves.
pub const MAX_NESTING: usize = 65536;

/// Collects the bottom-level decisions that can be reached from the pending
/// decision of the engine: the options of higher-level decisions are
/// selected one after the other and their follow-up decisions are visited
/// in turn.  Each entry holds the number of options, the path of option
/// indices that leads to the decision and its context.  The engine ends in
/// the state it started in.
pub fn for_each_decision_flat<T: GameData, L: EventListener<T>, F>(
    engine: &mut Engine<T, L>,
    type_mapping: F,
) -> (r: Result<Vec<(usize, Vec<IndexType>, T::Context)>, MinMaxError>)
    where
        F: Fn(&T::Context) -> DecisionType,
    requires
        old(engine).wf(),
        old(engine).spec_is_pending_decision(),
        forall|c: &T::Context| #[trigger] type_mapping.requires((c,)),
    ensures
        final(engine).wf(),
        r is Ok ==> final(engine).spec_is_pending_decision() && final(engine).spec_level() == old(engine).spec_level(),
        r is Err ==> r == Err::<Vec<(usize, Vec<IndexType>, T::Context)>, MinMaxError>(MinMaxError::InvalidGame),
        only_bottom::<T, F>(&type_mapping) ==> (r matches Ok(v) && v@.len() == 1 && bottom_entry(*old(engine), Seq::empty(), v@[0])
            && *final(engine) == *old(engine)),
        r is Ok ==> final(engine).spec_same_decisions(*old(engine)),
        r matches Ok(v) ==> forall|k: int| 0 <= k < v@.len() ==> #[trigger] reaches_bottom(
            *old(engine),
            as_positions(v@[k].1@),
            v@[k].0,
            v@[k].2,
            &type_mapping,
        ),
        r matches Ok(v) ==> decisions_below(MAX_NESTING as int, *old(engine), Seq::empty(), &type_mapping, v@),
{
    let mut path: Vec<IndexType> = Vec::new();
    let mut out: Vec<(usize, Vec<IndexType>, T::Context)> = Vec::new();
    for_each_decision_flat_impl(engine, &type_mapping, &mut path, &mut out, MAX_NESTING)?;
    proof {
        assert forall|k: int| 0 <= k < out@.len() implies #[trigger] reaches_bottom(
            *old(engine),
            as_positions(out@[k].1@),
            out@[k].0,
            out@[k].2,
            &type_mapping,
        ) by {
            assert(entry_below(*old(engine), Seq::<IndexType>::empty(), &type_mapping, out@[k]));
            assert(out@[k].1@.skip(0) =~= out@[k].1@);
        }
        assert(out@.subrange(0, out@.len() as int) =~= out@);
        assert(path@ =~= Seq::<IndexType>::empty());
    }
    Ok(out)
}

fn for_each_decision_flat_impl<T: GameData, L: EventListener<T>, F>(
    engine: &mut Engine<T, L>,
    type_mapping: &F,
    path: &mut Vec<IndexType>,
    out: &mut Vec<(usize, Vec<IndexType>, T::Context)>,
    fuel: usize,
) -> (r: Result<(), MinMaxError>)
    where
        F: Fn(&T::Context) -> DecisionType,
    requires
        old(engine).wf(),
        old(engine).spec_is_pending_decision(),
        forall|c: &T::Context| #[trigger] type_mapping.requires((c,)),
    ensures
        final(engine).wf(),
        r is Ok ==> final(engine).spec_is_pending_decision() && final(engine).spec_level() == old(engine).spec_level(),
        r is Ok ==> final(path)@ == old(path)@,
        r is Err ==> r == Err::<(), MinMaxError>(MinMaxError::InvalidGame),
        r is Ok ==> final(out)@.len() >= old(out)@.len() && final(out)@.subrange(0, old(out)@.len() as int) == old(out)@,
        only_bottom::<T, F>(type_mapping) ==> r is Ok && final(out)@ == old(out)@.push(final(out)@.last()) && bottom_entry(
            *old(engine),
            old(path)@,
            final(out)@.last(),
        ) && *final(engine) == *old(engine) && final(path)@ == old(path)@,
        r is Ok ==> final(engine).spec_same_decisions(*old(engine)),
        r is Ok ==> forall|k: int| old(out)@.len() <= k < final(out)@.len() ==> #[trigger] entry_below(
            *old(engine),
            old(path)@,
            type_mapping,
            final(out)@[k],
        ),
        r is Ok ==> decisions_below(
            fuel as int,
            *old(engine),
            old(path)@,
            type_mapping,
            final(out)@.subrange(old(out)@.len() as int, final(out)@.len() as int),
        ),
    decreases fuel,
{
    let context = engine.context();
    let kind = type_mapping(&context);
    proof {
        assert(forall|c: &T::Context, d: DecisionType| (*type_mapping).ensures((c,), d) == type_mapping.ensures((c,), d));
        assert(decision_kind(*old(engine), type_mapping, context, kind));
        if only_bottom::<T, F>(type_mapping) {
            assert((*type_mapping).ensures((&context,), kind));
            assert(kind == DecisionType::BottomLevel);
        }
    }
    match kind {
        DecisionType::HigherLevel => {
            if fuel == 0 {
                return Err(MinMaxError::InvalidGame);
            }
            let option_count = engine.option_count();
            let ghost level = engine.spec_level();
            let mut i: usize = 0;
            let ghost ol = old(out)@.len() as int;
            let ghost mut es: Seq<Engine<T, L>> = Seq::empty();
            let ghost mut offs: Seq<int> = seq![0int];
            while i < option_count
                invariant
                    engine.wf(),
                    engine.spec_is_pending_decision(),
                    engine.spec_level() == level,
                    path@ == old(path)@,
                    option_count == old(engine).spec_option_count(),
                    i <= option_count,
                    ol == old(out)@.len(),
                    es.len() == i,
                    offs.len() == i + 1,
                    offs[0] == 0,
                    offs[i as int] == out@.len() - ol,
                    i > 0 ==> i - 1 < u32::MAX,
                    forall|j: int| 0 <= j < i ==> #[trigger] option_collected(fuel - 1, *old(engine), old(path)@, type_mapping, out@, ol, es, offs, j),
                    forall|c: &T::Context| #[trigger] type_mapping.requires((c,)),
                    fuel > 0,
                    !only_bottom::<T, F>(type_mapping),
                    out@.len() >= old(out)@.len(),
                    out@.subrange(0, old(out)@.len() as int) == old(out)@,
                    engine.spec_same_decisions(*old(engine)),
                    forall|k: int| old(out)@.len() <= k < out@.len() ==> #[trigger] entry_below(
                        *old(engine),
                        old(path)@,
                        type_mapping,
                        out@[k],
                    ),
                decreases option_count - i,
            {
                let ghost out_before = out@;
                if i >= engine.option_count() || i >= u32::MAX as usize {
                    return Err(MinMaxError::InvalidGame);
                }
                let ghost e_cur = *engine;
                path.push(i as IndexType);
                engine.select_option(i);
                if !engine.is_pending_decision() {
                    return Err(MinMaxError::InvalidGame);
                }
                let ghost e1 = *engine;
                let ghost path1 = path@;
                let res = for_each_decision_flat_impl(engine, type_mapping, path, out, fuel - 1);
                if res.is_err() {
                    return res;
                }
                proof {
                    assert(e_cur.spec_selection_step(i, e1));
                    assert forall|k: int| old(out)@.len() <= k < out@.len() implies #[trigger] entry_below(
                        *old(engine),
                        old(path)@,
                        type_mapping,
                        out@[k],
                    ) by {
                        if k < out_before.len() {
                            assert(out@[k] == out_before[k]) by {
                                assert(out@.subrange(0, out_before.len() as int)[k] == out_before[k]);
                            }
                        } else {
                            lemma_entry_extends(*old(engine), e_cur, e1, old(path)@, i, type_mapping, out@[k]);
                        }
                    }
                }
                assert(out@.subrange(0, old(out)@.len() as int) =~= out_before.subrange(0, old(out)@.len() as int));
                path.pop();
                assert(path@ =~= old(path)@);
                let ghost e2 = *engine;
                if !engine.retract_n(1) {
                    return Err(MinMaxError::InvalidGame);
                }
                proof {
                    e_cur.lemma_decisions();
                    e1.lemma_decisions();
                    assert(engine.spec_decisions() =~= e_cur.spec_decisions());
                    Engine::<T, L>::lemma_selection_from_same(e_cur, *old(engine), i, e1);
                    let old_es = es;
                    let old_offs = offs;
                    es = es.push(e1);
                    offs = offs.push(out@.len() - ol);
                    assert(path1 == old(path)@.push(i as IndexType));
                    assert forall|j: int| 0 <= j < i + 1 implies #[trigger] option_collected(fuel - 1, *old(engine), old(path)@, type_mapping, out@, ol, es, offs, j) by {
                        if j < i {
                            assert(option_collected(fuel - 1, *old(engine), old(path)@, type_mapping, out_before, ol, old_es, old_offs, j));
                            assert(es[j] == old_es[j] && offs[j] == old_offs[j] && offs[j + 1] == old_offs[j + 1]);
                            assert(out@.subrange(ol + offs[j], ol + offs[j + 1]) =~= out_before.subrange(
                                ol + offs[j],
                                ol + offs[j + 1],
                            ));
                        } else {
                            assert(es[j] == e1 && offs[j] == old_offs[j] && offs[j] == out_before.len() - ol);
                            assert(out@.subrange(ol + offs[j], ol + offs[j + 1]) =~= out@.subrange(
                                out_before.len() as int,
                                out@.len() as int,
                            ));
                        }
                    }
                }
                i += 1;
            }
            proof {
                let entries = out@.subrange(ol, out@.len() as int);
                let w = (es, offs);
                lemma_options_below(fuel as int, *old(engine), old(path)@, type_mapping, out@, ol, es, offs, 0);
                assert(option_split(w));
                assert(decision_kind(*old(engine), type_mapping, context, kind));
                assert(decisions_below(fuel as int, *old(engine), old(path)@, type_mapping, entries));
            }
            Ok(())
        },
        DecisionType::BottomLevel => {
            let count = engine.option_count();
            let mut copy: Vec<IndexType> = Vec::new();
            let mut j: usize = 0;
            while j < path.len()
                invariant
                    j <= path@.len(),
                    copy@ == path@.take(j as int),
                decreases path@.len() - j,
            {
                copy.push(path[j]);
                j += 1;
                assert(copy@ =~= path@.take(j as int));
            }
            assert(copy@ =~= path@);
            out.push((count, copy, context));
            assert(out@.subrange(0, old(out)@.len() as int) =~= old(out)@);
            proof {
                let entry = out@[old(out)@.len() as int];
                let chain = seq![*engine];
                assert(entry.1@.skip(old(path)@.len() as int) =~= Seq::<IndexType>::empty());
                assert(as_positions(entry.1@.skip(old(path)@.len() as int)) =~= Seq::<usize>::empty());
                assert(Engine::<T, L>::selections(Seq::<usize>::empty(), chain));
                assert(type_mapping.ensures((&context,), kind));
                assert(bottom_chain(*old(engine), chain, count, context, type_mapping));
                assert(entry.1@.subrange(0, old(path)@.len() as int) =~= old(path)@);
                assert(entry_below(*old(engine), old(path)@, type_mapping, entry));
                let entries = out@.subrange(old(out)@.len() as int, out@.len() as int);
                assert(entries.len() == 1 && entries[0] == entry);
                assert(decisions_below(fuel as int, *old(engine), old(path)@, type_mapping, entries));
            }
            Ok(())
        },
    }
}

/// The option indices that select the move with the given position among
/// the bottom-level moves (in the order of `for_each_decision_flat`).  The
/// engine is returned to its top-level decision.
pub fn translate<T: GameData, L: EventListener<T>, F>(
    engine: &mut Engine<T, L>,
    type_mapping: F,
    index: IndexType,
) -> (r: Result<Vec<usize>, MinMaxError>)
    where
        F: Fn(&T::Context) -> DecisionType,
    requires
        old(engine).wf(),
        old(engine).spec_is_pending_decision(),
        forall|c: &T::Context| #[trigger] type_mapping.requires((c,)),
    ensures
        final(engine).wf(),
        r is Ok ==> final(engine).spec_is_pending_decision() && final(engine).spec_level() == 0,
        r is Err ==> r == Err::<Vec<usize>, MinMaxError>(MinMaxError::InvalidGame),
        only_bottom::<T, F>(&type_mapping) ==> (index < old(engine).spec_option_count() <==> r is Ok),
        only_bottom::<T, F>(&type_mapping) ==> (r matches Ok(v) ==> v@ == seq![index as usize]),
        r matches Ok(v) ==> selects_move(*old(engine), v@, &type_mapping),
{
    let (result, _) = translate_impl(engine, &type_mapping, index as usize, MAX_NESTING)?;
    if engine.is_pending_decision() {
        if engine.level_in_chain() > 0 {
            engine.retract_all();
        }
    } else {
        return Err(MinMaxError::InvalidGame);
    }
    match result {
        Some(list) => {
            let mut out: Vec<usize> = Vec::new();
            let mut k = list.len();
            while k > 0
                invariant
                    k <= list@.len(),
                    out@ =~= list@.subrange(k as int, list@.len() as int).reverse(),
                decreases k,
            {
                k -= 1;
                out.push(list[k]);
            }
            assert(out@ =~= list@.reverse());
            Ok(out)
        },
        None => Err(MinMaxError::InvalidGame),
    }
}

/// Searches the move with the given position below the pending decision.
/// Returns the option indices in reverse order if found, and otherwise the
/// number of moves below the decision.  If found, the engine stays in the
/// follow-up decision of the move; otherwise it ends where it started.
pub fn translate_impl<T: GameData, L: EventListener<T>, F>(
    engine: &mut Engine<T, L>,
    type_mapping: &F,
    index: usize,
    fuel: usize,
) -> (r: Result<(Option<Vec<usize>>, usize), MinMaxError>)
    where
        F: Fn(&T::Context) -> DecisionType,
    requires
        old(engine).wf(),
        old(engine).spec_is_pending_decision(),
        forall|c: &T::Context| #[trigger] type_mapping.requires((c,)),
    ensures
        final(engine).wf(),
        r matches Ok((found, count)) ==> final(engine).spec_is_pending_decision() && final(engine).spec_level()
            >= old(engine).spec_level() && (found is None ==> count <= index && final(engine).spec_level()
            == old(engine).spec_level()),
        r is Err ==> r == Err::<(Option<Vec<usize>>, usize), MinMaxError>(MinMaxError::InvalidGame),
        only_bottom::<T, F>(type_mapping) ==> *final(engine) == *old(engine) && (index < old(engine).spec_option_count()
            ==> (r matches Ok((Some(l), c)) && l@ == seq![index] && c == 0)),
        only_bottom::<T, F>(type_mapping) ==> (index >= old(engine).spec_option_count() ==> (r matches Ok((None, c))
            && c == old(engine).spec_option_count())),
        r matches Ok((Some(l), _)) ==> selects_move(*old(engine), l@.reverse(), type_mapping),
        r matches Ok((None, _)) ==> final(engine).spec_same_decisions(*old(engine)),
    decreases fuel,
{
    let context = engine.context();
    let kind = type_mapping(&context);
    proof {
        if only_bottom::<T, F>(type_mapping) {
            assert((*type_mapping).ensures((&context,), kind));
            assert(kind == DecisionType::BottomLevel);
        }
    }
    match kind {
        DecisionType::HigherLevel => {
            if fuel == 0 {
                return Err(MinMaxError::InvalidGame);
            }
            let option_count = engine.option_count();
            let ghost level = engine.spec_level();
            let mut count: usize = 0;
            let mut i: usize = 0;
            while i < option_count
                invariant
                    engine.wf(),
                    engine.spec_is_pending_decision(),
                    engine.spec_level() == level,
                    level == old(engine).spec_level(),
                    count <= index,
                    forall|c: &T::Context| #[trigger] type_mapping.requires((c,)),
                    fuel > 0,
                    !only_bottom::<T, F>(type_mapping),
                    engine.spec_same_decisions(*old(engine)),
                decreases option_count - i,
            {
                if i >= engine.option_count() {
                    return Err(MinMaxError::InvalidGame);
                }
                let ghost e_cur = *engine;
                engine.select_option(i);
                if !engine.is_pending_decision() {
                    return Err(MinMaxError::InvalidGame);
                }
                let ghost e1 = *engine;
                let (result, add) = match translate_impl(engine, type_mapping, index - count, fuel - 1) {
                    Ok(pair) => pair,
                    Err(e) => {
                        return Err(e);
                    },
                };
                match result {
                    Some(list) => {
                        let mut list = list;
                        let ghost l1 = list@;
                        list.push(i);
                        proof {
                            assert(list@.reverse() =~= seq![i] + l1.reverse());
                            lemma_move_extends(*old(engine), e_cur, e1, i, type_mapping, l1.reverse());
                        }
                        return Ok((Some(list), 0));
                    },
                    None => {},
                }
                count = count + add;
                if !engine.retract_n(1) {
                    return Err(MinMaxError::InvalidGame);
                }
                proof {
                    e_cur.lemma_decisions();
                    e1.lemma_decisions();
                    assert(engine.spec_decisions() =~= e_cur.spec_decisions());
                }
                i += 1;
            }
            Ok((None, count))
        },
        DecisionType::BottomLevel => {
            let count = engine.option_count();
            if index < count {
                let mut list: Vec<usize> = Vec::new();
                list.push(index);
                assert(list@ =~= seq![index]);
                proof {
                    let chain = seq![*engine];
                    assert(list@.reverse() =~= seq![index]);
                    assert(seq![index].drop_last() =~= Seq::<usize>::empty());
                    assert(Engine::<T, L>::selections(Seq::<usize>::empty(), chain));
                    assert(type_mapping.ensures((&context,), kind));
                    assert(move_chain(*old(engine), chain, index, context, type_mapping));
                    let pth = list@.reverse();
                    assert(pth.drop_last() =~= Seq::<usize>::empty());
                    assert(pth.last() == index);
                    assert(move_chain(*old(engine), chain, pth.last(), context, type_mapping));
                    assert(selects_move(*old(engine), pth, type_mapping));
                }
                Ok((Some(list), 0))
            } else {
                Ok((None, count))
            }
        },
    }
}

} // verus!
