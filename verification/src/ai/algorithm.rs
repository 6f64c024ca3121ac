use vstd::prelude::*;
use crate::ai::params::{Params, RatingType, Sliding};
use crate::ai::rater::{DecisionType, IndexType, RatedClass, RatedMove, Rater, as_positions, class_listed_in, class_present_in, listed_in, present_in};
use crate::ai::engine_stepper::{EngineStepper, move_made};
use crate::game::engine::LoggingEngine;
use crate::ai::search_tree_state::{
    children_added, leaves_below, leaves_extended, with_new_levels, same_shape, rated_by_children, visits_in_order, LeafVisitor, SearchTreeState, TreeEntry, TreeIndex, copy_indizes, increasing_below, keeps_levels, same_entries,
    children_of, choices_by, choices_complete, pruned_tree,
};
use crate::game::trait_definitions::GameData;
use crate::game::engine::{CloneError, Engine, EventListener};
use crate::game::engine::logging::EventLog;
use crate::util::{Rated, best_of, in_order, lemma_best_of, sort_ordered, sorted_by, sorted_desc};

verus! {

broadcast use vstd::seq_lib::group_to_multiset_ensures;

/// To apply the min-max algorithm, the engine must be in pending decision
/// state and the decision must be a top-level decision.  Besides,
/// `InvalidGame`: the game does not behave as the algorithm requires
/// (alternating turns, a rating for every move, decisions as the type
/// mapping describes them, ratings in range); `InvalidParams`: the
/// parameters do not reach the levels that the search needs.
#[derive(Debug, Clone, Copy, PartialEq, Eq)]
pub enum InvalidEngineState {
    PendingEffect,
    FollowUp,
    Finished,
    InvalidGame,
    InvalidParams,
}

#[derive(Debug, Clone, Copy, PartialEq, Eq)]
pub enum MinMaxError {
    PendingEffect,
    FollowUp,
    Finished,
    Cancelled,
    InvalidGame,
    InvalidParams,
}

impl From<CloneError> for InvalidEngineState {
    fn from(e: CloneError) -> (r: Self) {
        match e {
            CloneError::PendingEffect => InvalidEngineState::PendingEffect,
            CloneError::FollowUp => InvalidEngineState::FollowUp,
        }
    }
}

impl vstd::std_specs::convert::FromSpecImpl<CloneError> for InvalidEngineState {
    open spec fn obeys_from_spec() -> bool {
        true
    }

    open spec fn from_spec(e: CloneError) -> Self {
        match e {
            CloneError::PendingEffect => InvalidEngineState::PendingEffect,
            CloneError::FollowUp => InvalidEngineState::FollowUp,
        }
    }
}

impl From<CloneError> for MinMaxError {
    fn from(e: CloneError) -> (r: Self) {
        match e {
            CloneError::PendingEffect => MinMaxError::PendingEffect,
            CloneError::FollowUp => MinMaxError::FollowUp,
        }
    }
}

impl vstd::std_specs::convert::FromSpecImpl<CloneError> for MinMaxError {
    open spec fn obeys_from_spec() -> bool {
        true
    }

    open spec fn from_spec(e: CloneError) -> Self {
        match e {
            CloneError::PendingEffect => MinMaxError::PendingEffect,
            CloneError::FollowUp => MinMaxError::FollowUp,
        }
    }
}

impl MinMaxError {
    /// The corresponding engine state error; none for a cancelled run.
    pub open spec fn spec_engine_state_error(self) -> Option<InvalidEngineState> {
        match self {
            MinMaxError::PendingEffect => Some(InvalidEngineState::PendingEffect),
            MinMaxError::FollowUp => Some(InvalidEngineState::FollowUp),
            MinMaxError::Finished => Some(InvalidEngineState::Finished),
            MinMaxError::Cancelled => None,
            MinMaxError::InvalidGame => Some(InvalidEngineState::InvalidGame),
            MinMaxError::InvalidParams => Some(InvalidEngineState::InvalidParams),
        }
    }

    /// The corresponding engine state error; none for a cancelled run.
    pub fn into_engine_state_error(self) -> (r: Option<InvalidEngineState>)
        ensures
            r == self.spec_engine_state_error(),
    {
        match self {
            MinMaxError::PendingEffect => Some(InvalidEngineState::PendingEffect),
            MinMaxError::FollowUp => Some(InvalidEngineState::FollowUp),
            MinMaxError::Finished => Some(InvalidEngineState::Finished),
            MinMaxError::Cancelled => None,
            MinMaxError::InvalidGame => Some(InvalidEngineState::InvalidGame),
            MinMaxError::InvalidParams => Some(InvalidEngineState::InvalidParams),
        }
    }
}

/// Rates the moves of a game for the min-max algorithm.
pub trait RateAndMap<T: GameData> {
    /// Whether decisions with the given context are resolved into their
    /// follow-up decisions or rated directly.
    fn apply_type_mapping(&self, context: &T::Context) -> DecisionType;

    /// Rating the moves of `before` for the contexts, the data and the moves
    /// made so far can give `after`; every implementation says how.
    closed spec fn spec_rated_moves(
        &self,
        before: Rater,
        after: Rater,
        context: Seq<T::Context>,
        data: T,
        old_context: Seq<(T::Context, usize)>,
    ) -> bool {
        true
    }

    /// Rates all moves of the rater.
    fn rate_moves(
        &self,
        rater: &mut Rater,
        context: &Vec<T::Context>,
        data: &T,
        old_context: &Vec<(T::Context, usize)>,
    )
        requires
            old(rater).wf(),
        ensures
            final(rater).wf(),
            final(rater).same_layout(*old(rater)),
            self.spec_rated_moves(*old(rater), *final(rater), context@, *data, old_context@),
    ;

    /// `r` is a rating that the state can get from the view of the player;
    /// every implementation says which.
    closed spec fn spec_rates(&self, data: T, old_context: Seq<(T::Context, usize)>, player: usize, r: RatingType) -> bool {
        true
    }

    /// Rates the state of the game from the view of the given player.
    fn rate_game_state(&self, data: &T, old_context: &Vec<(T::Context, usize)>, player: usize) -> (r: RatingType)
        ensures
            self.spec_rates(*data, old_context@, player, r),
    ;
}

/// The moves of a level in the search tree and where they stand.
#[derive(Debug, Clone, Copy, PartialEq, Eq)]
pub struct PruningInput {
    pub total_depth: usize,
    pub current_depth: usize,
    pub num_branches: usize,
}

/// Which moves pruning keeps: all of them, the best `n`, those within a
/// difference of the best, or those within a difference of the best with at
/// least the first and at most the second number of moves.
#[derive(Debug, Clone, Copy, PartialEq, Eq)]
pub enum PruningKind {
    KeepAll,
    KeepN(usize),
    KeepByDiff(RatingType),
    WithinBounds(usize, usize, RatingType),
}

/// Decides how the moves of each level of the search tree are pruned.
pub trait PruningFunction {
    /// `k` is how the function prunes the level described by the input;
    /// every implementation says which.
    spec fn spec_prunes_by(&self, input: PruningInput, k: PruningKind) -> bool;

    /// Differences are never negative.
    fn pruning_kind(&self, input: PruningInput) -> (r: PruningKind)
        ensures
            r matches PruningKind::KeepByDiff(d) ==> d >= 0,
            r matches PruningKind::WithinBounds(_, _, d) ==> d >= 0,
            self.spec_prunes_by(input, r),
    ;
}

/// `r` holds the positions of the moves of at least `min` moves (or all of
/// them) with the best signed ratings, beyond that those within `diff` of
/// the best up to `max` moves: what `within_bounds` gives.
pub open spec fn kept_within_bounds(r: Seq<usize>, moves: Seq<TreeEntry>, maximize: bool, min: usize, max: usize, diff: RatingType) -> bool {
    &&& increasing_below(r, moves.len() as int)
    &&& forall|i: int, j: int| 0 <= i < r.len() && 0 <= j < moves.len() && !r.contains(j as usize) ==> signed_rating(
        moves,
        #[trigger] r[i] as int,
        maximize,
    ) >= #[trigger] signed_rating(moves, j, maximize)
    &&& r.len() >= (if min < moves.len() { min as int } else { moves.len() as int })
    &&& r.len() <= moves.len()
    &&& r.len() > min ==> r.len() <= max && forall|i: int| 0 <= i < r.len() ==> #[trigger] signed_rating(
        moves,
        r[i] as int,
        maximize,
    ) + diff >= best_signed(moves, maximize, moves.len() as int)
    &&& r.len() < max && r.len() < moves.len() ==> forall|j: int| 0 <= j < moves.len() && #[trigger] signed_rating(
        moves,
        j,
        maximize,
    ) + diff >= best_signed(moves, maximize, moves.len() as int) ==> r.contains(j as usize)
}

/// `r` holds the positions of the moves that a pruning kind keeps.
pub open spec fn kept_by_kind(k: PruningKind, r: Seq<usize>, moves: Seq<TreeEntry>, maximize: bool) -> bool {
    match k {
        PruningKind::KeepAll => r == Seq::new(moves.len(), |a: int| a as usize),
        PruningKind::KeepN(num) => kept_within_bounds(r, moves, maximize, num, num, 0),
        PruningKind::KeepByDiff(diff) => kept_within_bounds(r, moves, maximize, 0, moves.len() as usize, diff),
        PruningKind::WithinBounds(min, max, diff) => kept_within_bounds(r, moves, maximize, min, max, diff),
    }
}

/// Keeps every move.
#[derive(Debug, Clone, Copy, PartialEq, Eq)]
pub struct KeepAllPruning {}

impl PruningFunction for KeepAllPruning {
    open spec fn spec_prunes_by(&self, input: PruningInput, k: PruningKind) -> bool {
        k == PruningKind::KeepAll
    }

    fn pruning_kind(&self, input: PruningInput) -> (r: PruningKind) {
        PruningKind::KeepAll
    }
}

/// Moves with their ratings, as a list can be cut from a rater.
pub trait CutRater: Rated + Sized {
    /// `r` lists the moves of the rater with a value of at least `min`, each
    /// once; every implementation says how.
    spec fn spec_cut_result(rater: Rater, min: RatingType, r: Seq<Self>) -> bool;

    fn cut_rater(rater: Rater, min: RatingType) -> (r: Vec<Self>)
        requires
            rater.wf(),
            rater.spec_all_rated(),
        ensures
            sorted_desc(r@),
            forall|a: int| 0 <= a < r@.len() ==> (#[trigger] r@[a]).spec_rating() >= min,
            Self::spec_cut_result(rater, min, r@),
    ;
}

impl CutRater for RatedMove {
    /// The moves of the cut list with their values and paths.
    open spec fn spec_cut_result(rater: Rater, min: RatingType, r: Seq<Self>) -> bool {
        &&& r.len() == rater.spec_cut_moves(min).len()
        &&& forall|a: int| 0 <= a < r.len() ==> listed_in(#[trigger] r[a], rater.spec_cut_moves(min))
        &&& forall|t: int| 0 <= t < rater.spec_cut_moves(min).len() ==> present_in(
            #[trigger] rater.spec_cut_moves(min)[t],
            r,
        )
    }

    /// The moves of at least `min` that `Rater::cut_and_sort` lists.
    fn cut_rater(rater: Rater, min: RatingType) -> (r: Vec<Self>)
        ensures
            r@.len() == rater.spec_cut_moves(min).len(),
            forall|a: int| 0 <= a < r@.len() ==> listed_in(#[trigger] r@[a], rater.spec_cut_moves(min)),
            forall|t: int| 0 <= t < rater.spec_cut_moves(min).len() ==> present_in(
                #[trigger] rater.spec_cut_moves(min)[t],
                r@,
            ),
    {
        let ghost moves = rater.spec_cut_moves(min);
        proof {
            rater.lemma_cut_list_at_least(min, rater.spec_ratings().len() as int);
        }
        let r = rater.cut_and_sort(min);
        assert forall|a: int| 0 <= a < r@.len() implies (#[trigger] r@[a]).spec_rating() >= min by {
            let t = choose|t: int| 0 <= t < moves.len() && r@[a].0 == moves[t].0 && r@[a].1@ == #[trigger] moves[t].1;
            assert(moves[t].0 >= min);
        }
        r
    }
}

impl CutRater for RatedClass {
    /// The classes of the cut list with their values and paths.
    open spec fn spec_cut_result(rater: Rater, min: RatingType, r: Seq<Self>) -> bool {
        &&& r.len() == rater.spec_cut_moves(min).len()
        &&& forall|a: int| 0 <= a < r.len() ==> class_listed_in(#[trigger] r[a], rater.spec_cut_moves(min))
        &&& forall|t: int| 0 <= t < rater.spec_cut_moves(min).len() ==> class_present_in(
            #[trigger] rater.spec_cut_moves(min)[t],
            r,
        )
    }

    fn cut_rater(rater: Rater, min: RatingType) -> (r: Vec<Self>) {
        rater.cut_and_sort_with_equivalency(min)
    }
}

/// The ratings and paths of moves.
pub type RatingList = Vec<(RatingType, Vec<IndexType>)>;

/// The lowest value that the moves kept for the search can have: the
/// highest value less the move cut difference, within the rating type.
pub open spec fn cut_minimum(max: RatingType, difference: RatingType) -> RatingType {
    let low = max - difference;
    if low < i32::MIN {
        i32::MIN
    } else if low > i32::MAX {
        i32::MAX
    } else {
        low as RatingType
    }
}

/// A record of the ratings before and after rating, the contexts, and the
/// sorted cut list.
pub open spec fn ratings_record<C, E>(w: (Rater, Rater, Seq<C>, Seq<E>)) -> bool {
    w.2.len() >= 0
}

/// A record of a search (see `spec_searched`) and of the moves it searched.
pub open spec fn searched_moves<W>(w: W, m: Seq<RatedMove>) -> bool {
    m.len() >= 0
}

/// The option paths of the moves.
pub open spec fn move_paths(m: Seq<RatedMove>) -> Seq<Seq<IndexType>> {
    m.map_values(|mv: RatedMove| mv.1@)
}

/// `v` holds the best `limit` moves (or all of them) of the sorted cut
/// list `full`: a prefix of it.
pub open spec fn best_prefix<E: Rated>(full: Seq<E>, v: Seq<E>, limit: usize) -> bool {
    &&& sorted_desc(full)
    &&& v.len() == (if full.len() < limit { full.len() as int } else { limit as int })
    &&& v == full.take(v.len() as int)
}

/// Only the move limit drops moves from a sorted cut list, and it drops the
/// worst: each dropped move is rated no higher than each kept move, and
/// moves are dropped only when `limit` moves are kept.
pub proof fn lemma_best_prefix_keeps_best<E: Rated>(full: Seq<E>, v: Seq<E>, limit: usize)
    requires
        best_prefix(full, v, limit),
    ensures
        forall|a: int, b: int|
            0 <= a < v.len() && v.len() <= b < full.len() ==> #[trigger] full[b].spec_rating() <= #[trigger] v[a].spec_rating(),
        forall|a: int| 0 <= a < v.len() ==> full.contains(#[trigger] v[a]),
        v.len() < full.len() ==> v.len() == limit,
{
    assert forall|a: int, b: int| 0 <= a < v.len() && v.len() <= b < full.len() implies #[trigger] full[b].spec_rating()
        <= #[trigger] v[a].spec_rating() by {
        assert(v[a] == full[a]);
    }
    assert forall|a: int| 0 <= a < v.len() implies full.contains(#[trigger] v[a]) by {
        assert(v[a] == full[a]);
    }
}

/// `r` is the highest (`maximize`) or lowest rating of the non-empty `s`.
pub open spec fn is_best(s: Seq<RatingType>, r: RatingType, maximize: bool) -> bool {
    &&& s.contains(r)
    &&& forall|k: int| 0 <= k < s.len() ==> in_order(r as int, #[trigger] s[k] as int, maximize)
}

/// The ratings of a list of moves.
pub open spec fn ratings_of(s: Seq<(RatingType, Vec<IndexType>)>) -> Seq<RatingType> {
    s.map_values(|m: (RatingType, Vec<IndexType>)| m.0)
}

/// A move made from the position `s`, leading to the position `c` with the
/// context `cc`.
pub open spec fn move_record<T: GameData>(s: LoggingEngine<T>, c: LoggingEngine<T>, cc: (T::Context, usize)) -> bool {
    s.spec_is_pending_decision() || !s.spec_is_pending_decision()
}

/// A number of positions by which a rating was lowered.
pub open spec fn penalty_steps(i: int) -> bool {
    i >= 0
}

/// The errors that a search below the root can give: the game or the
/// parameters do not allow it.
pub open spec fn search_error(e: MinMaxError) -> bool {
    e is InvalidGame || e is InvalidParams
}

/// Every move of `kept` is at least as good as the rating `r` for the
/// player: at least as high on the player's own turn, at most as high
/// otherwise.
pub open spec fn kept_better<E: Rated>(kept: Seq<E>, r: int, is_own_turn: bool) -> bool {
    forall|a: int| 0 <= a < kept.len() ==> in_order((#[trigger] kept[a]).spec_rating(), r, is_own_turn)
}

/// `after` holds the moves of `before` that a branch cut keeps: sorted best
/// first for the player, at most `limit` of them, each within `diff` of
/// the best rating of `before`; all such moves while fewer than `limit`
/// are kept, and each such move that is dropped is no better than any
/// kept move.
pub open spec fn cut_kept<E: Rated>(before: Seq<E>, after: Seq<E>, limit: usize, diff: RatingType, is_own_turn: bool) -> bool {
    let best = best_of(before, is_own_turn, before.len() as int);
    &&& sorted_by(after, is_own_turn)
    &&& after.len() <= limit
    &&& forall|a: int| 0 <= a < after.len() ==> before.contains(#[trigger] after[a])
    &&& forall|a: int| 0 <= a < after.len() ==> -diff <= (#[trigger] after[a]).spec_rating() - best <= diff
    &&& after.len() < limit ==> forall|j: int|
        0 <= j < before.len() && -diff <= (#[trigger] before[j]).spec_rating() - best <= diff ==> after.contains(
            before[j],
        )
    &&& forall|j: int|
        0 <= j < before.len() && -diff <= (#[trigger] before[j]).spec_rating() - best <= diff && !after.contains(
            before[j],
        ) ==> kept_better(after, before[j].spec_rating(), is_own_turn)
}

/// A branch cut with a limit above zero and a difference of at least zero
/// always keeps a move with the best rating of the moves it is given: the
/// first kept move has that rating.
pub proof fn lemma_cut_keeps_best<E: Rated>(before: Seq<E>, after: Seq<E>, limit: usize, diff: RatingType, is_own_turn: bool)
    requires
        before.len() > 0,
        limit > 0,
        diff >= 0,
        cut_kept(before, after, limit, diff, is_own_turn),
    ensures
        after.len() > 0,
        after[0].spec_rating() == best_of(before, is_own_turn, before.len() as int),
{
    let best = best_of(before, is_own_turn, before.len() as int);
    lemma_best_of(before, is_own_turn, before.len() as int);
    let jb = choose|j: int| 0 <= j < before.len() && #[trigger] before[j].spec_rating() == best;
    assert(-diff <= before[jb].spec_rating() - best <= diff);
    if after.contains(before[jb]) {
        let a = choose|a: int| 0 <= a < after.len() && after[a] == before[jb];
        if a > 0 {
            assert(in_order(after[0].spec_rating(), after[a].spec_rating(), is_own_turn));
        }
    } else {
        assert(after.len() == limit);
        assert(kept_better(after, before[jb].spec_rating(), is_own_turn));
        assert(in_order(after[0].spec_rating(), before[jb].spec_rating(), is_own_turn));
    }
    assert(before.contains(after[0]));
    let c = choose|c: int| 0 <= c < before.len() && before[c] == after[0];
    assert(in_order(best, before[c].spec_rating(), is_own_turn));
}

/// A record of the moves that a search made: the positions before the
/// moves, the moves, the positions after them, their contexts and their
/// values.
pub open spec fn search_record<T: GameData>(
    w: (Seq<LoggingEngine<T>>, Seq<Seq<IndexType>>, Seq<LoggingEngine<T>>, Seq<(T::Context, usize)>, Seq<RatingType>),
) -> bool {
    w.1.len() == w.0.len()
}

/// The highest (`maximize`) or lowest rating.
pub fn best_of_ratings(ratings: &Vec<RatingType>, maximize: bool) -> (r: RatingType)
    requires
        ratings@.len() > 0,
    ensures
        is_best(ratings@, r, maximize),
{
    let mut best = ratings[0];
    assert(ratings@.subrange(0, 1)[0] == best);
    let mut k: usize = 1;
    while k < ratings.len()
        invariant
            1 <= k <= ratings@.len(),
            ratings@.subrange(0, k as int).contains(best),
            forall|a: int| 0 <= a < k ==> in_order(best as int, #[trigger] ratings@[a] as int, maximize),
        decreases ratings@.len() - k,
    {
        let v = ratings[k];
        let ghost prev = best;
        if (maximize && v > best) || (!maximize && v < best) {
            best = v;
        }
        proof {
            let s = ratings@.subrange(0, k + 1);
            if best == v {
                assert(s[k as int] == v);
            } else {
                let i = choose|i: int| 0 <= i < k && ratings@.subrange(0, k as int)[i] == prev;
                assert(s[i] == prev);
            }
        }
        k += 1;
    }
    assert(ratings@.subrange(0, ratings@.len() as int) =~= ratings@);
    best
}

/// The rating of the final state of a search: a game that is over counts
/// more the earlier it ended (`depth` is the depth left).
pub open spec fn spec_scaled_rating(val: RatingType, depth: int, finished: bool) -> int {
    if finished {
        val * (depth + 1)
    } else {
        val as int
    }
}

/// Scales the rating of the final state of a search; fails if the result
/// does not fit.
pub fn scale_final_rating(val: RatingType, depth: usize, finished: bool) -> (r: Result<RatingType, MinMaxError>)
    ensures
        r is Ok <==> i32::MIN <= spec_scaled_rating(val, depth as int, finished) <= i32::MAX,
        r matches Ok(v) ==> v == spec_scaled_rating(val, depth as int, finished),
        r is Err ==> r == Err::<RatingType, MinMaxError>(MinMaxError::InvalidGame),
{
    if !finished {
        return Ok(val);
    }
    assert(-0x8000_0000 * 0x1_0000_0000_0000_0000 <= (val as int) * (depth + 1) <= 0x8000_0000
        * 0x1_0000_0000_0000_0000) by (nonlinear_arith)
        requires
            -0x8000_0000 <= val < 0x8000_0000,
            0 <= depth < 0x1_0000_0000_0000_0000,
    ;
    let product: i128 = (val as i128) * ((depth as i128) + 1);
    if product < i32::MIN as i128 || product > i32::MAX as i128 {
        Err(MinMaxError::InvalidGame)
    } else {
        Ok(product as RatingType)
    }
}

/// The entries of a buffer sorted for the player, with the penalty for
/// their position.
pub open spec fn penalized(
    buffer: Seq<(RatingType, Vec<IndexType>, RatingList)>,
    choices: int,
    penalty: RatingType,
) -> Seq<(int, Vec<IndexType>, RatingList)> {
    let n = if choices < buffer.len() { choices } else { buffer.len() as int };
    Seq::new(n as nat, |i: int| (buffer[i].0 - i * penalty, buffer[i].1, buffer[i].2))
}

/// The number of entries that resolving the first `n` classes of `moves`
/// gives: each class yields the best `choices` of its move and of at most
/// `limit` of its equivalent moves.
pub open spec fn resolved_count(
    moves: Seq<(RatingType, Vec<IndexType>, Vec<Vec<IndexType>>, RatingList)>,
    n: int,
    choices: int,
    limit: int,
) -> int
    decreases n,
{
    if n <= 0 {
        0
    } else {
        let class_len = 1 + if moves[n - 1].2@.len() < limit { moves[n - 1].2@.len() as int } else { limit };
        resolved_count(moves, n - 1, choices, limit) + if choices < class_len { choices } else { class_len }
    }
}

/// All penalized ratings fit the rating type.
pub open spec fn penalized_fits(p: Seq<(int, Vec<IndexType>, RatingList)>) -> bool {
    forall|i: int| 0 <= i < p.len() ==> i32::MIN <= (#[trigger] p[i]).0 <= i32::MAX
}

/// Appends the first `choices` entries of the buffer, each with its rating
/// lowered by its position times `penalty`.  Fails if a rating does not fit.
pub fn append_penalized(
    buffer: Vec<(RatingType, Vec<IndexType>, RatingList)>,
    choices: usize,
    penalty: RatingType,
    result: &mut Vec<(RatingType, Vec<IndexType>, RatingList)>,
) -> (r: Result<(), MinMaxError>)
    ensures
        r is Ok <==> penalized_fits(penalized(buffer@, choices as int, penalty)),
        r is Ok ==> ({
            let p = penalized(buffer@, choices as int, penalty);
            &&& final(result)@.len() == old(result)@.len() + p.len()
            &&& final(result)@.subrange(0, old(result)@.len() as int) == old(result)@
            &&& forall|i: int| 0 <= i < p.len() ==> (#[trigger] final(result)@[old(result)@.len() + i]).0 == p[i].0
                && final(result)@[old(result)@.len() + i].1 == p[i].1 && final(result)@[old(result)@.len()
                + i].2 == p[i].2
        }),
        r is Err ==> r == Err::<(), MinMaxError>(MinMaxError::InvalidGame),
{
    let ghost orig = buffer@;
    let ghost start = result@.len();
    let ghost p = penalized(orig, choices as int, penalty);
    let mut src = buffer;
    let mut i: usize = 0;
    while i < choices && src.len() > 0
        invariant
            i <= choices,
            i + src@.len() == orig.len(),
            forall|a: int| 0 <= a < src@.len() ==> src@[a] == orig[i + a],
            p == penalized(orig, choices as int, penalty),
            orig == buffer@,
            i <= p.len(),
            result@.len() == start + i,
            result@.subrange(0, start as int) == old(result)@,
            forall|a: int| 0 <= a < i ==> i32::MIN <= (#[trigger] p[a]).0 <= i32::MAX,
            forall|a: int| 0 <= a < i ==> (#[trigger] result@[start + a]).0 == p[a].0 && result@[start + a].1
                == p[a].1 && result@[start + a].2 == p[a].2,
        decreases src@.len(),
    {
        let (rating, indizes, other) = src.remove(0);
        assert(-0x8000_0000 * 0x1_0000_0000_0000_0000 <= (i as int) * (penalty as int) <= 0x8000_0000
            * 0x1_0000_0000_0000_0000) by (nonlinear_arith)
            requires
                -0x8000_0000 <= penalty < 0x8000_0000,
                0 <= i < 0x1_0000_0000_0000_0000,
        ;
        let value: i128 = (rating as i128) - (i as i128) * (penalty as i128);
        if value < i32::MIN as i128 || value > i32::MAX as i128 {
            assert(i < p.len());
            assert(p[i as int].0 == orig[i as int].0 - i * penalty);
            assert(p[i as int].0 == value);
            assert(!penalized_fits(p));
            assert(p == penalized(buffer@, choices as int, penalty));
            return Err(MinMaxError::InvalidGame);
        }
        let ghost before = result@;
        result.push((value as RatingType, indizes, other));
        proof {
            assert(result@.subrange(0, start as int) =~= before.subrange(0, start as int));
        }
        i += 1;
    }
    assert(i == p.len());
    Ok(())
}

/// The signed rating of move `k`: its rating if the player maximizes, the
/// negated rating otherwise.
pub open spec fn signed_rating(moves: Seq<TreeEntry>, k: int, maximize: bool) -> int {
    if maximize {
        moves[k].rating as int
    } else {
        -(moves[k].rating as int)
    }
}

/// The best signed rating among the first `k` moves.
pub open spec fn best_signed(moves: Seq<TreeEntry>, maximize: bool, k: int) -> int
    decreases k,
{
    if k <= 1 {
        signed_rating(moves, 0, maximize)
    } else {
        let prev = best_signed(moves, maximize, k - 1);
        let last = signed_rating(moves, k - 1, maximize);
        if last > prev { last } else { prev }
    }
}

proof fn lemma_best_signed(moves: Seq<TreeEntry>, maximize: bool, k: int)
    requires
        1 <= k,
    ensures
        forall|j: int| 0 <= j < k ==> #[trigger] signed_rating(moves, j, maximize) <= best_signed(moves, maximize, k),
        exists|j: int| 0 <= j < k && #[trigger] signed_rating(moves, j, maximize) == best_signed(moves, maximize, k),
    decreases k,
{
    if k > 1 {
        lemma_best_signed(moves, maximize, k - 1);
        let prev = best_signed(moves, maximize, k - 1);
        if signed_rating(moves, k - 1, maximize) <= prev {
            let j = choose|j: int| 0 <= j < k - 1 && #[trigger] signed_rating(moves, j, maximize) == prev;
            assert(signed_rating(moves, j, maximize) == best_signed(moves, maximize, k));
        }
    } else {
        assert(signed_rating(moves, 0, maximize) == best_signed(moves, maximize, k));
    }
}

/// Keeps the moves with the best signed ratings: at least `min` (or all)
/// moves, beyond that those within `diff` of the best up to `max` moves.
/// Returns the positions of the kept moves in increasing order.
#[verifier::spinoff_prover]
pub fn within_bounds(moves: &Vec<TreeEntry>, maximize: bool, min: usize, max: usize, diff: RatingType) -> (r: Vec<usize>)
    requires
        diff >= 0,
    ensures
        increasing_below(r@, moves@.len() as int),
        forall|i: int, j: int| 0 <= i < r@.len() && 0 <= j < moves@.len() && !r@.contains(j as usize) ==> signed_rating(
            moves@,
            #[trigger] r@[i] as int,
            maximize,
        ) >= #[trigger] signed_rating(moves@, j, maximize),
        r@.len() >= (if min < moves@.len() { min as int } else { moves@.len() as int }),
        r@.len() <= moves@.len(),
        r@.len() > min ==> r@.len() <= max && forall|i: int| 0 <= i < r@.len() ==> #[trigger] signed_rating(
            moves@,
            r@[i] as int,
            maximize,
        ) + diff >= best_signed(moves@, maximize, moves@.len() as int),
        r@.len() < max && r@.len() < moves@.len() ==> forall|j: int| 0 <= j < moves@.len() && #[trigger] signed_rating(
            moves@,
            j,
            maximize,
        ) + diff >= best_signed(moves@, maximize, moves@.len() as int) ==> r@.contains(j as usize),
{
    let n = moves.len();
    if n == 0 {
        return Vec::new();
    }
    let mut keyed: Vec<(i64, usize)> = Vec::new();
    let mut k: usize = 0;
    while k < n
        invariant
            n == moves@.len(),
            k <= n,
            keyed@.len() == k,
            forall|a: int| 0 <= a < k ==> (#[trigger] keyed@[a]) == (signed_rating(moves@, a, maximize) as i64, a as usize),
            forall|a: int| 0 <= a < k ==> (#[trigger] keyed@[a]).0 as int == signed_rating(moves@, a, maximize),
        decreases n - k,
    {
        let rating = moves[k].rating as i64;
        let key: i64 = if maximize { rating } else { -rating };
        keyed.push((key, k));
        k += 1;
    }
    let ghost keys = keyed@;
    proof {
        assert forall|a: int, b: int| 0 <= a < keys.len() && 0 <= b < keys.len() && a != b implies keys[a] != keys[b] by {
            assert(keys[a].1 == a && keys[b].1 == b);
        }
        assert(keys.no_duplicates());
        keys.lemma_multiset_has_no_duplicates();
    }
    let sorted = sort_ordered(keyed, true);
    let ghost ss = sorted@;
    proof {
        assert(ss.to_multiset() == keys.to_multiset());
        assert forall|x: (i64, usize)| ss.to_multiset().contains(x) implies ss.to_multiset().count(x) == 1 by {}
        ss.lemma_multiset_has_no_duplicates_conv();
        assert(ss.len() == keys.len()) by {
            assert(ss.to_multiset().len() == ss.len());
            assert(keys.to_multiset().len() == keys.len());
        }
        assert forall|a: int| 0 <= a < ss.len() implies #[trigger] ss[a].1 < n && ss[a].0 as int == signed_rating(
            moves@,
            ss[a].1 as int,
            maximize,
        ) && -0x8000_0000 <= ss[a].0 <= 0x8000_0000 by {
            assert(ss.to_multiset().count(ss[a]) > 0);
            assert(keys.contains(ss[a]));
            let c = choose|c: int| 0 <= c < keys.len() && keys[c] == ss[a];
        }
        assert forall|j: int| 0 <= j < n implies ss.contains(#[trigger] keys[j]) && keys[j].1 == j by {
            assert(keys.to_multiset().count(keys[j]) > 0);
        }
    }
    proof {
        assert forall|a: int| 0 <= a < ss.len() implies -0x8000_0000 <= #[trigger] ss[a].0 <= 0x8000_0000 by {
            assert(ss[a].1 < n);
        }
    }
    let best = sorted[0].0;
    let mut index: usize = min;
    while index < n && index < max
        invariant
            n == ss.len(),
            sorted@ == ss,
            min <= index,
            forall|a: int| 0 <= a < ss.len() ==> -0x8000_0000 <= #[trigger] ss[a].0 <= 0x8000_0000,
            0 <= diff,
            forall|a: int| min <= a < index ==> #[trigger] ss[a].0 + diff >= best,
            (index > min) ==> index <= max && index <= n,
        ensures
            index >= n || index >= max || ss[index as int].0 + diff < best,
            forall|a: int| min <= a < index ==> #[trigger] ss[a].0 + diff >= best,
            (index > min) ==> index <= max && index <= n,
            min <= index,
        decreases n - index,
    {
        if sorted[index].0 + (diff as i64) < best {
            break;
        }
        index += 1;
    }
    let num = if index < n { index } else { n };
    let mut keep: Vec<bool> = Vec::new();
    let mut a: usize = 0;
    while a < n
        invariant
            a <= n,
            keep@.len() == a,
            forall|x: int| 0 <= x < a ==> !(#[trigger] keep@[x]),
        decreases n - a,
    {
        keep.push(false);
        a += 1;
    }
    let mut j: usize = 0;
    while j < num
        invariant
            num <= n,
            n == ss.len(),
            sorted@ == ss,
            keep@.len() == n,
            j <= num,
            forall|x: int| 0 <= x < ss.len() ==> #[trigger] ss[x].1 < n,
            forall|x: int| 0 <= x < n ==> (#[trigger] keep@[x] <==> exists|b: int| 0 <= b < j && ss[b].1 == x),
        decreases num - j,
    {
        let pos = sorted[j].1;
        keep.set(pos, true);
        j += 1;
    }
    let mut out: Vec<usize> = Vec::new();
    let mut x: usize = 0;
    while x < n
        invariant
            x <= n,
            keep@.len() == n,
            increasing_below(out@, x as int),
            forall|y: int| 0 <= y < x ==> (keep@[y] <==> out@.contains(y as usize)),
        decreases n - x,
    {
        let ghost before = out@;
        if keep[x] {
            out.push(x);
            proof {
                assert forall|y: int| 0 <= y < x + 1 implies (keep@[y] <==> out@.contains(y as usize)) by {
                    let yu = y as usize;
                    if y < x {
                        if before.contains(yu) {
                            let w = choose|w: int| 0 <= w < before.len() && before[w] == yu;
                            assert(out@[w] == yu);
                        }
                        if out@.contains(yu) {
                            let w = choose|w: int| 0 <= w < out@.len() && out@[w] == yu;
                            if w < before.len() {
                                assert(before[w] == yu);
                            } else {
                                assert(out@[w] == x);
                            }
                        }
                    } else {
                        assert(out@[before.len() as int] == yu);
                    }
                }
            }
        } else {
            proof {
                assert forall|y: int| 0 <= y < x + 1 implies (keep@[y] <==> out@.contains(y as usize)) by {
                    if y == x {
                        if out@.contains(x) {
                            let w = choose|w: int| 0 <= w < out@.len() && out@[w] == x;
                            assert(out@[w] < x);
                        }
                    }
                }
            }
        }
        x += 1;
    }
    proof {
        let sel = ss.subrange(0, num as int).map_values(|e: (i64, usize)| e.1);
        assert forall|b: int| 0 <= b < num implies #[trigger] sel[b] == ss[b].1 by {}
        assert(sel.no_duplicates()) by {
            assert forall|p: int, q: int| 0 <= p < sel.len() && 0 <= q < sel.len() && p != q implies sel[p] != sel[q] by {
                if sel[p] == sel[q] {
                    assert(sel[p] == ss[p].1 && sel[q] == ss[q].1);
                    assert(ss[p].0 == ss[q].0);
                    assert(ss[p] == ss[q]);
                }
            }
        }
        assert(out@.no_duplicates()) by {
            assert forall|p: int, q: int| 0 <= p < out@.len() && 0 <= q < out@.len() && p != q implies out@[p] != out@[q] by {
                if p < q {
                    assert(out@[p] < out@[q]);
                } else {
                    assert(out@[q] < out@[p]);
                }
            }
        }
        assert forall|y: usize| out@.contains(y) implies y < n && exists|b: int| 0 <= b < num && ss[b].1 == y by {
            let w = choose|w: int| 0 <= w < out@.len() && out@[w] == y;
            assert(out@[w] < n);
            assert(keep@[y as int]);
        }
        assert forall|b: int| 0 <= b < num implies out@.contains(#[trigger] ss[b].1) by {
            let y = ss[b].1;
            assert(y < n);
            assert(keep@[y as int]);
        }
        assert(out@.to_set() =~= sel.to_set()) by {
            assert forall|y: usize| out@.to_set().contains(y) implies sel.to_set().contains(y) by {
                assert(out@.contains(y));
                let b = choose|b: int| 0 <= b < num && ss[b].1 == y;
                assert(sel[b] == y);
                assert(sel.contains(y));
            }
            assert forall|y: usize| sel.to_set().contains(y) implies out@.to_set().contains(y) by {
                assert(sel.contains(y));
                let b = choose|b: int| 0 <= b < sel.len() && sel[b] == y;
                assert(sel[b] == ss[b].1);
                assert(out@.contains(ss[b].1));
            }
        }
        out@.unique_seq_to_set();
        sel.unique_seq_to_set();
        assert(out@.len() == num);
        assert forall|i: int, jj: int| 0 <= i < out@.len() && 0 <= jj < n && !out@.contains(jj as usize) implies signed_rating(
            moves@,
            #[trigger] out@[i] as int,
            maximize,
        ) >= #[trigger] signed_rating(moves@, jj, maximize) by {
            assert(out@.contains(out@[i]));
            let b = choose|b: int| 0 <= b < num && ss[b].1 == out@[i];
            assert(ss.contains(keys[jj]));
            let c = choose|c: int| 0 <= c < ss.len() && ss[c] == keys[jj];
            if c < num {
                assert(out@.contains(ss[c].1));
            }
            assert(in_order(ss[b].spec_rating(), ss[c].spec_rating(), true));
        }
        let b0 = ss[0].1 as int;
        assert forall|jj: int| 0 <= jj < n implies #[trigger] signed_rating(moves@, jj, maximize) <= signed_rating(moves@, b0, maximize) by {
            assert(ss.contains(keys[jj]));
            let c = choose|c: int| 0 <= c < ss.len() && ss[c] == keys[jj];
            if c > 0 {
                assert(in_order(ss[0].spec_rating(), ss[c].spec_rating(), true));
            }
        }
        lemma_best_signed(moves@, maximize, n as int);
        assert(best_signed(moves@, maximize, n as int) == best) by {
            let w = choose|w: int| 0 <= w < n && #[trigger] signed_rating(moves@, w, maximize) == best_signed(moves@, maximize, n as int);
            assert(signed_rating(moves@, w, maximize) <= signed_rating(moves@, b0, maximize));
            assert(signed_rating(moves@, b0, maximize) <= best_signed(moves@, maximize, n as int));
        }
        if out@.len() > min {
            assert(num == index);
            assert forall|i: int| 0 <= i < out@.len() implies #[trigger] signed_rating(moves@, out@[i] as int, maximize) + diff
                >= best by {
                assert(out@.contains(out@[i]));
                let b = choose|b: int| 0 <= b < num && ss[b].1 == out@[i];
                if b < min {
                    assert(ss[index - 1].0 + diff >= best);
                    assert(in_order(ss[b].spec_rating(), ss[index - 1].spec_rating(), true));
                } else {
                    assert(ss[b].0 + diff >= best);
                }
            }
        }
        if out@.len() < max && out@.len() < n {
            assert(index < n && index < max);
            assert(ss[index as int].0 + diff < best);
            assert forall|jj: int| 0 <= jj < n && #[trigger] signed_rating(moves@, jj, maximize) + diff >= best
                implies out@.contains(jj as usize) by {
                assert(ss.contains(keys[jj]));
                let c = choose|c: int| 0 <= c < ss.len() && ss[c] == keys[jj];
                if c >= num {
                    if c > index {
                        assert(in_order(ss[index as int].spec_rating(), ss[c].spec_rating(), true));
                    }
                } else {
                    assert(out@.contains(ss[c].1));
                }
            }
        }
    }
    out
}

/// The min-max search: explores the moves of both players to a depth,
/// cuts moves with low ratings and rates each move by the best outcome the
/// players can reach.
pub struct MinMaxAlgorithm<R, P> {
    pub params: Params,
    pub rate_and_map: R,
    pub pruning_fn: P,
}

impl<R> MinMaxAlgorithm<R, KeepAllPruning> {
    /// An algorithm that keeps all moves of the search tree between runs.
    pub fn new(params: Params, rate_and_map: R) -> (r: Self)
        ensures
            r.params == params,
            r.rate_and_map == rate_and_map,
    {
        Self::with_pruning(params, rate_and_map, KeepAllPruning {})
    }
}

impl<R, P: PruningFunction> MinMaxAlgorithm<R, P> {
    pub fn with_pruning(params: Params, rate_and_map: R, pruning_fn: P) -> (r: Self)
        ensures
            r.params == params,
            r.rate_and_map == rate_and_map,
            r.pruning_fn == pruning_fn,
    {
        MinMaxAlgorithm { params, rate_and_map, pruning_fn }
    }

    pub fn rate_and_map(&self) -> (r: &R)
        ensures
            *r == self.rate_and_map,
    {
        &self.rate_and_map
    }

    /// Sorts the moves for the player (best first), keeps those within the
    /// branch cut difference of the best and then at most the branch cut
    /// limit of them.
    pub fn cut_moves<E: Rated>(&self, moves: &mut Vec<E>, sliding: Sliding, is_own_turn: bool)
        requires
            old(moves)@.len() > 0,
            sliding.start < sliding.params.branch_cut_limit@.len(),
            sliding.start < sliding.params.branch_cut_difference@.len(),
        ensures
            cut_kept(
                old(moves)@,
                final(moves)@,
                sliding.params.branch_cut_limit@[sliding.start as int],
                sliding.params.branch_cut_difference@[sliding.start as int],
                is_own_turn,
            ),
    {
        let limit = sliding.branch_cut_limit();
        let diff = sliding.branch_cut_difference() as i64;
        let ghost orig = moves@;
        let mut taken: Vec<E> = Vec::new();
        std::mem::swap(moves, &mut taken);
        let sorted = sort_ordered(taken, is_own_turn);
        let ghost ss = sorted@;
        proof {
            assert(ss.to_multiset() == orig.to_multiset());
            assert(ss.len() == orig.len()) by {
                assert(ss.to_multiset().len() == ss.len());
                assert(orig.to_multiset().len() == orig.len());
            }
            assert(ss.to_multiset().count(ss[0]) > 0);
            assert(orig.contains(ss[0]));
        }
        let best = sorted[0].rating();
        proof {
            assert forall|j: int| 0 <= j < orig.len() implies in_order(ss[0].spec_rating(), #[trigger] orig[j].spec_rating(), is_own_turn) by {
                assert(orig.to_multiset().count(orig[j]) > 0);
                assert(ss.contains(orig[j]));
                let c = choose|c: int| 0 <= c < ss.len() && ss[c] == orig[j];
                if c > 0 {
                    assert(in_order(ss[0].spec_rating(), ss[c].spec_rating(), is_own_turn));
                }
            }
            lemma_best_of(orig, is_own_turn, orig.len() as int);
            let w = choose|w: int| 0 <= w < orig.len() && #[trigger] orig[w].spec_rating() == best_of(orig, is_own_turn, orig.len() as int);
            assert(in_order(ss[0].spec_rating(), orig[w].spec_rating(), is_own_turn));
            let b = choose|b: int| 0 <= b < orig.len() && orig[b] == ss[0];
            assert(in_order(best_of(orig, is_own_turn, orig.len() as int), orig[b].spec_rating(), is_own_turn));
            assert(best_of(orig, is_own_turn, orig.len() as int) == best);
        }
        let mut src = sorted;
        let ghost mut consumed: int = 0;
        while src.len() > 0
            invariant
                ss.len() == consumed + src@.len(),
                forall|a: int| 0 <= a < src@.len() ==> src@[a] == ss[consumed + a],
                sorted_by(ss, is_own_turn),
                sorted_by(moves@, is_own_turn),
                moves@.len() <= limit,
                forall|a: int| 0 <= a < moves@.len() ==> ss.contains(#[trigger] moves@[a]),
                forall|a: int| 0 <= a < moves@.len() ==> -diff <= (#[trigger] moves@[a]).spec_rating() - best <= diff,
                forall|a: int| 0 <= a < moves@.len() ==> exists|c: int| 0 <= c < consumed && ss[c] == #[trigger] moves@[a],
                moves@.len() < limit ==> forall|c: int| 0 <= c < consumed && -diff <= (#[trigger] ss[c]).spec_rating() - best <= diff
                    ==> moves@.contains(ss[c]),
                forall|c: int| 0 <= c < consumed && -diff <= (#[trigger] ss[c]).spec_rating() - best <= diff
                    && !moves@.contains(ss[c]) ==> kept_better(moves@, ss[c].spec_rating(), is_own_turn),
                0 <= consumed <= ss.len(),
            decreases src@.len(),
        {
            let e = src.remove(0);
            let ghost c0 = consumed;
            let r = e.rating();
            let gap = (r as i128) - (best as i128);
            if gap <= diff as i128 && -gap <= diff as i128 && moves.len() < limit {
                let ghost before = moves@;
                moves.push(e);
                proof {
                    assert forall|p: int, q: int| 0 <= p < q < moves@.len() implies in_order(
                        moves@[p].spec_rating(),
                        moves@[q].spec_rating(),
                        is_own_turn,
                    ) by {
                        if q == moves@.len() - 1 {
                            let cp = choose|c: int| 0 <= c < c0 && ss[c] == before[p];
                            assert(in_order(ss[cp].spec_rating(), ss[c0].spec_rating(), is_own_turn));
                        }
                    }
                    assert forall|c: int| 0 <= c < c0 + 1 && moves@.len() < limit && -diff <= (#[trigger] ss[c]).spec_rating() - best <= diff
                        implies moves@.contains(ss[c]) by {
                        if c < c0 {
                            assert(before.contains(ss[c]));
                            let w = choose|w: int| 0 <= w < before.len() && before[w] == ss[c];
                            assert(moves@[w] == ss[c]);
                        } else {
                            assert(moves@[moves@.len() - 1] == ss[c]);
                        }
                    }
                    assert forall|a: int| 0 <= a < moves@.len() implies exists|c: int| 0 <= c < c0 + 1 && ss[c] == #[trigger] moves@[a] by {
                        if a == moves@.len() - 1 {
                            assert(ss[c0] == moves@[a]);
                        } else {
                            assert(moves@[a] == before[a]);
                        }
                    }
                    assert forall|c: int| 0 <= c < c0 + 1 && -diff <= (#[trigger] ss[c]).spec_rating() - best <= diff
                        && !moves@.contains(ss[c]) implies kept_better(moves@, ss[c].spec_rating(), is_own_turn) by {
                        if c < c0 {
                            assert(before.len() < limit);
                            assert(before.contains(ss[c]));
                            let w = choose|w: int| 0 <= w < before.len() && before[w] == ss[c];
                            assert(moves@[w] == ss[c]);
                        } else {
                            assert(moves@[moves@.len() - 1] == ss[c]);
                        }
                    }
                }
            } else {
                proof {
                    assert forall|a: int| 0 <= a < moves@.len() implies exists|c: int| 0 <= c < c0 + 1 && ss[c] == #[trigger] moves@[a] by {
                        let c = choose|c: int| 0 <= c < c0 && ss[c] == moves@[a];
                    }
                    assert forall|c: int| 0 <= c < c0 + 1 && -diff <= (#[trigger] ss[c]).spec_rating() - best <= diff
                        && !moves@.contains(ss[c]) implies kept_better(moves@, ss[c].spec_rating(), is_own_turn) by {
                        if c == c0 {
                            assert forall|a: int| 0 <= a < moves@.len() implies in_order(
                                (#[trigger] moves@[a]).spec_rating(),
                                ss[c].spec_rating(),
                                is_own_turn,
                            ) by {
                                let cp = choose|cp: int| 0 <= cp < c0 && ss[cp] == moves@[a];
                                assert(in_order(ss[cp].spec_rating(), ss[c0].spec_rating(), is_own_turn));
                            }
                        }
                    }
                }
            }
            proof {
                consumed = consumed + 1;
            }
        }
        proof {
            assert forall|a: int| 0 <= a < moves@.len() implies orig.contains(#[trigger] moves@[a]) by {
                assert(ss.contains(moves@[a]));
                assert(ss.to_multiset().count(moves@[a]) > 0);
            }
            assert forall|j: int| 0 <= j < orig.len() && -diff <= (#[trigger] orig[j]).spec_rating() - best <= diff
                && !moves@.contains(orig[j]) implies kept_better(moves@, orig[j].spec_rating(), is_own_turn) by {
                assert(orig.to_multiset().count(orig[j]) > 0);
                assert(ss.contains(orig[j]));
                let c = choose|c: int| 0 <= c < ss.len() && ss[c] == orig[j];
            }
            if moves@.len() < limit {
                assert forall|j: int| 0 <= j < orig.len() && -diff <= (#[trigger] orig[j]).spec_rating() - best <= diff
                    implies moves@.contains(orig[j]) by {
                    assert(orig.to_multiset().count(orig[j]) > 0);
                    assert(ss.contains(orig[j]));
                    let c = choose|c: int| 0 <= c < ss.len() && ss[c] == orig[j];
                }
            }
        }
    }

    /// `v` is what `create_move_ratings` can give for a position with the
    /// data and the moves made so far `ctx`: after `rate_moves`, the best
    /// `limit` entries of the sorted cut list of the moves rated within
    /// `diff` of the highest rating.
    pub open spec fn spec_move_ratings<T: GameData, E: CutRater>(
        &self,
        data: T,
        ctx: Seq<(T::Context, usize)>,
        diff: RatingType,
        limit: usize,
        v: Seq<E>,
    ) -> bool
        where
            R: RateAndMap<T>,
    {
        exists|w: (Rater, Rater, Seq<T::Context>, Seq<E>)| #[trigger] ratings_record(w)
            && self.rate_and_map.spec_rated_moves(w.0, w.1, w.2, data, ctx) && E::spec_cut_result(
            w.1,
            cut_minimum(w.1.spec_max_rating(), diff),
            w.3,
        ) && best_prefix(w.3, v, limit)
    }

    /// `x` is a min-max value of the position of the engine `e`, with the
    /// moves made so far `ctx`, searching `depth` moves deep for `player`:
    /// at depth 0 or in a finished game the scaled rating of the position,
    /// and otherwise the best value, for the player whose turn it is, of the
    /// values one move less deep of the positions that the kept moves lead
    /// to (see `spec_searched`).
    pub open spec fn spec_min_max_value<T: GameData>(
        &self,
        depth: int,
        e: LoggingEngine<T>,
        ctx: Seq<(T::Context, usize)>,
        player: usize,
        x: RatingType,
    ) -> bool
        where
            R: RateAndMap<T>,
        decreases depth, 2int,
    {
        if depth <= 0 || e.spec_is_finished() {
            exists|v: RatingType| #[trigger] self.rate_and_map.spec_rates(e.spec_data(), ctx, player, v) && x
                == spec_scaled_rating(v, depth, e.spec_is_finished())
        } else {
            exists|w: (Seq<LoggingEngine<T>>, Seq<Seq<IndexType>>, Seq<LoggingEngine<T>>, Seq<(T::Context, usize)>, Seq<RatingType>)|
                #[trigger] search_record(w) && self.spec_searched(depth, e, ctx, player, w, x)
        }
    }

    /// The moves `w.1` were made from the positions `w.0` (the first one the
    /// position of `e`, each next one the position after taking back the
    /// move before), leading to the positions `w.2` with the contexts `w.3`;
    /// their values one move less deep are `w.4`, and `x` is the highest of
    /// them on the player's own turn and the lowest otherwise.
    pub open spec fn spec_searched<T: GameData>(
        &self,
        depth: int,
        e: LoggingEngine<T>,
        ctx: Seq<(T::Context, usize)>,
        player: usize,
        w: (Seq<LoggingEngine<T>>, Seq<Seq<IndexType>>, Seq<LoggingEngine<T>>, Seq<(T::Context, usize)>, Seq<RatingType>),
        x: RatingType,
    ) -> bool
        where
            R: RateAndMap<T>,
        decreases depth, 1int,
    {
        let n = w.1.len();
        &&& depth > 0
        &&& n > 0
        &&& w.0.len() == n && w.2.len() == n && w.3.len() == n && w.4.len() == n
        &&& w.0[0].spec_same_decisions(e)
        &&& forall|k: int| #![trigger w.1[k]] 0 <= k < n ==> self.spec_move_searched(
            depth,
            ctx,
            player,
            w.0[k],
            w.1[k],
            w.2[k],
            w.3[k],
            w.4[k],
        )
        &&& is_best(w.4, x, e.spec_player() == player)
    }

    /// `v` is the value one move less deep of a position that the move
    /// `path` leads to, made from a position at the start of a move with the
    /// moves made so far `ctx`.
    pub open spec fn spec_move_value<T: GameData>(
        &self,
        depth: int,
        ctx: Seq<(T::Context, usize)>,
        player: usize,
        path: Seq<IndexType>,
        v: RatingType,
    ) -> bool
        where
            R: RateAndMap<T>,
    {
        exists|s: LoggingEngine<T>, c: LoggingEngine<T>, cc: (T::Context, usize)| #[trigger] move_record(s, c, cc)
            && self.spec_move_searched(depth, ctx, player, s, path, c, cc, v)
    }

    /// `best` and `moves` are what collecting the position of `e` with the
    /// moves made so far `ctx` can give, `depth` moves deep: at depth 0 or
    /// in a finished game the scaled rating without moves; otherwise moves,
    /// each rated by the min-max value of its position (lowered by the
    /// penalty for its place in its class), and the best of these ratings
    /// for the player whose turn it is.
    pub open spec fn spec_collected<T: GameData>(
        &self,
        depth: int,
        e: LoggingEngine<T>,
        ctx: Seq<(T::Context, usize)>,
        player: usize,
        best: RatingType,
        moves: Seq<(RatingType, Vec<IndexType>)>,
    ) -> bool
        where
            R: RateAndMap<T>,
    {
        if depth <= 0 || e.spec_is_finished() {
            &&& moves.len() == 0
            &&& exists|v: RatingType| #[trigger] self.rate_and_map.spec_rates(e.spec_data(), ctx, player, v) && best
                == spec_scaled_rating(v, depth, e.spec_is_finished())
        } else {
            &&& moves.len() > 0
            &&& is_best(ratings_of(moves), best, e.spec_player() == player)
            &&& forall|a: int| 0 <= a < moves.len() ==> self.spec_rated_entry(
                depth,
                ctx,
                player,
                self.params.equivalency_penalty,
                (#[trigger] moves[a]).1@,
                moves[a].0,
            )
        }
    }

    /// `rating` and `answers` are what collecting gives one move less deep
    /// for a position that the move `path` leads to, made from a position at
    /// the start of a move with the moves made so far `ctx`.
    pub open spec fn spec_answered_value<T: GameData>(
        &self,
        depth: int,
        ctx: Seq<(T::Context, usize)>,
        player: usize,
        path: Seq<IndexType>,
        rating: RatingType,
        answers: Seq<(RatingType, Vec<IndexType>)>,
    ) -> bool
        where
            R: RateAndMap<T>,
    {
        exists|s: LoggingEngine<T>, c: LoggingEngine<T>, cc: (T::Context, usize)| #[trigger] move_record(s, c, cc)
            && depth > 0 && s.spec_is_pending_decision() && s.spec_level() == 0 && move_made(s, path, c, cc)
            && self.spec_collected(depth - 1, c, ctx.push(cc), player, rating, answers)
    }

    /// `rating` is such a rating of the move `path` with its answers,
    /// lowered by `penalty` once for each position before it among the moves
    /// of its class.
    pub open spec fn spec_rated_answer<T: GameData>(
        &self,
        depth: int,
        ctx: Seq<(T::Context, usize)>,
        player: usize,
        penalty: RatingType,
        path: Seq<IndexType>,
        rating: RatingType,
        answers: Seq<(RatingType, Vec<IndexType>)>,
    ) -> bool
        where
            R: RateAndMap<T>,
    {
        exists|i: int| #[trigger] penalty_steps(i) && i32::MIN <= rating + i * penalty <= i32::MAX
            && self.spec_answered_value(depth, ctx, player, path, (rating + i * penalty) as RatingType, answers)
    }

    /// `rating` is such a value of the move `path`, lowered by `penalty`
    /// once for each position before it among the moves of its class.
    pub open spec fn spec_rated_entry<T: GameData>(
        &self,
        depth: int,
        ctx: Seq<(T::Context, usize)>,
        player: usize,
        penalty: RatingType,
        path: Seq<IndexType>,
        rating: RatingType,
    ) -> bool
        where
            R: RateAndMap<T>,
    {
        exists|i: int| #[trigger] penalty_steps(i) && i32::MIN <= rating + i * penalty <= i32::MAX
            && self.spec_move_value(depth, ctx, player, path, (rating + i * penalty) as RatingType)
    }

    /// The move `path` made from the position `s` at the start of a move
    /// leads to the position `c` with the context `cc`, whose value one move
    /// less deep is `v`.
    pub open spec fn spec_move_searched<T: GameData>(
        &self,
        depth: int,
        ctx: Seq<(T::Context, usize)>,
        player: usize,
        s: LoggingEngine<T>,
        path: Seq<IndexType>,
        c: LoggingEngine<T>,
        cc: (T::Context, usize),
        v: RatingType,
    ) -> bool
        where
            R: RateAndMap<T>,
        decreases depth, 0int,
    {
        &&& depth > 0
        &&& s.spec_is_pending_decision() && s.spec_level() == 0
        &&& move_made(s, path, c, cc)
        &&& self.spec_min_max_value(depth - 1, c, ctx.push(cc), player, v)
    }

    /// Rates the moves of the pending top-level decision, keeps those within
    /// `move_cut_difference` of the best and at most `move_limit` of them,
    /// sorted by decreasing rating.  The engine ends where it started.
    pub fn create_move_ratings<'a, T: GameData, E: CutRater>(
        &self,
        stepper: &mut EngineStepper<'a, T>,
        move_cut_difference: RatingType,
        move_limit: usize,
    ) -> (r: Result<Vec<E>, MinMaxError>)
        where
            R: RateAndMap<T>,
        requires
            old(stepper).at_move_start(),
            !old(stepper).engine.spec_is_finished(),
        ensures
            final(stepper).engine.wf(),
            r is Ok ==> final(stepper).at_move_start() && !final(stepper).engine.spec_is_finished()
                && final(stepper).spec_decision_context() == old(stepper).spec_decision_context(),
            r matches Ok(v) ==> sorted_desc(v@) && v@.len() <= move_limit && (move_limit > 0 ==> v@.len() > 0),
            r is Err ==> r == Err::<Vec<E>, MinMaxError>(MinMaxError::InvalidGame),
            r is Ok ==> final(stepper).engine.spec_same_decisions(*old(stepper).engine),
            r matches Ok(v) ==> exists|w: (Rater, Rater, Seq<T::Context>, Seq<E>)| #[trigger] ratings_record(w)
                && self.rate_and_map.spec_rated_moves(
                w.0,
                w.1,
                w.2,
                old(stepper).engine.spec_data(),
                old(stepper).spec_decision_context(),
            ) && E::spec_cut_result(w.1, cut_minimum(w.1.spec_max_rating(), move_cut_difference), w.3) && best_prefix(
                w.3,
                v@,
                move_limit,
            ),
    {
        let ghost ctx = stepper.spec_decision_context();
        let rm = &self.rate_and_map;
        let (mut rater, contexts) = match Rater::new(
            stepper.engine(),
            |c: &T::Context| -> (d: DecisionType) { rm.apply_type_mapping(c) },
        ) {
            Ok(pair) => pair,
            Err(e) => {
                return Err(MinMaxError::InvalidGame);
            },
        };
        let ghost unrated = rater;
        self.rate_and_map.rate_moves(&mut rater, &contexts, stepper.data(), stepper.decision_context());
        let ghost rated = rater;
        if !rater.all_rated() {
            return Err(MinMaxError::InvalidGame);
        }
        let max = rater.current_max() as i64;
        let low = max - (move_cut_difference as i64);
        let min: RatingType = if low < i32::MIN as i64 {
            i32::MIN
        } else if low > i32::MAX as i64 {
            i32::MAX
        } else {
            low as RatingType
        };
        proof {
            stepper.engine.lemma_exclusive_states();
        }
        let mut result = E::cut_rater(rater, min);
        let ghost full = result@;
        if result.len() == 0 {
            return Err(MinMaxError::InvalidGame);
        }
        if result.len() > move_limit {
            result.truncate(move_limit);
        }
        proof {
            assert(min == cut_minimum(rated.spec_max_rating(), move_cut_difference));
            assert(result@ =~= full.take(result@.len() as int));
            let w = (unrated, rated, contexts@, full);
            assert(ratings_record(w));
            assert(best_prefix(full, result@, move_limit));
        }
        Ok(result)
    }

    /// The rating of the state the stepper is in, for the player.
    pub fn final_rating<'a, T: GameData>(&self, depth: usize, stepper: &EngineStepper<'a, T>, player: usize) -> (r:
        Result<RatingType, MinMaxError>)
        where
            R: RateAndMap<T>,
        ensures
            r is Err ==> r == Err::<RatingType, MinMaxError>(MinMaxError::InvalidGame),
            !old(stepper.engine).spec_is_finished() ==> r is Ok,
            exists|v: RatingType| #[trigger] self.rate_and_map.spec_rates(
                old(stepper.engine).spec_data(),
                stepper.spec_decision_context(),
                player,
                v,
            ) && (r is Ok <==> i32::MIN <= spec_scaled_rating(v, depth as int, old(stepper.engine).spec_is_finished())
                <= i32::MAX) && (r matches Ok(x) ==> x == spec_scaled_rating(
                v,
                depth as int,
                old(stepper.engine).spec_is_finished(),
            )),
    {
        let val = self.rate_and_map.rate_game_state(stepper.data(), stepper.decision_context(), player);
        scale_final_rating(val, depth, stepper.is_finished())
    }

    /// The min-max rating of the position for the player, searching `depth`
    /// moves deep.
    pub fn min_max<'a, T: GameData>(
        &self,
        depth: usize,
        stepper: &mut EngineStepper<'a, T>,
        player: usize,
        sliding: Sliding,
    ) -> (r: Result<RatingType, MinMaxError>)
        where
            R: RateAndMap<T>,
        requires
            old(stepper).at_move_start(),
            sliding.spec_covers_moves(depth as int),
        ensures
            final(stepper).engine.wf(),
            r is Ok ==> final(stepper).at_move_start() && final(stepper).spec_decision_context()
                == old(stepper).spec_decision_context(),
            depth == 0 || old(stepper).engine.spec_is_finished() ==> *final(stepper) == *old(stepper),
            r matches Err(e) ==> search_error(e),
            depth == 0 || old(stepper).engine.spec_is_finished() ==> exists|v: RatingType| #[trigger] self.rate_and_map.spec_rates(
                old(stepper).engine.spec_data(),
                old(stepper).spec_decision_context(),
                player,
                v,
            ) && (r is Ok <==> i32::MIN <= spec_scaled_rating(v, depth as int, old(stepper).engine.spec_is_finished())
                <= i32::MAX) && (r matches Ok(x) ==> x == spec_scaled_rating(
                v,
                depth as int,
                old(stepper).engine.spec_is_finished(),
            )),
            r matches Ok(x) ==> self.spec_min_max_value(
                depth as int,
                *old(stepper).engine,
                old(stepper).spec_decision_context(),
                player,
                x,
            ),
            depth > 0 && !old(stepper).engine.spec_is_finished() ==> (r matches Ok(x) ==> exists|
                w: (Seq<LoggingEngine<T>>, Seq<Seq<IndexType>>, Seq<LoggingEngine<T>>, Seq<(T::Context, usize)>, Seq<RatingType>),
                m: Seq<RatedMove>,
            |
                #[trigger] searched_moves(w, m) && self.spec_searched(
                    depth as int,
                    *old(stepper).engine,
                    old(stepper).spec_decision_context(),
                    player,
                    w,
                    x,
                ) && self.spec_move_ratings(
                    old(stepper).engine.spec_data(),
                    old(stepper).spec_decision_context(),
                    sliding.params.move_cut_difference@[sliding.start as int],
                    sliding.params.move_limit@[sliding.start as int],
                    m,
                ) && w.1 == move_paths(m)),
        decreases depth,
    {
        if depth == 0 || stepper.is_finished() {
            return self.final_rating(depth, stepper, player);
        }
        let ghost ctx = stepper.spec_decision_context();
        let is_own_turn = match stepper.player() {
            Ok(p) => p == player,
            Err(e) => {
                return Err(e);
            },
        };
        let moves = match self.create_move_ratings::<T, RatedMove>(
            stepper,
            sliding.move_cut_difference(),
            sliding.move_limit(),
        ) {
            Ok(m) => m,
            Err(e) => {
                return Err(e);
            },
        };
        if moves.len() == 0 {
            return Err(MinMaxError::InvalidParams);
        }
        let ghost rated_ok = self.spec_move_ratings(
            old(stepper).engine.spec_data(),
            ctx,
            sliding.params.move_cut_difference@[sliding.start as int],
            sliding.params.move_limit@[sliding.start as int],
            moves@,
        );
        assert(rated_ok);
        let next = sliding.next();
        let mut ratings: Vec<RatingType> = Vec::new();
        let mut k: usize = 0;
        let ghost e0 = *old(stepper).engine;
        let ghost mut starts: Seq<LoggingEngine<T>> = Seq::empty();
        let ghost mut paths: Seq<Seq<IndexType>> = Seq::empty();
        let ghost mut children: Seq<LoggingEngine<T>> = Seq::empty();
        let ghost mut cctx: Seq<(T::Context, usize)> = Seq::empty();
        proof {
            assert(stepper.engine.spec_same_decisions(e0));
        }
        while k < moves.len()
            invariant
                stepper.at_move_start(),
                stepper.spec_decision_context() == ctx,
                next.spec_covers_moves(depth - 1),
                depth > 0,
                !old(stepper).engine.spec_is_finished(),
                k <= moves@.len(),
                ratings@.len() == k,
                e0 == *old(stepper).engine,
                ctx == old(stepper).spec_decision_context(),
                starts.len() == k && paths.len() == k && children.len() == k && cctx.len() == k,
                rated_ok,
                k == 0 ==> stepper.engine.spec_same_decisions(e0),
                k > 0 ==> starts[0].spec_same_decisions(e0),
                forall|j: int| 0 <= j < k ==> paths[j] == moves@[j].1@,
                forall|j: int| 0 <= j < k ==> #[trigger] self.spec_move_searched(
                    depth as int,
                    ctx,
                    player,
                    starts[j],
                    paths[j],
                    children[j],
                    cctx[j],
                    ratings@[j],
                ),
            decreases moves@.len() - k,
        {
            let ghost s_k = *stepper.engine;
            proof {
                stepper.engine.lemma_exclusive_states();
            }
            match stepper.forward_step(&moves[k].1) {
                Ok(()) => {},
                Err(e) => {
                    return Err(e);
                },
            }
            let ghost ctx1 = stepper.spec_decision_context();
            let ghost c_k = *stepper.engine;
            proof {
                assert(ctx1 =~= ctx.push(ctx1.last()));
            }
            let rating = match self.min_max(depth - 1, stepper, player, next) {
                Ok(v) => v,
                Err(e) => {
                    return Err(e);
                },
            };
            match stepper.backward_step() {
                Ok(_) => {},
                Err(e) => {
                    return Err(e);
                },
            }
            proof {
                assert(ctx1.drop_last() =~= ctx1.subrange(0, ctx.len() as int));
                assert(self.spec_move_searched(depth as int, ctx, player, s_k, moves@[k as int].1@, c_k, ctx1.last(), rating));
                let old_ratings = ratings@;
                starts = starts.push(s_k);
                paths = paths.push(moves@[k as int].1@);
                children = children.push(c_k);
                cctx = cctx.push(ctx1.last());
            }
            ratings.push(rating);
            proof {
                assert forall|j: int| 0 <= j < k + 1 implies #[trigger] self.spec_move_searched(
                    depth as int,
                    ctx,
                    player,
                    starts[j],
                    paths[j],
                    children[j],
                    cctx[j],
                    ratings@[j],
                ) by {
                }
            }
            k += 1;
        }
        let x = best_of_ratings(&ratings, is_own_turn);
        proof {
            let w = (starts, paths, children, cctx, ratings@);
            assert(w.1.len() > 0);
            assert(w.0.len() == w.1.len() && w.2.len() == w.1.len() && w.3.len() == w.1.len() && w.4.len() == w.1.len());
            assert(w.0[0].spec_same_decisions(e0));
            assert(is_own_turn == (e0.spec_player() == player));
            assert(is_best(w.4, x, e0.spec_player() == player));
            assert forall|j: int| #![trigger w.1[j]] 0 <= j < w.1.len() implies self.spec_move_searched(
                depth as int,
                ctx,
                player,
                w.0[j],
                w.1[j],
                w.2[j],
                w.3[j],
                w.4[j],
            ) by {
                assert(self.spec_move_searched(depth as int, ctx, player, starts[j], paths[j], children[j], cctx[j], ratings@[j]));
            }
            assert(self.spec_searched(depth as int, e0, ctx, player, w, x));
            assert(search_record(w));
            assert(paths =~= move_paths(moves@));
            assert(searched_moves(w, moves@));
        }
        Ok(x)
    }

    /// Evaluates the move that the stepper has just made, one level below
    /// `depth`: the best rating with the rated answers when `with_answers`,
    /// the min-max rating alone otherwise.
    fn evaluate<'a, T: GameData>(
        &self,
        with_answers: bool,
        depth: usize,
        stepper: &mut EngineStepper<'a, T>,
        player: usize,
        delay_depth: usize,
        next: Sliding,
    ) -> (r: Result<(RatingType, RatingList), MinMaxError>)
        where
            R: RateAndMap<T>,
        requires
            old(stepper).at_move_start(),
            depth > 0,
            next.spec_covers(depth - 1),
            2 * delay_depth <= usize::MAX,
        ensures
            final(stepper).engine.wf(),
            r is Ok ==> final(stepper).at_move_start() && final(stepper).spec_decision_context()
                == old(stepper).spec_decision_context(),
            r matches Err(e) ==> search_error(e),
            !with_answers ==> (r matches Ok((x, l)) ==> l@.len() == 0),
            !with_answers ==> (r matches Ok((x, l)) ==> self.spec_min_max_value(
                depth - 1,
                *old(stepper).engine,
                old(stepper).spec_decision_context(),
                player,
                x,
            )),
            with_answers ==> (r matches Ok((x, l)) ==> self.spec_collected(
                depth - 1,
                *old(stepper).engine,
                old(stepper).spec_decision_context(),
                player,
                x,
                l@,
            )),
            depth == 1 || old(stepper).engine.spec_is_finished() ==> *final(stepper) == *old(stepper),
            (depth - 1) == 0 || old(stepper).engine.spec_is_finished() ==> exists|v: RatingType| #[trigger] self.rate_and_map.spec_rates(
                old(stepper).engine.spec_data(),
                old(stepper).spec_decision_context(),
                player,
                v,
            ) && (r is Ok <==> i32::MIN <= spec_scaled_rating(v, (depth - 1) as int, old(stepper).engine.spec_is_finished())
                <= i32::MAX) && (r matches Ok((x, l)) ==> x == spec_scaled_rating(
                v,
                (depth - 1) as int,
                old(stepper).engine.spec_is_finished(),
            ) && l@.len() == 0),
        decreases depth, 1nat,
    {
        if with_answers {
            self.collect_and_cut(depth - 1, stepper, player, delay_depth, next)
        } else {
            match self.min_max(depth - 1, stepper, player, next) {
                Ok(v) => Ok((v, Vec::new())),
                Err(e) => Err(e),
            }
        }
    }

    /// Resolves the equivalency classes: each move is evaluated together
    /// with up to `equivalency_class_limit` moves of its class; of these the
    /// best `equivalency_class_choices` for the player are kept, each with a
    /// penalty for its position.
    pub fn resolve_equivalencies<'a, T: GameData>(
        &self,
        moves: Vec<(RatingType, Vec<IndexType>, Vec<Vec<IndexType>>, RatingList)>,
        stepper: &mut EngineStepper<'a, T>,
        equiv_penalty: RatingType,
        sliding: Sliding,
        with_answers: bool,
        depth: usize,
        player: usize,
        delay_depth: usize,
        is_own_turn: bool,
    ) -> (r: Result<Vec<(RatingType, Vec<IndexType>, RatingList)>, MinMaxError>)
        where
            R: RateAndMap<T>,
        requires
            old(stepper).at_move_start(),
            depth > 0,
            sliding.spec_covers(depth as int),
            2 * delay_depth <= usize::MAX,
            !with_answers ==> forall|k: int| 0 <= k < moves@.len() ==> self.spec_move_value(
                depth as int,
                old(stepper).spec_decision_context(),
                player,
                (#[trigger] moves@[k]).1@,
                moves@[k].0,
            ),
            with_answers ==> forall|k: int| 0 <= k < moves@.len() ==> self.spec_answered_value(
                depth as int,
                old(stepper).spec_decision_context(),
                player,
                (#[trigger] moves@[k]).1@,
                moves@[k].0,
                moves@[k].3@,
            ),
        ensures
            final(stepper).engine.wf(),
            r is Ok ==> final(stepper).at_move_start() && final(stepper).spec_decision_context()
                == old(stepper).spec_decision_context(),
            !with_answers ==> (r matches Ok(v) ==> forall|a: int| 0 <= a < v@.len() ==> self.spec_rated_entry(
                depth as int,
                old(stepper).spec_decision_context(),
                player,
                equiv_penalty,
                (#[trigger] v@[a]).1@,
                v@[a].0,
            )),
            with_answers ==> (r matches Ok(v) ==> forall|a: int| 0 <= a < v@.len() ==> self.spec_rated_answer(
                depth as int,
                old(stepper).spec_decision_context(),
                player,
                equiv_penalty,
                (#[trigger] v@[a]).1@,
                v@[a].0,
                v@[a].2@,
            )),
            r matches Ok(v) ==> v@.len() <= moves@.len() * sliding.params.equivalency_class_choices@[sliding.start as int],
            r matches Ok(v) ==> v@.len() == resolved_count(
                moves@,
                moves@.len() as int,
                sliding.params.equivalency_class_choices@[sliding.start as int] as int,
                sliding.params.equivalency_class_limit@[sliding.start as int] as int,
            ),
            r matches Err(e) ==> search_error(e),
        decreases depth, 2nat,
    {
        let ghost all = moves@;
        let ghost ctx = stepper.spec_decision_context();
        let choices = sliding.equivalency_class_choices();
        let class_limit = sliding.equivalency_class_limit();
        let next = sliding.next();
        let ghost n = moves@.len();
        let mut result: Vec<(RatingType, Vec<IndexType>, RatingList)> = Vec::new();
        let mut src = moves;
        while src.len() > 0
            invariant
                stepper.at_move_start(),
                stepper.spec_decision_context() == ctx,
                next.spec_covers((depth - 1) as int),
                depth > 0,
                2 * delay_depth <= usize::MAX,
                choices == sliding.params.equivalency_class_choices@[sliding.start as int],
                src@.len() <= n,
                result@.len() <= (n - src@.len()) * choices,
                n == all.len(),
                src@ == all.subrange(n - src@.len(), n as int),
                class_limit == sliding.params.equivalency_class_limit@[sliding.start as int],
                result@.len() == resolved_count(all, n - src@.len(), choices as int, class_limit as int),
                ctx == old(stepper).spec_decision_context(),
                !with_answers ==> forall|k: int| 0 <= k < all.len() ==> self.spec_move_value(
                    depth as int,
                    ctx,
                    player,
                    (#[trigger] all[k]).1@,
                    all[k].0,
                ),
                !with_answers ==> forall|a: int| 0 <= a < result@.len() ==> self.spec_rated_entry(
                    depth as int,
                    ctx,
                    player,
                    equiv_penalty,
                    (#[trigger] result@[a]).1@,
                    result@[a].0,
                ),
                with_answers ==> forall|k: int| 0 <= k < all.len() ==> self.spec_answered_value(
                    depth as int,
                    ctx,
                    player,
                    (#[trigger] all[k]).1@,
                    all[k].0,
                    all[k].3@,
                ),
                with_answers ==> forall|a: int| 0 <= a < result@.len() ==> self.spec_rated_answer(
                    depth as int,
                    ctx,
                    player,
                    equiv_penalty,
                    (#[trigger] result@[a]).1@,
                    result@[a].0,
                    result@[a].2@,
                ),
            decreases src@.len(),
        {
            let ghost done = n - src@.len();
            let (rating, indizes, equivalent_moves, other) = src.remove(0);
            assert(src@ =~= all.subrange(n - src@.len(), n as int));
            let mut buffer: Vec<(RatingType, Vec<IndexType>, RatingList)> = Vec::new();
            proof {
                assert(all[done as int] == (rating, indizes, equivalent_moves, other));
            }
            buffer.push((rating, indizes, other));
            let mut k: usize = 0;
            while k < equivalent_moves.len() && k < class_limit
                invariant
                    stepper.at_move_start(),
                    stepper.spec_decision_context() == ctx,
                    next.spec_covers((depth - 1) as int),
                    depth > 0,
                    2 * delay_depth <= usize::MAX,
                    k <= equivalent_moves@.len(),
                    buffer@.len() == k + 1,
                    k <= class_limit,
                    !with_answers ==> forall|b: int| 0 <= b < buffer@.len() ==> self.spec_move_value(
                        depth as int,
                        ctx,
                        player,
                        (#[trigger] buffer@[b]).1@,
                        buffer@[b].0,
                    ),
                    with_answers ==> forall|b: int| 0 <= b < buffer@.len() ==> self.spec_answered_value(
                        depth as int,
                        ctx,
                        player,
                        (#[trigger] buffer@[b]).1@,
                        buffer@[b].0,
                        buffer@[b].2@,
                    ),
                decreases equivalent_moves@.len() - k,
            {
                let ghost s_k = *stepper.engine;
                proof {
                    stepper.engine.lemma_exclusive_states();
                }
                match stepper.forward_step(&equivalent_moves[k]) {
                    Ok(()) => {},
                    Err(e) => {
                        return Err(e);
                    },
                }
                let ghost ctx1 = stepper.spec_decision_context();
                let ghost c_k = *stepper.engine;
                proof {
                    assert(ctx1 =~= ctx.push(ctx1.last()));
                }
                let (curr_rating, curr_other) = match self.evaluate(
                    with_answers,
                    depth,
                    stepper,
                    player,
                    delay_depth,
                    next,
                ) {
                    Ok(pair) => pair,
                    Err(e) => {
                        return Err(e);
                    },
                };
                match stepper.backward_step() {
                    Ok(_) => {},
                    Err(e) => {
                        return Err(e);
                    },
                }
                proof {
                    assert(ctx1.drop_last() =~= ctx1.subrange(0, ctx.len() as int));
                    if !with_answers {
                        assert(self.spec_move_searched(
                            depth as int,
                            ctx,
                            player,
                            s_k,
                            equivalent_moves@[k as int]@,
                            c_k,
                            ctx1.last(),
                            curr_rating,
                        ));
                        assert(move_record(s_k, c_k, ctx1.last()));
                    } else {
                        assert(move_record(s_k, c_k, ctx1.last()));
                        assert(self.spec_answered_value(
                            depth as int,
                            ctx,
                            player,
                            equivalent_moves@[k as int]@,
                            curr_rating,
                            curr_other@,
                        ));
                    }
                }
                let ghost bprev = buffer@;
                buffer.push((curr_rating, copy_indizes(&equivalent_moves[k]), curr_other));
                proof {
                    if !with_answers {
                        assert forall|b: int| 0 <= b < buffer@.len() implies self.spec_move_value(
                            depth as int,
                            ctx,
                            player,
                            (#[trigger] buffer@[b]).1@,
                            buffer@[b].0,
                        ) by {
                            if b < bprev.len() {
                                assert(buffer@[b] == bprev[b]);
                            }
                        }
                    } else {
                        assert forall|b: int| 0 <= b < buffer@.len() implies self.spec_answered_value(
                            depth as int,
                            ctx,
                            player,
                            (#[trigger] buffer@[b]).1@,
                            buffer@[b].0,
                            buffer@[b].2@,
                        ) by {
                            if b < bprev.len() {
                                assert(buffer@[b] == bprev[b]);
                            }
                        }
                    }
                }
                k += 1;
            }
            let ghost buffer_len = buffer@.len();
            let ghost unsorted = buffer@;
            let buffer = sort_ordered(buffer, is_own_turn);
            assert(buffer@.len() == buffer@.to_multiset().len());
            proof {
                if !with_answers {
                    assert forall|b: int| 0 <= b < buffer@.len() implies self.spec_move_value(
                        depth as int,
                        ctx,
                        player,
                        (#[trigger] buffer@[b]).1@,
                        buffer@[b].0,
                    ) by {
                        assert(buffer@.to_multiset().count(buffer@[b]) > 0);
                        assert(unsorted.contains(buffer@[b]));
                        let c = choose|c: int| 0 <= c < unsorted.len() && unsorted[c] == buffer@[b];
                        assert(self.spec_move_value(depth as int, ctx, player, unsorted[c].1@, unsorted[c].0));
                    }
                } else {
                    assert forall|b: int| 0 <= b < buffer@.len() implies self.spec_answered_value(
                        depth as int,
                        ctx,
                        player,
                        (#[trigger] buffer@[b]).1@,
                        buffer@[b].0,
                        buffer@[b].2@,
                    ) by {
                        assert(buffer@.to_multiset().count(buffer@[b]) > 0);
                        assert(unsorted.contains(buffer@[b]));
                        let c = choose|c: int| 0 <= c < unsorted.len() && unsorted[c] == buffer@[b];
                        assert(self.spec_answered_value(depth as int, ctx, player, unsorted[c].1@, unsorted[c].0, unsorted[c].2@));
                    }
                }
            }
            let ghost sorted_buffer = buffer@;
            let ghost result_before = result@;
            let ghost before = result@.len();
            match append_penalized(buffer, choices, equiv_penalty, &mut result) {
                Ok(()) => {},
                Err(e) => {
                    return Err(e);
                },
            }
            proof {
                assert(result@.len() <= before + choices);
                assert(all[done as int] == (rating, indizes, equivalent_moves, other));
                assert(buffer_len == 1 + if equivalent_moves@.len() < class_limit { equivalent_moves@.len() as int } else { class_limit as int });
                assert(result@.len() == resolved_count(all, done + 1, choices as int, class_limit as int));
                assert((n - src@.len()) * choices == (n - (src@.len() + 1)) * choices + choices) by (nonlinear_arith);
                if !with_answers {
                    let pp = penalized(sorted_buffer, choices as int, equiv_penalty);
                    assert forall|a: int| 0 <= a < result@.len() implies self.spec_rated_entry(
                        depth as int,
                        ctx,
                        player,
                        equiv_penalty,
                        (#[trigger] result@[a]).1@,
                        result@[a].0,
                    ) by {
                        if a < before {
                            assert(result@[a] == result@.subrange(0, before as int)[a]);
                            assert(result@[a] == result_before[a]);
                        } else {
                            let i = a - before;
                            assert(result@[before + i].0 == pp[i].0 && result@[before + i].1 == pp[i].1);
                            assert(pp[i].0 == sorted_buffer[i].0 - i * equiv_penalty);
                            assert(self.spec_move_value(depth as int, ctx, player, sorted_buffer[i].1@, sorted_buffer[i].0));
                            assert(result@[a].0 + i * equiv_penalty == sorted_buffer[i].0);
                            assert((result@[a].0 + i * equiv_penalty) as RatingType == sorted_buffer[i].0);
                            assert(penalty_steps(i));
                        }
                    }
                } else {
                    let pp = penalized(sorted_buffer, choices as int, equiv_penalty);
                    assert forall|a: int| 0 <= a < result@.len() implies self.spec_rated_answer(
                        depth as int,
                        ctx,
                        player,
                        equiv_penalty,
                        (#[trigger] result@[a]).1@,
                        result@[a].0,
                        result@[a].2@,
                    ) by {
                        if a < before {
                            assert(result@[a] == result@.subrange(0, before as int)[a]);
                            assert(result@[a] == result_before[a]);
                        } else {
                            let i = a - before;
                            assert(result@[before + i].0 == pp[i].0 && result@[before + i].1 == pp[i].1
                                && result@[before + i].2 == pp[i].2);
                            assert(pp[i].0 == sorted_buffer[i].0 - i * equiv_penalty);
                            assert(self.spec_answered_value(
                                depth as int,
                                ctx,
                                player,
                                sorted_buffer[i].1@,
                                sorted_buffer[i].0,
                                sorted_buffer[i].2@,
                            ));
                            assert((result@[a].0 + i * equiv_penalty) as RatingType == sorted_buffer[i].0);
                            assert(penalty_steps(i));
                        }
                    }
                }
            }
        }
        Ok(result)
    }

    /// Rates the moves of the position with their answers: each move gets
    /// the best rating that the answers lead to, moves and answers are cut to
    /// the limits once the delay depth is passed, and the result holds the
    /// best rating for the player with the rated moves.
    pub fn collect_and_cut<'a, T: GameData>(
        &self,
        depth: usize,
        stepper: &mut EngineStepper<'a, T>,
        player: usize,
        delay_depth: usize,
        sliding: Sliding,
    ) -> (r: Result<(RatingType, RatingList), MinMaxError>)
        where
            R: RateAndMap<T>,
        requires
            old(stepper).at_move_start(),
            sliding.spec_covers(depth as int),
            2 * delay_depth <= usize::MAX,
        ensures
            final(stepper).engine.wf(),
            r is Ok ==> final(stepper).at_move_start() && final(stepper).spec_decision_context()
                == old(stepper).spec_decision_context(),
            r matches Ok((best, moves)) ==> (moves@.len() == 0 <==> (depth == 0 || old(stepper).engine.spec_is_finished()))
                && (moves@.len() > 0 ==> is_best(ratings_of(moves@), best, old(stepper).engine.spec_player() == player)),
            r matches Err(e) ==> search_error(e),
            depth == 0 || old(stepper).engine.spec_is_finished() ==> *final(stepper) == *old(stepper),
            depth == 0 || old(stepper).engine.spec_is_finished() ==> exists|v: RatingType| #[trigger] self.rate_and_map.spec_rates(
                old(stepper).engine.spec_data(),
                old(stepper).spec_decision_context(),
                player,
                v,
            ) && (r is Ok <==> i32::MIN <= spec_scaled_rating(v, depth as int, old(stepper).engine.spec_is_finished())
                <= i32::MAX) && (r matches Ok((x, l)) ==> x == spec_scaled_rating(
                v,
                depth as int,
                old(stepper).engine.spec_is_finished(),
            ) && l@.len() == 0),
            depth > 0 && !old(stepper).engine.spec_is_finished() && !(delay_depth == 0 || 2 * delay_depth - 1 <= depth) ==> (
            r matches Ok((best, moves)) ==> exists|m: Seq<(RatingType, Vec<IndexType>, Vec<Vec<IndexType>>, RatingList)>|
                #[trigger] resolved_count(
                m,
                m.len() as int,
                sliding.params.equivalency_class_choices@[sliding.start as int] as int,
                sliding.params.equivalency_class_limit@[sliding.start as int] as int,
            ) == moves@.len() && m.len() <= sliding.params.move_limit@[sliding.start as int] && (
            sliding.params.move_limit@[sliding.start as int] > 0 ==> m.len() > 0)),
            r matches Ok((best, moves)) ==> forall|a: int| 0 <= a < moves@.len() ==> self.spec_rated_entry(
                depth as int,
                old(stepper).spec_decision_context(),
                player,
                self.params.equivalency_penalty,
                (#[trigger] moves@[a]).1@,
                moves@[a].0,
            ),
            r matches Ok((best, moves)) ==> self.spec_collected(
                depth as int,
                *old(stepper).engine,
                old(stepper).spec_decision_context(),
                player,
                best,
                moves@,
            ),
        decreases depth, 3nat,
    {
        if depth == 0 || stepper.is_finished() {
            return match self.final_rating(depth, stepper, player) {
                Ok(v) => Ok((v, Vec::new())),
                Err(e) => Err(e),
            };
        }
        let ghost ctx = stepper.spec_decision_context();
        let is_own_turn = match stepper.player() {
            Ok(p) => p == player,
            Err(e) => {
                return Err(e);
            },
        };
        let classes = match self.create_move_ratings::<T, RatedClass>(
            stepper,
            sliding.move_cut_difference(),
            sliding.move_limit(),
        ) {
            Ok(m) => m,
            Err(e) => {
                return Err(e);
            },
        };
        let next = sliding.next();
        let ghost n_classes = classes@.len();
        let mut moves: Vec<RatedClass> = Vec::new();
        let mut src = classes;
        while src.len() > 0
            invariant
                !old(stepper).engine.spec_is_finished(),
                moves@.len() + src@.len() == n_classes,
                stepper.at_move_start(),
                stepper.spec_decision_context() == ctx,
                next.spec_covers_moves(depth - 1),
                depth > 0,
                ctx == old(stepper).spec_decision_context(),
                forall|a: int| 0 <= a < moves@.len() ==> self.spec_move_value(
                    depth as int,
                    ctx,
                    player,
                    (#[trigger] moves@[a]).1@,
                    moves@[a].0,
                ),
            decreases src@.len(),
        {
            let (_, indizes, eq) = src.remove(0);
            let ghost s_k = *stepper.engine;
            proof {
                stepper.engine.lemma_exclusive_states();
            }
            match stepper.forward_step(&indizes) {
                Ok(()) => {},
                Err(e) => {
                    return Err(e);
                },
            }
            let ghost ctx1 = stepper.spec_decision_context();
            let ghost c_k = *stepper.engine;
            proof {
                assert(ctx1 =~= ctx.push(ctx1.last()));
            }
            let rating = match self.min_max(depth - 1, stepper, player, next) {
                Ok(v) => v,
                Err(e) => {
                    return Err(e);
                },
            };
            match stepper.backward_step() {
                Ok(_) => {},
                Err(e) => {
                    return Err(e);
                },
            }
            proof {
                assert(ctx1.drop_last() =~= ctx1.subrange(0, ctx.len() as int));
                assert(self.spec_move_searched(depth as int, ctx, player, s_k, indizes@, c_k, ctx1.last(), rating));
                assert(move_record(s_k, c_k, ctx1.last()));
                assert(self.spec_move_value(depth as int, ctx, player, indizes@, rating));
            }
            let ghost mprev = moves@;
            moves.push((rating, indizes, eq));
            proof {
                assert forall|a: int| 0 <= a < moves@.len() implies self.spec_move_value(
                    depth as int,
                    ctx,
                    player,
                    (#[trigger] moves@[a]).1@,
                    moves@[a].0,
                ) by {
                    if a < mprev.len() {
                        assert(moves@[a] == mprev[a]);
                    }
                }
            }
        }
        let cut = delay_depth == 0 || 2 * delay_depth - 1 <= depth;
        let ghost uncut = moves@;
        if cut && moves.len() > 0 {
            self.cut_moves(&mut moves, sliding, is_own_turn);
        }
        proof {
            assert forall|a: int| 0 <= a < moves@.len() implies self.spec_move_value(
                depth as int,
                ctx,
                player,
                (#[trigger] moves@[a]).1@,
                moves@[a].0,
            ) by {
                if cut && uncut.len() > 0 {
                    assert(uncut.contains(moves@[a]));
                    let j = choose|j: int| 0 <= j < uncut.len() && uncut[j] == moves@[a];
                    assert(self.spec_move_value(depth as int, ctx, player, uncut[j].1@, uncut[j].0));
                }
            }
        }
        let ghost n_moves = moves@.len();
        let ghost cut_moves_seq = moves@;
        let mut with_other: Vec<(RatingType, Vec<IndexType>, Vec<Vec<IndexType>>, RatingList)> = Vec::new();
        while moves.len() > 0
            invariant
                !old(stepper).engine.spec_is_finished(),
                depth > 0,
                with_other@.len() + moves@.len() == n_moves,
                forall|a: int| 0 <= a < moves@.len() ==> moves@[a] == cut_moves_seq[with_other@.len() + a],
                forall|a: int| 0 <= a < with_other@.len() ==> (#[trigger] with_other@[a]).0 == cut_moves_seq[a].0
                    && with_other@[a].1 == cut_moves_seq[a].1,
            decreases moves@.len(),
        {
            let (rating, indizes, eq) = moves.remove(0);
            with_other.push((rating, indizes, eq, Vec::new()));
        }
        proof {
            assert forall|k: int| 0 <= k < with_other@.len() implies self.spec_move_value(
                depth as int,
                ctx,
                player,
                (#[trigger] with_other@[k]).1@,
                with_other@[k].0,
            ) by {
                assert(self.spec_move_value(depth as int, ctx, player, cut_moves_seq[k].1@, cut_moves_seq[k].0));
            }
        }
        let ghost m = with_other@;
        let resolved = match self.resolve_equivalencies(
            with_other,
            stepper,
            self.params.equivalency_penalty,
            sliding,
            false,
            depth,
            player,
            delay_depth,
            is_own_turn,
        ) {
            Ok(v) => v,
            Err(e) => {
                return Err(e);
            },
        };
        let ghost n_res = resolved@.len();
        let ghost rs = resolved@;
        let mut result: RatingList = Vec::new();
        let mut src = resolved;
        while src.len() > 0
            invariant
                !old(stepper).engine.spec_is_finished(),
                depth > 0,
                result@.len() + src@.len() == n_res,
                forall|a: int| 0 <= a < src@.len() ==> src@[a] == rs[result@.len() + a],
                forall|a: int| 0 <= a < result@.len() ==> (#[trigger] result@[a]).0 == rs[a].0 && result@[a].1 == rs[a].1,
            decreases src@.len(),
        {
            let (rating, indizes, _) = src.remove(0);
            result.push((rating, indizes));
        }
        proof {
            if !cut {
                assert(m.len() == n_classes);
                assert(resolved_count(
                    m,
                    m.len() as int,
                    sliding.params.equivalency_class_choices@[sliding.start as int] as int,
                    sliding.params.equivalency_class_limit@[sliding.start as int] as int,
                ) == result@.len());
            }
        }
        proof {
            assert forall|a: int| 0 <= a < result@.len() implies self.spec_rated_entry(
                depth as int,
                ctx,
                player,
                self.params.equivalency_penalty,
                (#[trigger] result@[a]).1@,
                result@[a].0,
            ) by {
                assert(self.spec_rated_entry(depth as int, ctx, player, self.params.equivalency_penalty, rs[a].1@, rs[a].0));
            }
        }
        let ghost uncut_result = result@;
        if cut && result.len() > sliding.branch_cut_limit() {
            self.cut_moves(&mut result, sliding, is_own_turn);
        }
        proof {
            assert forall|a: int| 0 <= a < result@.len() implies self.spec_rated_entry(
                depth as int,
                ctx,
                player,
                self.params.equivalency_penalty,
                (#[trigger] result@[a]).1@,
                result@[a].0,
            ) by {
                if result@ != uncut_result {
                    assert(uncut_result.contains(result@[a]));
                    let j = choose|j: int| 0 <= j < uncut_result.len() && uncut_result[j] == result@[a];
                    assert(self.spec_rated_entry(
                        depth as int,
                        ctx,
                        player,
                        self.params.equivalency_penalty,
                        uncut_result[j].1@,
                        uncut_result[j].0,
                    ));
                }
            }
        }
        if result.len() == 0 {
            return Err(MinMaxError::InvalidParams);
        }
        let mut ratings: Vec<RatingType> = Vec::new();
        let mut k: usize = 0;
        while k < result.len()
            invariant
                !old(stepper).engine.spec_is_finished(),
                depth > 0,
                k <= result@.len(),
                ratings@ == result@.subrange(0, k as int).map_values(|m: (RatingType, Vec<IndexType>)| m.0),
            decreases result@.len() - k,
        {
            ratings.push(result[k].0);
            k += 1;
            assert(ratings@ =~= result@.subrange(0, k as int).map_values(|m: (RatingType, Vec<IndexType>)| m.0));
        }
        assert(result@.subrange(0, result@.len() as int) =~= result@);
        assert(ratings@ =~= ratings_of(result@));
        let best = best_of_ratings(&ratings, is_own_turn);
        Ok((best, result))
    }

    /// Rates the moves of the position with their rated answers (see
    /// `collect_and_cut`); the result is empty at depth 0 or when the game
    /// is over.
    pub fn collect_recursive<'a, T: GameData>(
        &self,
        depth: usize,
        stepper: &mut EngineStepper<'a, T>,
        player: usize,
        delay_depth: usize,
        sliding: Sliding,
    ) -> (r: Result<Vec<(RatingType, Vec<IndexType>, RatingList)>, MinMaxError>)
        where
            R: RateAndMap<T>,
        requires
            old(stepper).at_move_start(),
            sliding.spec_covers(depth as int),
            2 * delay_depth <= usize::MAX,
        ensures
            final(stepper).engine.wf(),
            r is Ok ==> final(stepper).at_move_start() && final(stepper).spec_decision_context()
                == old(stepper).spec_decision_context(),
            r matches Ok(v) ==> (v@.len() == 0 <== (depth == 0 || old(stepper).engine.spec_is_finished())),
            r matches Err(e) ==> search_error(e),
            depth == 0 || old(stepper).engine.spec_is_finished() ==> r is Ok && *final(stepper) == *old(stepper),
            depth > 0 && !old(stepper).engine.spec_is_finished() && depth < 2 * delay_depth ==> (r matches Ok(v) ==> exists|
                m: Seq<(RatingType, Vec<IndexType>, Vec<Vec<IndexType>>, RatingList)>,
            | #[trigger] resolved_count(
                m,
                m.len() as int,
                sliding.params.equivalency_class_choices@[sliding.start as int] as int,
                sliding.params.equivalency_class_limit@[sliding.start as int] as int,
            ) == v@.len() && m.len() <= sliding.params.move_limit@[sliding.start as int] && (
            sliding.params.move_limit@[sliding.start as int] > 0 ==> m.len() > 0)),
            r matches Ok(v) ==> forall|a: int| 0 <= a < v@.len() ==> self.spec_rated_answer(
                depth as int,
                old(stepper).spec_decision_context(),
                player,
                self.params.equivalency_penalty,
                (#[trigger] v@[a]).1@,
                v@[a].0,
                v@[a].2@,
            ),
        decreases depth, 4nat,
    {
        if depth == 0 || stepper.is_finished() {
            return Ok(Vec::new());
        }
        let ghost ctx = stepper.spec_decision_context();
        let is_own_turn = match stepper.player() {
            Ok(p) => p == player,
            Err(e) => {
                return Err(e);
            },
        };
        let classes = match self.create_move_ratings::<T, RatedClass>(
            stepper,
            sliding.move_cut_difference(),
            sliding.move_limit(),
        ) {
            Ok(m) => m,
            Err(e) => {
                return Err(e);
            },
        };
        let next = sliding.next();
        let ghost n_classes = classes@.len();
        let mut moves: Vec<(RatingType, Vec<IndexType>, Vec<Vec<IndexType>>, RatingList)> = Vec::new();
        let mut src = classes;
        while src.len() > 0
            invariant
                !old(stepper).engine.spec_is_finished(),
                stepper.at_move_start(),
                stepper.spec_decision_context() == ctx,
                next.spec_covers((depth - 1) as int),
                depth > 0,
                2 * delay_depth <= usize::MAX,
                moves@.len() + src@.len() == n_classes,
                ctx == old(stepper).spec_decision_context(),
                forall|k: int| 0 <= k < moves@.len() ==> self.spec_answered_value(
                    depth as int,
                    ctx,
                    player,
                    (#[trigger] moves@[k]).1@,
                    moves@[k].0,
                    moves@[k].3@,
                ),
            decreases src@.len(),
        {
            let (_, indizes, eq) = src.remove(0);
            let ghost s_k = *stepper.engine;
            proof {
                stepper.engine.lemma_exclusive_states();
            }
            match stepper.forward_step(&indizes) {
                Ok(()) => {},
                Err(e) => {
                    return Err(e);
                },
            }
            let ghost ctx1 = stepper.spec_decision_context();
            let ghost c_k = *stepper.engine;
            proof {
                assert(ctx1 =~= ctx.push(ctx1.last()));
            }
            let (rating, children) = match self.collect_and_cut(depth - 1, stepper, player, delay_depth, next) {
                Ok(pair) => pair,
                Err(e) => {
                    return Err(e);
                },
            };
            match stepper.backward_step() {
                Ok(_) => {},
                Err(e) => {
                    return Err(e);
                },
            }
            proof {
                assert(ctx1.drop_last() =~= ctx1.subrange(0, ctx.len() as int));
                assert(move_record(s_k, c_k, ctx1.last()));
                assert(self.spec_answered_value(depth as int, ctx, player, indizes@, rating, children@));
            }
            let ghost mprev = moves@;
            moves.push((rating, indizes, eq, children));
            proof {
                assert forall|k: int| 0 <= k < moves@.len() implies self.spec_answered_value(
                    depth as int,
                    ctx,
                    player,
                    (#[trigger] moves@[k]).1@,
                    moves@[k].0,
                    moves@[k].3@,
                ) by {
                    if k < mprev.len() {
                        assert(moves@[k] == mprev[k]);
                    }
                }
            }
        }
        let cut = depth >= 2 * delay_depth;
        let ghost uncut = moves@;
        if cut && moves.len() > 0 {
            self.cut_moves(&mut moves, sliding, is_own_turn);
        }
        proof {
            assert forall|k: int| 0 <= k < moves@.len() implies self.spec_answered_value(
                depth as int,
                ctx,
                player,
                (#[trigger] moves@[k]).1@,
                moves@[k].0,
                moves@[k].3@,
            ) by {
                if moves@ != uncut {
                    assert(uncut.contains(moves@[k]));
                    let j = choose|j: int| 0 <= j < uncut.len() && uncut[j] == moves@[k];
                    assert(self.spec_answered_value(depth as int, ctx, player, uncut[j].1@, uncut[j].0, uncut[j].3@));
                }
            }
        }
        let ghost m = moves@;
        let mut result = match self.resolve_equivalencies(
            moves,
            stepper,
            self.params.equivalency_penalty,
            sliding,
            true,
            depth,
            player,
            delay_depth,
            is_own_turn,
        ) {
            Ok(v) => v,
            Err(e) => {
                return Err(e);
            },
        };
        proof {
            if !cut {
                assert(m.len() == n_classes);
                assert(resolved_count(
                    m,
                    m.len() as int,
                    sliding.params.equivalency_class_choices@[sliding.start as int] as int,
                    sliding.params.equivalency_class_limit@[sliding.start as int] as int,
                ) == result@.len());
            }
        }
        let ghost uncut_result = result@;
        if cut && result.len() > sliding.branch_cut_limit() {
            self.cut_moves(&mut result, sliding, is_own_turn);
        }
        proof {
            assert forall|a: int| 0 <= a < result@.len() implies self.spec_rated_answer(
                depth as int,
                ctx,
                player,
                self.params.equivalency_penalty,
                (#[trigger] result@[a]).1@,
                result@[a].0,
                result@[a].2@,
            ) by {
                if result@ != uncut_result {
                    assert(uncut_result.contains(result@[a]));
                    let j = choose|j: int| 0 <= j < uncut_result.len() && uncut_result[j] == result@[a];
                    assert(self.spec_rated_answer(
                        depth as int,
                        ctx,
                        player,
                        self.params.equivalency_penalty,
                        uncut_result[j].1@,
                        uncut_result[j].0,
                        uncut_result[j].2@,
                    ));
                }
            }
        }
        Ok(result)
    }
}


/// The search below the leaves of the search tree: each leaf gets the moves
/// that `collect_recursive` finds, with their answers.
pub struct LeafExtension<'b, R, P, F> {
    pub algorithm: &'b MinMaxAlgorithm<R, P>,
    pub depth: usize,
    pub player: usize,
    pub sliding: Sliding<'b>,
    pub should_cancel: &'b F,
}

impl<'b, T: GameData, R: RateAndMap<T>, P: PruningFunction, F: Fn() -> bool> LeafVisitor<T> for LeafExtension<'b, R, P, F> {
    open spec fn ready(&self) -> bool {
        &&& self.sliding.spec_covers(self.depth as int)
        &&& 2 * self.algorithm.params.first_cut_delay_depth <= usize::MAX
        &&& self.should_cancel.requires(())
    }

    open spec fn cancelled(&self) -> bool {
        self.should_cancel.ensures((), true)
    }

    /// The search gives its own errors, or the search was cancelled.
    open spec fn spec_errors(&self, e: MinMaxError) -> bool {
        search_error(e) || e is Cancelled
    }

    /// The moves found below the leaf are added as its children (at depth 0
    /// none are), and the search was not cancelled.
    open spec fn spec_visits(&self, before: SearchTreeState, after: SearchTreeState, index: TreeIndex) -> bool {
        &&& exists|k: int| #[trigger] children_added(before, after, index, k) && (self.depth == 0 ==> k == 0)
        &&& self.should_cancel.ensures((), false)
    }

    fn visit_leaf<'a>(&self, tree: &mut SearchTreeState, stepper: &mut EngineStepper<'a, T>, index: TreeIndex) -> (r:
        Result<(), MinMaxError>) {
        if !stepper.is_finished() {
            match stepper.player() {
                Ok(p) => {
                    if p != self.player {
                        return Err(MinMaxError::InvalidGame);
                    }
                },
                Err(e) => {
                    return Err(e);
                },
            }
        }
        let new_moves = match self.algorithm.collect_recursive(
            self.depth,
            stepper,
            self.player,
            self.algorithm.params.first_cut_delay_depth,
            self.sliding,
        ) {
            Ok(v) => v,
            Err(e) => {
                return Err(e);
            },
        };
        let ghost found = new_moves@.len();
        let ghost mut added: int = 0;
        proof {
            let t = tree.spec_tree();
            let i = index.0 as int;
            let e = t[i][index.1 as int];
            assert(TreeEntry { num_children: (e.num_children + 0) as IndexType, ..e } == e);
            assert(t[i].update(index.1 as int, e) =~= t[i]);
            assert(t.update(i, t[i]) =~= t);
            assert(tree.spec_next_levels()->Some_0.0.subrange(0, tree.spec_next_levels()->Some_0.0.len() as int)
                =~= tree.spec_next_levels()->Some_0.0);
        }
        let mut src = new_moves;
        while src.len() > 0
            invariant
                children_added(*old(tree), *tree, index, added),
                0 <= added,
                old(tree).spec_tree()[index.0 as int][index.1 as int].num_children + added <= u32::MAX,
                added + src@.len() == found,
                self.depth == 0 ==> found == 0,
                keeps_levels(*old(tree), *tree),
                stepper.at_move_start(),
                stepper.spec_decision_context() == old(stepper).spec_decision_context(),
                index.0 == old(tree).spec_depth(),
                index.1 < old(tree).spec_tree()[index.0 as int].len(),
            decreases src@.len(),
        {
            let (rating, indizes, children) = src.remove(0);
            let count = tree.level(index.0)[index.1].num_children;
            if count == u32::MAX || children.len() >= u32::MAX as usize {
                return Err(MinMaxError::InvalidGame);
            }
            let ghost before = *tree;
            tree.push_child(index, rating, indizes, children);
            proof {
                let t0 = old(tree).spec_tree();
                let i = index.0 as int;
                let e0 = t0[i][index.1 as int];
                let tb = before.spec_tree();
                assert(count == e0.num_children + added);
                assert(tb[i][index.1 as int] == TreeEntry { num_children: (e0.num_children + added) as IndexType, ..e0 });
                let e1 = TreeEntry { num_children: (e0.num_children + added + 1) as IndexType, ..e0 };
                assert(tree.spec_tree()[i] =~= t0[i].update(index.1 as int, e1));
                assert(tree.spec_tree() =~= t0.update(i, t0[i].update(index.1 as int, e1)));
                let c0 = old(tree).spec_next_levels()->Some_0.0;
                let cb = before.spec_next_levels()->Some_0.0;
                let c2 = tree.spec_next_levels()->Some_0.0;
                assert(c2.subrange(0, c0.len() as int) =~= cb.subrange(0, c0.len() as int));
                added = added + 1;
            }
            proof {
                assert forall|l: int| 0 <= l < old(tree).spec_tree().len() - 1 implies #[trigger] tree.spec_tree()[l]
                    == old(tree).spec_tree()[l] by {
                    assert(before.spec_tree()[l] == old(tree).spec_tree()[l]);
                }
            }
        }
        if (self.should_cancel)() {
            Err(MinMaxError::Cancelled)
        } else {
            Ok(())
        }
    }
}

/// `r` holds positions of `moves` in increasing order.
pub open spec fn positions_of(r: Seq<usize>, moves: Seq<TreeEntry>) -> bool {
    increasing_below(r, moves.len() as int)
}

/// The positions `0` to `n`.
fn all_positions(n: usize) -> (r: Vec<usize>)
    ensures
        increasing_below(r@, n as int),
        r@.len() == n,
        r@ == Seq::new(n as nat, |a: int| a as usize),
{
    let mut r: Vec<usize> = Vec::new();
    let mut k: usize = 0;
    while k < n
        invariant
            k <= n,
            r@.len() == k,
            forall|a: int| 0 <= a < k ==> #[trigger] r@[a] == a,
        decreases n - k,
    {
        r.push(k);
        k += 1;
    }
    assert(r@ =~= Seq::new(n as nat, |a: int| a as usize));
    r
}

impl<R, P: PruningFunction> MinMaxAlgorithm<R, P> {
    /// The positions of the moves of a level that pruning keeps, as the
    /// pruning function decides for the level: the player maximizes on even
    /// levels and minimizes on odd ones.
    pub fn retained_moves(&self, total_depth: usize, level: usize, moves: &Vec<TreeEntry>) -> (r: Vec<usize>)
        ensures
            increasing_below(r@, moves@.len() as int),
            exists|k: PruningKind| #[trigger] self.pruning_fn.spec_prunes_by(
                PruningInput { total_depth, current_depth: level, num_branches: moves@.len() as usize },
                k,
            ) && kept_by_kind(k, r@, moves@, level % 2 == 0),
    {
        let maximize = level % 2 == 0;
        let n = moves.len();
        let input = PruningInput { total_depth, current_depth: level, num_branches: n };
        match self.pruning_fn.pruning_kind(input) {
            PruningKind::KeepAll => all_positions(n),
            PruningKind::KeepN(num) => within_bounds(moves, maximize, num, num, 0),
            PruningKind::KeepByDiff(diff) => within_bounds(moves, maximize, 0, n, diff),
            PruningKind::WithinBounds(min, max, diff) => within_bounds(moves, maximize, min, max, diff),
        }
    }

    /// Prunes the search tree level by level as the pruning function
    /// decides.
    pub fn prune(&self, tree: &mut SearchTreeState)
        requires
            old(tree).wf(),
            old(tree).spec_next_levels() is None,
        ensures
            final(tree).wf(),
            final(tree).spec_next_levels() is None,
            final(tree).spec_depth() == old(tree).spec_depth(),
            exists|sel: Map<(int, int), Seq<usize>>| #[trigger] choices_complete(
                old(tree).spec_tree(),
                sel,
                old(tree).spec_tree().len() - 1,
            ) && final(tree).spec_tree() == pruned_tree(old(tree).spec_tree(), sel) && self.pruned_by_kinds(
                old(tree).spec_depth(),
                old(tree).spec_tree(),
                sel,
            ),
    {
        let depth = tree.depth();
        let retain = (|level: usize, moves: &Vec<TreeEntry>| -> (r: Vec<usize>)
            ensures
                positions_of(r@, moves@),
                exists|k: PruningKind| #[trigger] self.pruning_fn.spec_prunes_by(
                    PruningInput { total_depth: depth, current_depth: level, num_branches: moves@.len() as usize },
                    k,
                ) && kept_by_kind(k, r@, moves@, level % 2 == 0),
            { self.retained_moves(depth, level, moves) });
        let ghost t = tree.spec_tree();
        tree.prune(retain);
        proof {
            let sel = choose|sel: Map<(int, int), Seq<usize>>| #[trigger] choices_by(&retain, t, sel)
                && choices_complete(t, sel, t.len() - 1) && tree.spec_tree() == pruned_tree(t, sel);
            assert forall|l: int, p: int| #[trigger] sel.dom().contains((l, p)) implies exists|v: Seq<TreeEntry>, k: PruningKind|
                #[trigger] self.chosen_by_kind(depth as int, t, l, p, v, k, sel[(l, p)]) by {
                let (v, r) = choose|v: Vec<TreeEntry>, r: Vec<usize>| #![auto] same_entries(v@, children_of(t, l, p))
                    && r@ == sel[(l, p)] && retain.ensures((l as usize, &v), r);
                let k = choose|k: PruningKind| #[trigger] self.pruning_fn.spec_prunes_by(
                    PruningInput { total_depth: depth, current_depth: l as usize, num_branches: v@.len() as usize },
                    k,
                ) && kept_by_kind(k, r@, v@, (l as usize) % 2 == 0);
                assert(self.chosen_by_kind(depth as int, t, l, p, v@, k, sel[(l, p)]));
            }
            assert(self.pruned_by_kinds(depth as int, t, sel));
        }
    }

    /// Each choice was made as the pruning function's kind for the level
    /// keeps moves.
    pub open spec fn pruned_by_kinds(&self, depth: int, t: Seq<Seq<TreeEntry>>, sel: Map<(int, int), Seq<usize>>) -> bool {
        forall|l: int, p: int| #[trigger] sel.dom().contains((l, p)) ==> exists|v: Seq<TreeEntry>, k: PruningKind|
            #[trigger] self.chosen_by_kind(depth, t, l, p, v, k, sel[(l, p)])
    }

    /// The moves `v`, alike the children of entry `p` of level `l`, are
    /// pruned by kind `k` of the pruning function to the positions `chosen`.
    pub open spec fn chosen_by_kind(
        &self,
        depth: int,
        t: Seq<Seq<TreeEntry>>,
        l: int,
        p: int,
        v: Seq<TreeEntry>,
        k: PruningKind,
        chosen: Seq<usize>,
    ) -> bool {
        &&& same_entries(v, children_of(t, l, p))
        &&& self.pruning_fn.spec_prunes_by(
            PruningInput { total_depth: depth as usize, current_depth: l as usize, num_branches: v.len() as usize },
            k,
        )
        &&& kept_by_kind(k, chosen, v, (l as usize) % 2 == 0)
    }

    /// Extends the search tree by two levels below each leaf and updates
    /// the ratings.
    fn extend_search_tree<'a, T: GameData, F: Fn() -> bool>(
        &self,
        stepper: &mut EngineStepper<'a, T>,
        tree: &mut SearchTreeState,
        player: usize,
        should_cancel: &F,
    ) -> (r: Result<(), MinMaxError>)
        where
            R: RateAndMap<T>,
        requires
            old(tree).wf(),
            old(tree).spec_next_levels() is None,
            old(stepper).at_move_start(),
            should_cancel.requires(()),
        ensures
            final(stepper).engine.wf(),
            r is Ok ==> final(stepper).at_move_start() && final(stepper).spec_decision_context()
                == old(stepper).spec_decision_context(),
            r is Ok ==> final(tree).wf() && final(tree).spec_next_levels() is None,
            r == Err::<(), MinMaxError>(MinMaxError::Cancelled) ==> should_cancel.ensures((), true),
            r matches Err(e) ==> search_error(e) || e is Cancelled,
            r is Ok ==> old(tree).spec_tree().len() <= final(tree).spec_tree().len() <= old(tree).spec_tree().len() + 2,
            (forall|b: bool| #[trigger] should_cancel.ensures((), b) ==> b) && old(tree).spec_depth() == 0 ==> r is Err,
            r is Ok ==> exists|trees: Seq<SearchTreeState>, counts: Seq<int>| #[trigger] leaves_extended(
                trees,
                leaves_below(old(tree).spec_tree().drop_last(), 0, 0),
                counts,
            ) && trees[0].spec_tree() == old(tree).spec_tree() && trees[0].spec_next_levels() == Some(
                (Seq::<TreeEntry>::empty(), Seq::<TreeEntry>::empty()),
            ) && same_shape(final(tree).spec_tree(), with_new_levels(trees.last()))
                && final(tree).spec_tree()[0] == with_new_levels(trees.last())[0]
                && final(tree).spec_tree().last() == with_new_levels(trees.last()).last(),
            r is Ok ==> forall|l: int, k: int| 1 <= l < final(tree).spec_depth() && 0 <= k < final(tree).spec_tree()[l].len()
                ==> rated_by_children(final(tree).spec_tree(), l, k),
            self.params.first_cut_delay_depth > usize::MAX / 4 || self.params.depth > usize::MAX / 4
                || self.params.first_move_added_delay_depth > usize::MAX / 4 || old(tree).spec_depth() > usize::MAX - 4
                ==> r == Err::<(), MinMaxError>(MinMaxError::InvalidParams) && *final(tree) == *old(tree),
    {
        let tree_depth = tree.depth();
        let delay = self.params.first_cut_delay_depth;
        if delay > usize::MAX / 4 || self.params.depth > usize::MAX / 4
            || self.params.first_move_added_delay_depth > usize::MAX / 4 || tree_depth > usize::MAX - 4 {
            return Err(MinMaxError::InvalidParams);
        }
        let mut depth = delay;
        if tree_depth == 0 {
            depth = depth + self.params.first_move_added_delay_depth;
        }
        let depth = 2 * (if depth < self.params.depth { depth } else { self.params.depth });
        let sliding = Sliding { params: &self.params.sliding, start: tree_depth };
        if !sliding.covers(depth) {
            return Err(MinMaxError::InvalidParams);
        }
        tree.new_levels();
        let visitor = LeafExtension { algorithm: self, depth, player, sliding, should_cancel };
        let ghost before_visits = *tree;
        match tree.for_each_leaf(stepper, &visitor) {
            Ok(()) => {},
            Err(e) => {
                return Err(e);
            },
        }
        proof {
            if (forall|b: bool| #[trigger] should_cancel.ensures((), b) ==> b) && old(tree).spec_depth() == 0 {
                let leaves = leaves_below(before_visits.spec_tree().drop_last(), 0, 0);
                assert(before_visits.spec_tree().drop_last().len() == 0);
                assert(leaves == seq![TreeIndex(0, 0)]);
                let trees = choose|trees: Seq<SearchTreeState>| #[trigger] visits_in_order::<T, LeafExtension<'_, R, P, F>>(
                    &visitor,
                    trees,
                    leaves,
                ) && trees[0] == before_visits && trees.last() == *tree;
                assert(visitor.spec_visits(trees[0], trees[1], leaves[0]));
                assert(should_cancel.ensures((), false));
            }
        }
        let ghost leaves = leaves_below(before_visits.spec_tree().drop_last(), 0, 0);
        let ghost trees = choose|trees: Seq<SearchTreeState>| #[trigger] visits_in_order::<T, LeafExtension<'_, R, P, F>>(
            &visitor,
            trees,
            leaves,
        ) && trees[0] == before_visits && trees.last() == *tree;
        let ghost counts = Seq::new(
            leaves.len(),
            |i: int| choose|k: int| #[trigger] children_added(trees[i], trees[i + 1], leaves[i], k),
        );
        proof {
            assert forall|i: int| 0 <= i < leaves.len() implies #[trigger] children_added(
                trees[i],
                trees[i + 1],
                leaves[i],
                counts[i],
            ) by {
                assert(visitor.spec_visits(trees[i], trees[i + 1], leaves[i]));
                assert(exists|k: int| #[trigger] children_added(trees[i], trees[i + 1], leaves[i], k));
            }
            assert(trees.len() == leaves.len() + 1);
            assert(counts.len() == leaves.len());
            assert(leaves_extended(trees, leaves, counts));
        }
        let ghost visited = *tree;
        tree.extend();
        let ghost ext = tree.spec_tree();
        tree.update_ratings();
        proof {
            assert(ext == with_new_levels(visited));
            assert(tree.spec_tree()[0] =~= ext[0]);
            assert(tree.spec_tree().last() =~= ext.last());
            assert(before_visits.spec_tree() == old(tree).spec_tree());
        }
        Ok(())
    }
}


/// A game move found by the search: its rating, the option indices that
/// select it and the context of its last decision.
pub type RatedResult<C> = (RatingType, Vec<usize>, C);

/// `x` is the last entry of `v` with the highest rating, and `v` lists the
/// moves on the first level of a search tree (see `roots_listed`).
pub open spec fn best_of_roots<C>(v: Seq<RatedResult<C>>, x: RatedResult<C>) -> bool {
    &&& exists|t: SearchTreeState| #[trigger] roots_listed(t, v)
    &&& last_max_at(v, x)
    &&& forall|k: int| 0 <= k < v.len() ==> (#[trigger] v[k]).0 <= x.0
}

/// `x` is an entry of `v` after which every entry is rated lower: the last
/// of the highest-rated entries.
pub open spec fn last_max_at<C>(v: Seq<RatedResult<C>>, x: RatedResult<C>) -> bool {
    exists|k: int| 0 <= k < v.len() && v[k] == x && forall|j: int| k < j < v.len() ==> (#[trigger] v[j]).0 < x.0
}

/// The move that `run` returns and `apply` plays is the last of the
/// first-level moves of the search tree with the highest rating: no
/// first-level move is rated higher, every later one is rated lower, and
/// the choice is unique.
pub proof fn lemma_best_root_move<C>(v: Seq<RatedResult<C>>, x: RatedResult<C>, t: SearchTreeState, y: RatedResult<C>)
    requires
        best_of_roots(v, x),
    ensures
        exists|k: int| 0 <= k < v.len() && v[k] == x,
        roots_listed(t, v) ==> exists|k: int|
            0 <= k < t.spec_tree()[1].len() && x.0 == t.spec_tree()[1][k].rating && x.1@ == as_positions(
                t.spec_tree()[1][k].indizes@,
            ) && forall|j: int| k < j < t.spec_tree()[1].len() ==> #[trigger] t.spec_tree()[1][j].rating < x.0,
        roots_listed(t, v) ==> forall|k: int| 0 <= k < t.spec_tree()[1].len() ==> #[trigger] t.spec_tree()[1][k].rating <= x.0,
        best_of_roots(v, y) ==> y == x,
{
    let k = choose|k: int| 0 <= k < v.len() && v[k] == x && forall|j: int| k < j < v.len() ==> (#[trigger] v[j]).0 < x.0;
    if roots_listed(t, v) {
        assert(v[k].0 == t.spec_tree()[1][k].rating);
        assert forall|j: int| 0 <= j < t.spec_tree()[1].len() implies #[trigger] t.spec_tree()[1][j].rating <= x.0 by {
            assert(v[j].0 == t.spec_tree()[1][j].rating);
        }
        assert forall|j: int| k < j < t.spec_tree()[1].len() implies #[trigger] t.spec_tree()[1][j].rating < x.0 by {
            assert(v[j].0 == t.spec_tree()[1][j].rating);
        }
    }
    if best_of_roots(v, y) {
        let ky = choose|j: int| 0 <= j < v.len() && v[j] == y && forall|i: int| j < i < v.len() ==> (#[trigger] v[i]).0 < y.0;
        assert(v[ky].0 <= x.0);
        assert(v[k].0 <= y.0);
        if ky < k {
            assert(v[k].0 < y.0);
        } else if k < ky {
            assert(v[ky].0 < x.0);
        }
    }
}

/// The entries of `v` are the moves on the first level of the search tree
/// `t`, in order, with their ratings and paths; the ratings of the tree are
/// those of the best children.
pub open spec fn roots_listed<C>(t: SearchTreeState, v: Seq<RatedResult<C>>) -> bool {
    &&& t.wf()
    &&& t.spec_depth() >= 1
    &&& forall|l: int, k: int| 1 <= l < t.spec_depth() && 0 <= k < t.spec_tree()[l].len() ==> rated_by_children(
        t.spec_tree(),
        l,
        k,
    )
    &&& v.len() == t.spec_tree()[1].len()
    &&& forall|k: int| 0 <= k < v.len() ==> (#[trigger] v[k]).0 == t.spec_tree()[1][k].rating && v[k].1@ == as_positions(
        t.spec_tree()[1][k].indizes@,
    )
}

/// Converts a path of option indices.
fn to_usize_path(path: &Vec<IndexType>) -> (r: Vec<usize>)
    ensures
        r@.len() == path@.len(),
        forall|k: int| 0 <= k < path@.len() ==> #[trigger] r@[k] == path@[k] as usize,
{
    let mut r: Vec<usize> = Vec::new();
    let mut k: usize = 0;
    while k < path.len()
        invariant
            k <= path@.len(),
            r@.len() == k,
            forall|a: int| 0 <= a < k ==> #[trigger] r@[a] == path@[a] as usize,
        decreases path@.len() - k,
    {
        r.push(path[k] as usize);
        k += 1;
    }
    r
}

/// Converts a path of option indices; fails if an index does not fit.
fn to_index_path(path: &Vec<usize>) -> (r: Option<Vec<IndexType>>)
    ensures
        r is Some <==> forall|k: int| 0 <= k < path@.len() ==> #[trigger] path@[k] <= u32::MAX,
        r matches Some(v) ==> v@.len() == path@.len() && forall|k: int| 0 <= k < path@.len() ==> #[trigger] v@[k] == path@[k],
{
    let mut r: Vec<IndexType> = Vec::new();
    let mut k: usize = 0;
    while k < path.len()
        invariant
            k <= path@.len(),
            r@.len() == k,
            forall|a: int| 0 <= a < k ==> #[trigger] path@[a] <= u32::MAX && r@[a] == path@[a],
        decreases path@.len() - k,
    {
        if path[k] > u32::MAX as usize {
            return None;
        }
        r.push(path[k] as IndexType);
        k += 1;
    }
    Some(r)
}

/// The error of a run that cannot be cancelled.
fn engine_state_error(e: MinMaxError) -> (r: InvalidEngineState)
    requires
        e != MinMaxError::Cancelled,
    ensures
        Some(r) == e.spec_engine_state_error(),
{
    match e.into_engine_state_error() {
        Some(s) => s,
        None => vstd::pervasive::unreached(),
    }
}

/// Adds the context of the last decision of each move to the ratings.
pub fn add_context_to_ratings<T: GameData + Clone, L: EventListener<T>>(
    engine: &Engine<T, L>,
    ratings: Vec<(RatingType, Vec<usize>)>,
) -> (r: Result<Vec<RatedResult<T::Context>>, InvalidEngineState>)
    requires
        engine.wf(),
    ensures
        engine.spec_is_finished() ==> r == Err::<Vec<RatedResult<T::Context>>, InvalidEngineState>(InvalidEngineState::Finished),
        engine.spec_is_pending_effect() ==> r == Err::<Vec<RatedResult<T::Context>>, InvalidEngineState>(InvalidEngineState::PendingEffect),
        engine.spec_is_pending_decision() && engine.spec_level() > 0 ==> r == Err::<Vec<RatedResult<T::Context>>, InvalidEngineState>(InvalidEngineState::FollowUp),
        r matches Ok(v) ==> v@.len() == ratings@.len() && forall|k: int| 0 <= k < v@.len() ==> (#[trigger] v@[k]).0 == ratings@[k].0
            && v@[k].1 == ratings@[k].1,
{
    proof {
        engine.lemma_exclusive_states();
    }
    if engine.is_finished() {
        return Err(InvalidEngineState::Finished);
    }
    let mut cloned = match engine.try_clone_with_listener(EventLog::<T::EffectType>::new()) {
        Ok(e) => e,
        Err(e) => {
            return Err(InvalidEngineState::from(e));
        },
    };
    let mut stepper = EngineStepper::new(&mut cloned);
    let ghost n = ratings@.len();
    let ghost orig = ratings@;
    let mut result: Vec<RatedResult<T::Context>> = Vec::new();
    let mut src = ratings;
    while src.len() > 0
        invariant
            stepper.at_move_start(),
            engine.spec_is_pending_decision() && engine.spec_level() == 0 && !engine.spec_is_finished() && !engine.spec_is_pending_effect(),
            result@.len() + src@.len() == n,
            forall|a: int| 0 <= a < src@.len() ==> src@[a] == orig[result@.len() + a],
            forall|k: int| 0 <= k < result@.len() ==> (#[trigger] result@[k]).0 == orig[k].0 && result@[k].1 == orig[k].1,
        decreases src@.len(),
    {
        let (val, path) = src.remove(0);
        let indizes = match to_index_path(&path) {
            Some(p) => p,
            None => {
                return Err(InvalidEngineState::InvalidGame);
            },
        };
        match stepper.forward_step(&indizes) {
            Ok(()) => {},
            Err(e) => {
                return Err(engine_state_error(e));
            },
        }
        let (ctx, _) = match stepper.backward_step() {
            Ok(pair) => pair,
            Err(e) => {
                return Err(engine_state_error(e));
            },
        };
        result.push((val, path, ctx));
    }
    Ok(result)
}

impl<R, P: PruningFunction> MinMaxAlgorithm<R, P> {
    /// Runs the search and returns the rating of each move of the pending
    /// top-level decision.  Fails for an engine that is not in a pending
    /// top-level decision, for a cancelled search and for games and
    /// parameters that the search cannot handle.  The engine is not changed.
    pub fn run_all_ratings_with_cancellation<T: GameData + Clone, L: EventListener<T>, F: Fn() -> bool>(
        &self,
        engine: &Engine<T, L>,
        should_cancel: F,
    ) -> (r: Result<Vec<RatedResult<T::Context>>, MinMaxError>)
        where
            R: RateAndMap<T>,
        requires
            engine.wf(),
            should_cancel.requires(()),
        ensures
            engine.spec_is_finished() ==> r == Err::<Vec<RatedResult<T::Context>>, MinMaxError>(MinMaxError::Finished),
            engine.spec_is_pending_effect() ==> r == Err::<Vec<RatedResult<T::Context>>, MinMaxError>(MinMaxError::PendingEffect),
            engine.spec_is_pending_decision() && engine.spec_level() > 0 ==> r == Err::<Vec<RatedResult<T::Context>>, MinMaxError>(MinMaxError::FollowUp),
            r == Err::<Vec<RatedResult<T::Context>>, MinMaxError>(MinMaxError::Cancelled) ==> should_cancel.ensures((), true),
            r matches Ok(v) ==> v@.len() > 0,
            engine.spec_is_pending_decision() && engine.spec_level() == 0 && (self.params.depth > usize::MAX / 4
                || !self.params.spec_integrity()) ==> r == Err::<Vec<RatedResult<T::Context>>, MinMaxError>(
                MinMaxError::InvalidParams,
            ),
            (forall|b: bool| #[trigger] should_cancel.ensures((), b) ==> b) ==> r is Err,
            r == Err::<Vec<RatedResult<T::Context>>, MinMaxError>(MinMaxError::Finished) ==> engine.spec_is_finished(),
            r == Err::<Vec<RatedResult<T::Context>>, MinMaxError>(MinMaxError::PendingEffect) ==> engine.spec_is_pending_effect(),
            r == Err::<Vec<RatedResult<T::Context>>, MinMaxError>(MinMaxError::FollowUp) ==> engine.spec_is_pending_decision()
                && engine.spec_level() > 0,
            r matches Ok(v) ==> exists|t: SearchTreeState| #[trigger] roots_listed(t, v@),
    {
        proof {
            engine.lemma_exclusive_states();
        }
        if engine.is_finished() {
            return Err(MinMaxError::Finished);
        }
        let mut cloned = match engine.try_clone_with_listener(EventLog::<T::EffectType>::new()) {
            Ok(e) => e,
            Err(e) => {
                return Err(MinMaxError::from(e));
            },
        };
        if self.params.depth > usize::MAX / 4 || !self.params.integrity_check() {
            return Err(MinMaxError::InvalidParams);
        }
        let mut stepper = EngineStepper::new(&mut cloned);
        let player = match stepper.player() {
            Ok(p) => p,
            Err(e) => {
                return Err(e);
            },
        };
        let mut tree = SearchTreeState::new();
        let num_runs = self.params.depth - self.params.first_cut_delay_depth + 1;
        let mut run: usize = 0;
        while run < num_runs
            invariant_except_break
                run <= num_runs,
            invariant
                stepper.at_move_start(),
                engine.spec_is_pending_decision() && engine.spec_level() == 0 && !engine.spec_is_finished() && !engine.spec_is_pending_effect(),
                tree.wf(),
                tree.spec_next_levels() is None,
                should_cancel.requires(()),
                (forall|b: bool| #[trigger] should_cancel.ensures((), b) ==> b) ==> run == 0 && tree.spec_depth() == 0,
                self.params.depth <= usize::MAX / 4 && self.params.spec_integrity(),
                tree.spec_depth() >= 1 ==> forall|l: int, k: int| 1 <= l < tree.spec_depth() && 0 <= k
                    < tree.spec_tree()[l].len() ==> rated_by_children(tree.spec_tree(), l, k),
            ensures
                tree.spec_depth() >= 0,
                (forall|b: bool| #[trigger] should_cancel.ensures((), b) ==> b) ==> tree.spec_depth() == 0,
            decreases num_runs - run,
        {
            self.prune(&mut tree);
            match self.extend_search_tree(&mut stepper, &mut tree, player, &should_cancel) {
                Ok(()) => {},
                Err(e) => {
                    return Err(e);
                },
            }
            if tree.depth() >= 1 && tree.level(1).len() == 1 {
                break;
            }
            run += 1;
        }
        if tree.depth() == 0 {
            return Err(MinMaxError::InvalidGame);
        }
        let roots = tree.root_moves();
        if roots.len() == 0 {
            return Err(MinMaxError::InvalidGame);
        }
        let ghost n = roots@.len();
        let ghost rv = roots@;
        let ghost final_tree = tree;
        let mut result: Vec<RatedResult<T::Context>> = Vec::new();
        let mut src = roots;
        while src.len() > 0
            invariant
                forall|a: int| 0 <= a < src@.len() ==> src@[a] == rv[result@.len() + a],
                forall|a: int| 0 <= a < result@.len() ==> (#[trigger] result@[a]).0 == rv[a].0 && result@[a].1@
                    == as_positions(rv[a].1@),
                stepper.at_move_start(),
                engine.spec_is_pending_decision() && engine.spec_level() == 0 && !engine.spec_is_finished() && !engine.spec_is_pending_effect(),
                result@.len() + src@.len() == n,
                n > 0,
                self.params.depth <= usize::MAX / 4 && self.params.spec_integrity(),
            decreases src@.len(),
        {
            let (val, path) = src.remove(0);
            match stepper.forward_step(&path) {
                Ok(()) => {},
                Err(e) => {
                    return Err(e);
                },
            }
            let (ctx, _) = match stepper.backward_step() {
                Ok(pair) => pair,
                Err(e) => {
                    return Err(e);
                },
            };
            let up = to_usize_path(&path);
            assert(up@ =~= as_positions(path@));
            result.push((val, up, ctx));
        }
        proof {
            assert(roots_listed(final_tree, result@));
            assert(exists|t: SearchTreeState| #[trigger] roots_listed(t, result@));
        }
        let ghost rr = result@;
        let out = Ok(result);
        assert(out matches Ok(v) && v@ == rr);
        out
    }

    /// Like `run_all_ratings_with_cancellation`, never cancelled.
    pub fn run_all_ratings<T: GameData + Clone, L: EventListener<T>>(&self, engine: &Engine<T, L>) -> (r: Result<
        Vec<RatedResult<T::Context>>,
        InvalidEngineState,
    >)
        where
            R: RateAndMap<T>,
        requires
            engine.wf(),
        ensures
            engine.spec_is_finished() ==> r == Err::<Vec<RatedResult<T::Context>>, InvalidEngineState>(InvalidEngineState::Finished),
            engine.spec_is_pending_effect() ==> r == Err::<Vec<RatedResult<T::Context>>, InvalidEngineState>(InvalidEngineState::PendingEffect),
            engine.spec_is_pending_decision() && engine.spec_level() > 0 ==> r == Err::<Vec<RatedResult<T::Context>>, InvalidEngineState>(InvalidEngineState::FollowUp),
            r matches Ok(v) ==> v@.len() > 0,
            r matches Ok(v) ==> exists|t: SearchTreeState| #[trigger] roots_listed(t, v@),
    {
        let never = || -> (b: bool)
            ensures
                !b,
            { false };
        match self.run_all_ratings_with_cancellation(engine, never) {
            Ok(v) => {
                let ghost vv = v@;
                let out: Result<Vec<RatedResult<T::Context>>, InvalidEngineState> = Ok(v);
                assert(out matches Ok(y) && y@ == vv);
                out
            },
            Err(e) => Err(engine_state_error(e)),
        }
    }

    /// Runs the search and returns the move with the best rating (the last
    /// of several with the best rating).
    pub fn run_with_cancellation<T: GameData + Clone, L: EventListener<T>, F: Fn() -> bool>(
        &self,
        engine: &Engine<T, L>,
        should_cancel: F,
    ) -> (r: Result<RatedResult<T::Context>, MinMaxError>)
        where
            R: RateAndMap<T>,
        requires
            engine.wf(),
            should_cancel.requires(()),
        ensures
            engine.spec_is_finished() ==> r == Err::<RatedResult<T::Context>, MinMaxError>(MinMaxError::Finished),
            engine.spec_is_pending_effect() ==> r == Err::<RatedResult<T::Context>, MinMaxError>(MinMaxError::PendingEffect),
            engine.spec_is_pending_decision() && engine.spec_level() > 0 ==> r == Err::<RatedResult<T::Context>, MinMaxError>(MinMaxError::FollowUp),
            r == Err::<RatedResult<T::Context>, MinMaxError>(MinMaxError::Cancelled) ==> should_cancel.ensures((), true),
            engine.spec_is_pending_decision() && engine.spec_level() == 0 && (self.params.depth > usize::MAX / 4
                || !self.params.spec_integrity()) ==> r == Err::<RatedResult<T::Context>, MinMaxError>(
                MinMaxError::InvalidParams,
            ),
            (forall|b: bool| #[trigger] should_cancel.ensures((), b) ==> b) ==> r is Err,
            r matches Ok(x) ==> exists|v: Seq<RatedResult<T::Context>>| #[trigger] best_of_roots(v, x),
    {
        let ratings = match self.run_all_ratings_with_cancellation(engine, should_cancel) {
            Ok(v) => v,
            Err(e) => {
                return Err(e);
            },
        };
        let ghost v = ratings@;
        let best = last_best(ratings);
        assert(best_of_roots(v, best));
        assert(exists|w: Seq<RatedResult<T::Context>>| #[trigger] best_of_roots(w, best));
        let out: Result<RatedResult<T::Context>, MinMaxError> = Ok(best);
        assert(out matches Ok(y) && y == best);
        out
    }

    /// Like `run_with_cancellation`, never cancelled.
    pub fn run<T: GameData + Clone, L: EventListener<T>>(&self, engine: &Engine<T, L>) -> (r: Result<
        RatedResult<T::Context>,
        InvalidEngineState,
    >)
        where
            R: RateAndMap<T>,
        requires
            engine.wf(),
        ensures
            engine.spec_is_finished() ==> r == Err::<RatedResult<T::Context>, InvalidEngineState>(InvalidEngineState::Finished),
            engine.spec_is_pending_effect() ==> r == Err::<RatedResult<T::Context>, InvalidEngineState>(InvalidEngineState::PendingEffect),
            engine.spec_is_pending_decision() && engine.spec_level() > 0 ==> r == Err::<RatedResult<T::Context>, InvalidEngineState>(InvalidEngineState::FollowUp),
            r matches Ok(x) ==> exists|v: Seq<RatedResult<T::Context>>| #[trigger] best_of_roots(v, x),
    {
        let never = || -> (b: bool)
            ensures
                !b,
            { false };
        match self.run_with_cancellation(engine, never) {
            Ok(v) => {
                let out: Result<RatedResult<T::Context>, InvalidEngineState> = Ok(v);
                assert(out matches Ok(y) && y == v);
                out
            },
            Err(e) => Err(engine_state_error(e)),
        }
    }

    /// Runs the search and makes the best move on the engine.
    pub fn apply<T: GameData + Clone, L: EventListener<T>>(&self, engine: &mut Engine<T, L>) -> (r: Result<(), InvalidEngineState>)
        where
            R: RateAndMap<T>,
        requires
            old(engine).wf(),
        ensures
            final(engine).wf(),
            old(engine).spec_is_finished() ==> r == Err::<(), InvalidEngineState>(InvalidEngineState::Finished),
            old(engine).spec_is_pending_effect() ==> r == Err::<(), InvalidEngineState>(InvalidEngineState::PendingEffect),
            old(engine).spec_is_pending_decision() && old(engine).spec_level() > 0 ==> r == Err::<(), InvalidEngineState>(InvalidEngineState::FollowUp),
            r is Ok ==> final(engine).spec_is_pending_effect(),
            r is Ok ==> exists|w: (Seq<RatedResult<T::Context>>, RatedResult<T::Context>, Seq<Engine<T, L>>)| #[trigger] best_of_roots(
                w.0,
                w.1,
            ) && Engine::<T, L>::selections(w.1.1@, w.2) && w.2[0] == *old(engine) && w.2.last() == *final(engine),
    {
        let best = match self.run(engine) {
            Ok(v) => v,
            Err(e) => {
                return Err(e);
            },
        };
        let ghost bv = choose|v: Seq<RatedResult<T::Context>>| #[trigger] best_of_roots(v, best);
        let (_, index_list, _) = best;
        proof {
            engine.lemma_exclusive_states();
        }
        let mut k: usize = 0;
        let ghost mut chain: Seq<Engine<T, L>> = seq![*engine];
        while k < index_list.len()
            invariant
                engine.wf(),
                old(engine).spec_is_pending_decision() && old(engine).spec_level() == 0 && !old(engine).spec_is_finished() && !old(engine).spec_is_pending_effect(),
                k <= index_list@.len(),
                chain.len() == k + 1,
                chain[0] == *old(engine),
                chain.last() == *engine,
                forall|j: int| 0 <= j < k ==> #[trigger] chain[j].spec_selection_step(index_list@[j], chain[j + 1]),
            decreases index_list@.len() - k,
        {
            let i = index_list[k];
            if !engine.is_pending_decision() || i >= engine.option_count() {
                return Err(InvalidEngineState::InvalidGame);
            }
            let ghost before = *engine;
            engine.select_option(i);
            proof {
                let old_chain = chain;
                chain = chain.push(*engine);
                assert forall|j: int| 0 <= j < k + 1 implies #[trigger] chain[j].spec_selection_step(index_list@[j], chain[j + 1]) by {
                    if j < k {
                        assert(chain[j] == old_chain[j] && chain[j + 1] == old_chain[j + 1]);
                    } else {
                        assert(chain[j] == before);
                    }
                }
            }
            k += 1;
        }
        proof {
            assert(index_list@ == best.1@);
            assert(Engine::<T, L>::selections(best.1@, chain));
            let w = (bv, best, chain);
            assert(best_of_roots(w.0, w.1));
        }
        proof {
            old(engine).lemma_exclusive_states();
        }
        if !engine.is_pending_effect() {
            return Err(InvalidEngineState::InvalidGame);
        }
        Ok(())
    }
}

/// The last entry with the highest rating.
fn last_best<C>(ratings: Vec<RatedResult<C>>) -> (r: RatedResult<C>)
    requires
        ratings@.len() > 0,
    ensures
        last_max_at(ratings@, r),
        forall|k: int| 0 <= k < ratings@.len() ==> (#[trigger] ratings@[k]).0 <= r.0,
{
    let ghost orig = ratings@;
    let mut src = ratings;
    let mut best = src.remove(0);
    let ghost mut bi: int = 0;
    let ghost mut consumed: int = 1;
    while src.len() > 0
        invariant
            consumed + src@.len() == orig.len(),
            1 <= consumed,
            forall|a: int| 0 <= a < src@.len() ==> src@[a] == orig[consumed + a],
            0 <= bi < consumed,
            orig[bi] == best,
            forall|j: int| bi < j < consumed ==> (#[trigger] orig[j]).0 < best.0,
            forall|k: int| 0 <= k < consumed ==> (#[trigger] orig[k]).0 <= best.0,
        decreases src@.len(),
    {
        let e = src.remove(0);
        if e.0 >= best.0 {
            best = e;
            proof {
                bi = consumed;
            }
        }
        proof {
            consumed = consumed + 1;
        }
    }
    best
}

} // verus!
