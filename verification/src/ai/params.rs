use vstd::prelude::*;

verus! {

/// Rating values used by the min-max player.
pub type RatingType = i32;

/// Number of entries of the per-level parameter lists that are consumed by
/// the cut operations (`branch_cut_limit` and friends).
pub open spec fn spec_reduced_depth(depth: int, first_cut_delay_depth: int) -> int {
    let sub = if depth >= first_cut_delay_depth { depth - first_cut_delay_depth } else { 0 };
    if 2 * (sub + 1) >= 2 { 2 * (sub + 1) } else { 2 }
}

/// A list of the given length whose first element is `first` and whose
/// remaining elements are `rest`.
pub open spec fn spec_level_list<A>(first: A, rest: A, len: int) -> Seq<A> {
    Seq::new(len as nat, |i: int| if i == 0 { first } else { rest })
}

/// Per-level parameters of the search.  Each list holds one entry per
/// half-move level of the search tree.
#[derive(Debug, Clone, PartialEq, Eq)]
pub struct SlidingParams {
    pub branch_cut_limit: Vec<usize>,
    pub branch_cut_difference: Vec<RatingType>,
    pub move_limit: Vec<usize>,
    pub move_cut_difference: Vec<RatingType>,
    pub equivalency_class_limit: Vec<usize>,
    pub equivalency_class_choices: Vec<usize>,
}

impl SlidingParams {
    /// The parameter lists have the lengths that a search of the given depth
    /// consumes.
    pub open spec fn spec_integrity(&self, depth: int, first_cut_delay_depth: int) -> bool {
        let rd = spec_reduced_depth(depth, first_cut_delay_depth);
        &&& self.branch_cut_limit@.len() == rd
        &&& self.branch_cut_difference@.len() == rd
        &&& self.move_limit@.len() == 2 * depth
        &&& self.move_cut_difference@.len() == 2 * depth
        &&& self.equivalency_class_limit@.len() == rd
        &&& self.equivalency_class_choices@.len() == rd
    }

    pub fn new(
        branch_cut_limit: Vec<usize>,
        branch_cut_difference: Vec<RatingType>,
        move_limit: Vec<usize>,
        move_cut_difference: Vec<RatingType>,
        equivalency_class_limit: Vec<usize>,
        equivalency_class_choices: Vec<usize>,
    ) -> (r: Self)
        ensures
            r.branch_cut_limit@ == branch_cut_limit@,
            r.branch_cut_difference@ == branch_cut_difference@,
            r.move_limit@ == move_limit@,
            r.move_cut_difference@ == move_cut_difference@,
            r.equivalency_class_limit@ == equivalency_class_limit@,
            r.equivalency_class_choices@ == equivalency_class_choices@,
    {
        Self {
            branch_cut_limit,
            branch_cut_difference,
            move_limit,
            move_cut_difference,
            equivalency_class_limit,
            equivalency_class_choices,
        }
    }

    /// Builds the parameter lists from single values: the first level gets a
    /// larger limit (twice, or four times for the equivalency class limit)
    /// and all following levels get the given value.
    pub fn with_defaults(
        depth: usize,
        first_cut_delay_depth: usize,
        branch_cut_limit: usize,
        move_limit: usize,
        branch_difference_probable: RatingType,
        move_difference_probable: RatingType,
        equivalency_class_limit: usize,
        equivalency_class_choices: usize,
    ) -> (r: Self)
        requires
            depth > 0,
            2 * (depth + 1) <= usize::MAX,
            2 * branch_cut_limit <= usize::MAX,
            2 * move_limit <= usize::MAX,
            4 * equivalency_class_limit <= usize::MAX,
            i32::MIN <= 2 * branch_difference_probable <= i32::MAX,
            i32::MIN <= 2 * move_difference_probable <= i32::MAX,
        ensures
            r.spec_integrity(depth as int, first_cut_delay_depth as int),
            r.branch_cut_limit@ == spec_level_list(
                2 * branch_cut_limit as int, branch_cut_limit as int,
                spec_reduced_depth(depth as int, first_cut_delay_depth as int),
            ).map_values(|x: int| x as usize),
            r.branch_cut_difference@ == spec_level_list(
                2 * branch_difference_probable as int, branch_difference_probable as int,
                spec_reduced_depth(depth as int, first_cut_delay_depth as int),
            ).map_values(|x: int| x as i32),
            r.move_limit@ == spec_level_list(
                2 * move_limit as int, move_limit as int, 2 * depth as int,
            ).map_values(|x: int| x as usize),
            r.move_cut_difference@ == spec_level_list(
                2 * move_difference_probable as int, move_difference_probable as int, 2 * depth as int,
            ).map_values(|x: int| x as i32),
            r.equivalency_class_limit@ == spec_level_list(
                4 * equivalency_class_limit as int, equivalency_class_limit as int,
                spec_reduced_depth(depth as int, first_cut_delay_depth as int),
            ).map_values(|x: int| x as usize),
            r.equivalency_class_choices@ == spec_level_list(
                equivalency_class_choices as int, equivalency_class_choices as int,
                spec_reduced_depth(depth as int, first_cut_delay_depth as int),
            ).map_values(|x: int| x as usize),
    {
        let reduced_depth = reduced_depth(depth, first_cut_delay_depth);
        let branch_cut_limit_vec = level_list_usize(2 * branch_cut_limit, branch_cut_limit, reduced_depth);
        let branch_cut_difference = level_list_i32(
            2 * branch_difference_probable,
            branch_difference_probable,
            reduced_depth,
        );
        let move_limit_vec = level_list_usize(2 * move_limit, move_limit, 2 * depth);
        let move_cut_difference = level_list_i32(
            2 * move_difference_probable,
            move_difference_probable,
            2 * depth,
        );
        let equivalency_class_limit_vec = level_list_usize(
            4 * equivalency_class_limit,
            equivalency_class_limit,
            reduced_depth,
        );
        let equivalency_class_choices_vec = level_list_usize(
            equivalency_class_choices,
            equivalency_class_choices,
            reduced_depth,
        );
        Self::new(
            branch_cut_limit_vec,
            branch_cut_difference,
            move_limit_vec,
            move_cut_difference,
            equivalency_class_limit_vec,
            equivalency_class_choices_vec,
        )
    }

    /// Whether the parameter lists have the lengths that a search of the
    /// given depth consumes.
    pub fn integrity_check(&self, depth: usize, first_cut_delay_depth: usize) -> (r: bool)
        requires
            2 * (depth + 1) <= usize::MAX,
        ensures
            r == self.spec_integrity(depth as int, first_cut_delay_depth as int),
    {
        let rd = reduced_depth(depth, first_cut_delay_depth);
        self.branch_cut_limit.len() == rd && self.branch_cut_difference.len() == rd
            && self.move_limit.len() == 2 * depth && self.move_cut_difference.len() == 2 * depth
            && self.equivalency_class_limit.len() == rd
            && self.equivalency_class_choices.len() == rd
    }

    /// All lists have at least `start` elements, so that the view starting at
    /// `start` exists.
    pub open spec fn spec_can_get(&self, start: int) -> bool {
        &&& start <= self.branch_cut_limit@.len()
        &&& start <= self.branch_cut_difference@.len()
        &&& start <= self.move_limit@.len()
        &&& start <= self.move_cut_difference@.len()
        &&& start <= self.equivalency_class_limit@.len()
        &&& start <= self.equivalency_class_choices@.len()
    }

    /// The parameters starting at level `start`.
    pub fn get(&self, start: usize) -> (r: Sliding<'_>)
        requires
            self.spec_can_get(start as int),
        ensures
            r.params == self,
            r.start == start,
    {
        Sliding { params: self, start }
    }
}

fn reduced_depth(depth: usize, first_cut_delay_depth: usize) -> (r: usize)
    requires
        2 * (depth + 1) <= usize::MAX,
    ensures
        r == spec_reduced_depth(depth as int, first_cut_delay_depth as int),
{
    let sub = depth.saturating_sub(first_cut_delay_depth);
    let d = 2 * (sub + 1);
    if d >= 2 { d } else { 2 }
}

fn level_list_usize(first: usize, rest: usize, len: usize) -> (r: Vec<usize>)
    ensures
        r@ == spec_level_list(first as int, rest as int, len as int).map_values(|x: int| x as usize),
{
    let mut v: Vec<usize> = Vec::new();
    let mut i: usize = 0;
    while i < len
        invariant
            i <= len,
            v@ == spec_level_list(first as int, rest as int, i as int).map_values(|x: int| x as usize),
        decreases len - i,
    {
        if i == 0 { v.push(first); } else { v.push(rest); }
        i += 1;
        assert(v@ =~= spec_level_list(first as int, rest as int, i as int).map_values(|x: int| x as usize));
    }
    v
}

fn level_list_i32(first: i32, rest: i32, len: usize) -> (r: Vec<i32>)
    ensures
        r@ == spec_level_list(first as int, rest as int, len as int).map_values(|x: int| x as i32),
{
    let mut v: Vec<i32> = Vec::new();
    let mut i: usize = 0;
    while i < len
        invariant
            i <= len,
            v@ == spec_level_list(first as int, rest as int, i as int).map_values(|x: int| x as i32),
        decreases len - i,
    {
        if i == 0 { v.push(first); } else { v.push(rest); }
        i += 1;
        assert(v@ =~= spec_level_list(first as int, rest as int, i as int).map_values(|x: int| x as i32));
    }
    v
}

/// A view on the parameters from some level on.
#[derive(Debug, Clone, Copy)]
pub struct Sliding<'a> {
    pub params: &'a SlidingParams,
    pub start: usize,
}

impl<'a> Sliding<'a> {
    pub fn branch_cut_limit(&self) -> (r: usize)
        requires
            self.start < self.params.branch_cut_limit@.len(),
        ensures
            r == self.params.branch_cut_limit@[self.start as int],
    {
        self.params.branch_cut_limit[self.start]
    }

    pub fn branch_cut_difference(&self) -> (r: RatingType)
        requires
            self.start < self.params.branch_cut_difference@.len(),
        ensures
            r == self.params.branch_cut_difference@[self.start as int],
    {
        self.params.branch_cut_difference[self.start]
    }

    pub fn move_limit(&self) -> (r: usize)
        requires
            self.start < self.params.move_limit@.len(),
        ensures
            r == self.params.move_limit@[self.start as int],
    {
        self.params.move_limit[self.start]
    }

    pub fn move_cut_difference(&self) -> (r: RatingType)
        requires
            self.start < self.params.move_cut_difference@.len(),
        ensures
            r == self.params.move_cut_difference@[self.start as int],
    {
        self.params.move_cut_difference[self.start]
    }

    pub fn equivalency_class_limit(&self) -> (r: usize)
        requires
            self.start < self.params.equivalency_class_limit@.len(),
        ensures
            r == self.params.equivalency_class_limit@[self.start as int],
    {
        self.params.equivalency_class_limit[self.start]
    }

    pub fn equivalency_class_choices(&self) -> (r: usize)
        requires
            self.start < self.params.equivalency_class_choices@.len(),
        ensures
            r == self.params.equivalency_class_choices@[self.start as int],
    {
        self.params.equivalency_class_choices[self.start]
    }

    /// The move lists reach `depth` levels beyond `start`.
    pub open spec fn spec_covers_moves(&self, depth: int) -> bool {
        &&& self.start + depth <= self.params.move_limit@.len()
        &&& self.start + depth <= self.params.move_cut_difference@.len()
    }

    /// All lists reach `depth` levels beyond `start`.
    pub open spec fn spec_covers(&self, depth: int) -> bool {
        &&& self.spec_covers_moves(depth)
        &&& self.start + depth <= self.params.branch_cut_limit@.len()
        &&& self.start + depth <= self.params.branch_cut_difference@.len()
        &&& self.start + depth <= self.params.equivalency_class_limit@.len()
        &&& self.start + depth <= self.params.equivalency_class_choices@.len()
    }

    /// Whether all lists reach `depth` levels beyond `start`.
    pub fn covers(&self, depth: usize) -> (r: bool)
        ensures
            r == self.spec_covers(depth as int),
    {
        let move_len = self.params.move_limit.len();
        if self.start > usize::MAX - depth {
            assert(self.start + depth > move_len);
            return false;
        }
        let end = self.start + depth;
        end <= self.params.move_limit.len() && end <= self.params.move_cut_difference.len()
            && end <= self.params.branch_cut_limit.len() && end <= self.params.branch_cut_difference.len()
            && end <= self.params.equivalency_class_limit.len()
            && end <= self.params.equivalency_class_choices.len()
    }

    /// The parameters one level deeper.  The move lists must not be
    /// exhausted yet; the other lists stay exhausted once they are.
    pub fn next(&self) -> (r: Self)
        requires
            self.start < self.params.move_limit@.len(),
            self.start < self.params.move_cut_difference@.len(),
        ensures
            r.params == self.params,
            r.start == self.start + 1,
    {
        let len = self.params.move_limit.len();
        assert(self.start < len);
        Sliding { params: self.params, start: self.start + 1 }
    }
}

/// Note that all depths are measured in 2-steps, i.e. a +1 in depth
/// corresponds to an additional move of both players.
#[derive(Debug, Clone, PartialEq, Eq)]
pub struct Params {
    pub depth: usize,
    pub first_cut_delay_depth: usize,
    pub first_move_added_delay_depth: usize,
    pub equivalency_penalty: RatingType,
    pub sliding: SlidingParams,
}

impl Params {
    /// The parameters describe a search that can be run.
    pub open spec fn spec_integrity(&self) -> bool {
        &&& self.depth > 0
        &&& self.first_cut_delay_depth > 0
        &&& self.first_cut_delay_depth + self.first_move_added_delay_depth <= self.depth
        &&& self.sliding.spec_integrity(self.depth as int, self.first_cut_delay_depth as int)
    }

    /// Whether the parameters describe a search that can be run.
    pub fn integrity_check(&self) -> (r: bool)
        requires
            2 * (self.depth + 1) <= usize::MAX,
        ensures
            r == self.spec_integrity(),
    {
        self.depth > 0 && self.first_cut_delay_depth > 0
            && self.first_move_added_delay_depth <= usize::MAX - self.first_cut_delay_depth
            && self.first_cut_delay_depth + self.first_move_added_delay_depth <= self.depth
            && self.sliding.integrity_check(self.depth, self.first_cut_delay_depth)
    }

    pub fn new(depth: usize, sliding: SlidingParams, equivalency_penalty: RatingType) -> (r: Self)
        ensures
            r.depth == depth,
            r.first_cut_delay_depth == (if depth < 2 { depth } else { 2 }),
            r.first_move_added_delay_depth == 0,
            r.equivalency_penalty == equivalency_penalty,
            r.sliding == sliding,
    {
        Self {
            depth,
            first_cut_delay_depth: if depth < 2 { depth } else { 2 },
            first_move_added_delay_depth: 0,
            equivalency_penalty,
            sliding,
        }
    }
}

} // verus!
