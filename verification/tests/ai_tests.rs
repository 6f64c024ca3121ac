use tgp::ai::algorithm::{MinMaxAlgorithm, MinMaxError, RateAndMap};
use tgp::ai::engine_stepper::EngineStepper;
use tgp::ai::params::{Params, RatingType, SlidingParams};
use tgp::ai::rater::{translate, DecisionType, IndexType, Rater};
use tgp::ai::search_tree_state::{LeafVisitor, SearchTreeState, TreeEntry, TreeIndex};
use tgp::game::engine::concrete_engine::GameState;
use tgp::game::engine::Engine;
use tgp::game::trait_definitions::{Decision, Effect, GameData, Outcome, RevEffect};

/// A game where zeros and ones are counted and the state is represented by
/// the sum of each.
#[derive(Debug, Clone)]
struct ZeroOneGame {
    num_zeros: u32,
    num_ones: u32,
    use_high_level: bool,
    player: usize,
    finished_at: u32,
}

impl ZeroOneGame {
    fn new(use_high_level: bool, finished_at: u32) -> Self {
        Self { num_zeros: 0, num_ones: 0, use_high_level, player: 0, finished_at }
    }

    fn update(&mut self) {
        self.use_high_level = !self.use_high_level;
        self.player = (self.player + 1) % 2;
    }
}

#[derive(Debug, Clone, Copy, PartialEq, Eq)]
enum ZeroOneContext {
    Flat,
    Base,
    ZeroAnd,
    OneAnd,
}

/// Adds zeros and ones, then switches the level and the player.
#[derive(Debug, Clone, Copy, PartialEq, Eq)]
struct CountEffect {
    zeros: u32,
    ones: u32,
}

impl Effect<ZeroOneGame> for CountEffect {
    fn apply(&self, data: &mut ZeroOneGame) -> Option<Self> {
        data.num_zeros += self.zeros;
        data.num_ones += self.ones;
        data.update();
        None
    }
}

impl RevEffect<ZeroOneGame> for CountEffect {
    fn undo(&self, data: &mut ZeroOneGame) {
        data.num_zeros -= self.zeros;
        data.num_ones -= self.ones;
        data.update();
    }
}

#[derive(Debug, Clone, Copy, PartialEq, Eq)]
struct ZeroOneDecision {
    player: usize,
    context: ZeroOneContext,
}

impl Decision<ZeroOneGame, CountEffect, ZeroOneContext> for ZeroOneDecision {
    fn select_option(&self, _data: &ZeroOneGame, index: usize) -> Outcome<Self, CountEffect> {
        let player = self.player;
        match self.context {
            ZeroOneContext::Flat => Outcome::Effect(if index == 0 {
                CountEffect { zeros: 1, ones: 0 }
            } else {
                CountEffect { zeros: 0, ones: 1 }
            }),
            ZeroOneContext::Base => Outcome::FollowUp(ZeroOneDecision {
                player,
                context: if index == 0 { ZeroOneContext::ZeroAnd } else { ZeroOneContext::OneAnd },
            }),
            ZeroOneContext::ZeroAnd => Outcome::Effect(if index == 0 {
                CountEffect { zeros: 2, ones: 0 }
            } else {
                CountEffect { zeros: 1, ones: 1 }
            }),
            ZeroOneContext::OneAnd => Outcome::Effect(if index == 0 {
                CountEffect { zeros: 1, ones: 1 }
            } else {
                CountEffect { zeros: 0, ones: 2 }
            }),
        }
    }

    fn option_count(&self) -> usize {
        2
    }

    fn player(&self) -> usize {
        self.player
    }

    fn context(&self, _data: &ZeroOneGame) -> ZeroOneContext {
        self.context
    }
}

impl GameData for ZeroOneGame {
    type Context = ZeroOneContext;
    type EffectType = CountEffect;
    type DecisionType = ZeroOneDecision;

    fn next_decision(&self) -> Option<ZeroOneDecision> {
        if self.num_zeros + self.num_ones >= self.finished_at {
            return None;
        }
        let context = if self.use_high_level { ZeroOneContext::Base } else { ZeroOneContext::Flat };
        Some(ZeroOneDecision { player: self.player, context })
    }
}

fn type_mapping(context: &ZeroOneContext) -> DecisionType {
    match context {
        ZeroOneContext::Flat | ZeroOneContext::ZeroAnd | ZeroOneContext::OneAnd => DecisionType::BottomLevel,
        ZeroOneContext::Base => DecisionType::HigherLevel,
    }
}

#[derive(Debug, Clone, Copy)]
struct RateAndMapZeroOne;

impl RateAndMap<ZeroOneGame> for RateAndMapZeroOne {
    fn apply_type_mapping(&self, context: &ZeroOneContext) -> DecisionType {
        type_mapping(context)
    }

    fn rate_moves(
        &self,
        rater: &mut Rater,
        context: &Vec<ZeroOneContext>,
        data: &ZeroOneGame,
        _old_context: &Vec<(ZeroOneContext, usize)>,
    ) {
        let player = data.player;
        for i in 0..rater.num_decisions() {
            match context[i] {
                ZeroOneContext::Flat => {
                    if player == 0 {
                        rater.rate(i, 0, 1);
                        rater.rate(i, 1, 0);
                    } else {
                        rater.rate(i, 0, 0);
                        rater.rate(i, 1, 1);
                    }
                }
                ZeroOneContext::ZeroAnd => {
                    if player == 0 {
                        rater.rate(i, 0, 2);
                        rater.rate(i, 1, 0);
                    } else {
                        rater.rate(i, 0, -2);
                        rater.rate(i, 1, 0);
                    }
                }
                ZeroOneContext::OneAnd => {
                    if player == 0 {
                        rater.rate(i, 0, 0);
                        rater.rate(i, 1, -2);
                    } else {
                        rater.rate(i, 0, 0);
                        rater.rate(i, 1, 2);
                    }
                }
                ZeroOneContext::Base => unreachable!(),
            }
        }
    }

    fn rate_game_state(&self, data: &ZeroOneGame, _old_context: &Vec<(ZeroOneContext, usize)>, player: usize) -> RatingType {
        let mut diff = data.num_ones as i32 - data.num_zeros as i32;
        if player == 0 {
            diff = -diff;
        }
        diff * diff.abs()
    }
}

fn indizes(input: &[IndexType]) -> Vec<IndexType> {
    input.to_vec()
}

fn test_sliding() -> SlidingParams {
    SlidingParams::with_defaults(4, 2, 4, 4, 2, 2, 4, 1)
}

#[test]
fn min_max_test() {
    let sliding = test_sliding();
    let params = Params::new(4, sliding.clone(), 1);
    let alg = MinMaxAlgorithm::new(params, RateAndMapZeroOne);
    let data = ZeroOneGame::new(false, 6);
    let mut engine = Engine::new_logging(2, data);
    let mut stepper = EngineStepper::new(&mut engine);

    assert_eq!(alg.min_max(0, &mut stepper, 0, sliding.get(1)), Ok(0));
    assert_eq!(alg.min_max(0, &mut stepper, 1, sliding.get(1)), Ok(0));
    assert_eq!(alg.min_max(1, &mut stepper, 0, sliding.get(1)), Ok(1));
    assert_eq!(alg.min_max(1, &mut stepper, 1, sliding.get(1)), Ok(-1));
    assert_eq!(alg.min_max(2, &mut stepper, 0, sliding.get(1)), Ok(-1));
    assert_eq!(alg.min_max(2, &mut stepper, 1, sliding.get(1)), Ok(1));
    assert_eq!(alg.min_max(3, &mut stepper, 0, sliding.get(1)), Ok(0));
    assert_eq!(alg.min_max(3, &mut stepper, 1, sliding.get(1)), Ok(0));
    assert_eq!(alg.min_max(4, &mut stepper, 0, sliding.get(1)), Ok(-4));
    assert_eq!(alg.min_max(4, &mut stepper, 1, sliding.get(1)), Ok(4));
    assert_eq!(alg.min_max(6, &mut stepper, 0, sliding.get(1)), Ok(-12));
    assert_eq!(alg.min_max(6, &mut stepper, 1, sliding.get(1)), Ok(12));
}

#[test]
fn collect_and_cut_test() {
    let sliding = test_sliding();
    let params = Params::new(4, sliding.clone(), 1);
    let alg = MinMaxAlgorithm::new(params, RateAndMapZeroOne);
    let data = ZeroOneGame::new(false, 6);
    let mut engine = Engine::new_logging(2, data);
    let mut stepper = EngineStepper::new(&mut engine);

    assert_eq!(alg.collect_and_cut(0, &mut stepper, 0, 2, sliding.get(1)), Ok((0, Vec::new())));
    assert_eq!(alg.collect_and_cut(0, &mut stepper, 1, 2, sliding.get(1)), Ok((0, Vec::new())));
    assert_eq!(
        alg.collect_and_cut(1, &mut stepper, 0, 2, sliding.get(1)),
        Ok((1, vec![(1, indizes(&[0])), (-1, indizes(&[1]))]))
    );
    assert_eq!(
        alg.collect_and_cut(1, &mut stepper, 1, 2, sliding.get(1)),
        Ok((-1, vec![(-1, indizes(&[0])), (1, indizes(&[1]))]))
    );
    assert_eq!(
        alg.collect_and_cut(2, &mut stepper, 0, 2, sliding.get(1)),
        Ok((-1, vec![(-1, indizes(&[0])), (-9, indizes(&[1]))]))
    );
    assert_eq!(
        alg.collect_and_cut(2, &mut stepper, 1, 2, sliding.get(1)),
        Ok((1, vec![(1, indizes(&[0])), (9, indizes(&[1]))]))
    );
    assert_eq!(
        alg.collect_and_cut(2, &mut stepper, 0, 1, sliding.get(1)),
        Ok((-1, vec![(-1, indizes(&[0]))]))
    );
    assert_eq!(
        alg.collect_and_cut(2, &mut stepper, 1, 1, sliding.get(1)),
        Ok((1, vec![(1, indizes(&[0]))]))
    );
}

#[test]
fn collect_recursive_test() {
    let sliding = test_sliding();
    let params = Params::new(4, sliding.clone(), 1);
    let alg = MinMaxAlgorithm::new(params, RateAndMapZeroOne);
    let data = ZeroOneGame::new(false, 6);
    let mut engine = Engine::new_logging(2, data);
    let mut stepper = EngineStepper::new(&mut engine);

    assert_eq!(alg.collect_recursive(0, &mut stepper, 0, 2, sliding.get(1)), Ok(Vec::new()));
    assert_eq!(alg.collect_recursive(0, &mut stepper, 1, 2, sliding.get(1)), Ok(Vec::new()));
    assert_eq!(
        alg.collect_recursive(1, &mut stepper, 0, 2, sliding.get(1)),
        Ok(vec![(1, indizes(&[0]), Vec::new()), (-1, indizes(&[1]), Vec::new())])
    );
    assert_eq!(
        alg.collect_recursive(1, &mut stepper, 1, 2, sliding.get(1)),
        Ok(vec![(-1, indizes(&[0]), Vec::new()), (1, indizes(&[1]), Vec::new())])
    );
    assert_eq!(
        alg.collect_recursive(2, &mut stepper, 0, 2, sliding.get(1)),
        Ok(vec![
            (-1, indizes(&[0]), vec![(-1, indizes(&[1, 1])), (1, indizes(&[0, 1])), (1, indizes(&[1, 0]))]),
            (-9, indizes(&[1]), vec![(-9, indizes(&[1, 1])), (-1, indizes(&[0, 1])), (-1, indizes(&[1, 0]))])
        ])
    );
    assert_eq!(
        alg.collect_recursive(2, &mut stepper, 1, 2, sliding.get(1)),
        Ok(vec![
            (1, indizes(&[0]), vec![(1, indizes(&[1, 1])), (-1, indizes(&[0, 1])), (-1, indizes(&[1, 0]))]),
            (9, indizes(&[1]), vec![(9, indizes(&[1, 1])), (1, indizes(&[0, 1])), (1, indizes(&[1, 0]))])
        ])
    );
    assert_eq!(
        alg.collect_recursive(2, &mut stepper, 0, 1, sliding.get(1)),
        Ok(vec![(-1, indizes(&[0]), vec![(-1, indizes(&[1, 1])), (1, indizes(&[0, 1])), (1, indizes(&[1, 0]))])])
    );
    assert_eq!(
        alg.collect_recursive(2, &mut stepper, 1, 1, sliding.get(1)),
        Ok(vec![(1, indizes(&[0]), vec![(1, indizes(&[1, 1])), (-1, indizes(&[0, 1])), (-1, indizes(&[1, 0]))])])
    );
}

#[test]
fn run_test() {
    let sliding = SlidingParams::with_defaults(1, 2, 4, 4, 2, 2, 4, 1);
    let params = Params::new(1, sliding.clone(), 1);
    let mut alg = MinMaxAlgorithm::new(params, RateAndMapZeroOne);
    alg.params.first_cut_delay_depth = 1;
    let data = ZeroOneGame::new(true, 8);
    let mut engine = Engine::new_logging(2, data);
    assert_eq!(alg.run(&engine), Ok((1, vec![0, 0], ZeroOneContext::ZeroAnd)));

    let sliding = SlidingParams::with_defaults(2, 1, 4, 4, 4, 2, 4, 1);
    let params = Params::new(2, sliding.clone(), 1);
    let mut alg = MinMaxAlgorithm::new(params, RateAndMapZeroOne);
    alg.params.first_cut_delay_depth = 1;
    assert_eq!(alg.run(&engine), Ok((4, vec![0, 0], ZeroOneContext::ZeroAnd)));

    match engine.pull() {
        GameState::PendingDecision(dec) => dec.select_option(0),
        _ => unreachable!(),
    }
    match engine.pull() {
        GameState::PendingDecision(dec) => dec.select_option(1),
        _ => unreachable!(),
    }
    match engine.pull() {
        GameState::PendingEffect(eff) => eff.all_effects(),
        _ => unreachable!(),
    }
    assert_eq!(alg.run(&engine), Ok((-4, vec![1], ZeroOneContext::Flat)));
}

#[test]
fn stepping_test() {
    let data = ZeroOneGame::new(false, 3);
    let mut engine = Engine::new_logging(2, data);
    let mut stepper = EngineStepper::new(&mut engine);
    assert!(!stepper.is_finished());

    stepper.forward_step(&vec![0]).unwrap();
    assert!(!stepper.is_finished());
    assert_eq!(stepper.data().num_zeros, 1);
    assert_eq!(stepper.data().num_ones, 0);

    stepper.backward_step().unwrap();
    assert!(!stepper.is_finished());
    assert_eq!(stepper.data().num_zeros, 0);
    assert_eq!(stepper.data().num_ones, 0);

    stepper.forward_step(&vec![1]).unwrap();
    stepper.forward_step(&vec![0, 1]).unwrap();
    assert!(stepper.is_finished());
    assert_eq!(stepper.data().num_zeros, 1);
    assert_eq!(stepper.data().num_ones, 2);

    stepper.backward_step().unwrap();
    assert!(!stepper.is_finished());
    assert_eq!(stepper.data().num_zeros, 0);
    assert_eq!(stepper.data().num_ones, 1);

    stepper.forward_step(&vec![1, 1]).unwrap();
    assert!(stepper.is_finished());
    assert_eq!(stepper.data().num_zeros, 0);
    assert_eq!(stepper.data().num_ones, 3);
}

#[test]
fn stepping_fails_on_missing_option() {
    let data = ZeroOneGame::new(false, 3);
    let mut engine = Engine::new_logging(2, data);
    let mut stepper = EngineStepper::new(&mut engine);
    assert!(stepper.forward_step(&vec![2]).is_err());
}

#[test]
fn rater_basic_test() {
    let data = ZeroOneGame::new(false, 1);
    let mut engine = Engine::new_logging(2, data);
    let (rater, _) = Rater::new(&mut engine, type_mapping).unwrap();

    assert_eq!(rater.num_decisions(), 1);
    assert_eq!(rater.num_moves(), 2);
}

#[test]
fn translate_test() {
    let data = ZeroOneGame::new(false, 1);
    let mut engine = Engine::new_logging(2, data);

    assert_eq!(translate(&mut engine, type_mapping, 0), Ok(vec![0]));

    let data = ZeroOneGame::new(true, 2);
    let mut engine = Engine::new_logging(2, data);

    assert_eq!(translate(&mut engine, type_mapping, 1), Ok(vec![0, 1]));

    let data = ZeroOneGame::new(true, 2);
    let mut engine = Engine::new_logging(2, data);

    assert_eq!(translate(&mut engine, type_mapping, 3), Ok(vec![1, 1]));
}

#[test]
fn two_level_test() {
    let data = ZeroOneGame::new(true, 2);
    let mut engine = Engine::new_logging(2, data);
    let (rater, c) = Rater::new(&mut engine, type_mapping).unwrap();

    assert_eq!(rater.num_decisions(), 2);
    assert_eq!(c[0], ZeroOneContext::ZeroAnd);
    assert_eq!(c[1], ZeroOneContext::OneAnd);
    assert_eq!(rater.num_moves(), 4);
}

#[test]
fn cut_and_sort_test() {
    let data = ZeroOneGame::new(true, 1);
    let mut engine = Engine::new_logging(2, data);

    let (mut rater, _) = Rater::new(&mut engine, type_mapping).unwrap();
    rater.rate(0, 0, 0);
    rater.rate(0, 1, 3);
    rater.rate(1, 0, 2);
    rater.rate(1, 1, 1);
    let result = rater.cut_and_sort(1);
    assert_eq!(result, vec![(3, vec![0, 1]), (2, vec![1, 0]), (1, vec![1, 1])]);

    let (mut rater, _) = Rater::new(&mut engine, type_mapping).unwrap();
    rater.rate(0, 0, 0);
    rater.rate(0, 1, 1);
    rater.set_equivalent_to(1, 0, 0, 1);
    rater.rate(1, 1, 4);
    let result = rater.cut_and_sort_with_equivalency(1);
    assert_eq!(result, vec![(4, vec![1, 1], Vec::new()), (1, vec![0, 1], vec![vec![1, 0]])]);
}

#[test]
fn build_search_tree_test() {
    let mut sts = SearchTreeState::new();
    assert_eq!(sts.depth(), 0);

    sts.new_levels();
    sts.push_child(TreeIndex(0, 0), 0, indizes(&[1]), vec![(0, indizes(&[1]))]);
    sts.push_child(TreeIndex(0, 0), 33, indizes(&[3]), vec![(333, indizes(&[3]))]);
    sts.push_child(TreeIndex(0, 0), -11, indizes(&[2]), vec![(-111, indizes(&[2])), (0, indizes(&[0]))]);
    sts.push_child(TreeIndex(0, 0), 77, indizes(&[0]), vec![(123, indizes(&[])), (-123, indizes(&[]))]);
    sts.extend();

    assert_eq!(sts.level(0), &vec![TreeEntry { rating: 0, indizes: indizes(&[]), num_children: 4 }]);
    assert_eq!(
        sts.level(1),
        &vec![
            TreeEntry { rating: 0, indizes: indizes(&[1]), num_children: 1 },
            TreeEntry { rating: 33, indizes: indizes(&[3]), num_children: 1 },
            TreeEntry { rating: -11, indizes: indizes(&[2]), num_children: 2 },
            TreeEntry { rating: 77, indizes: indizes(&[0]), num_children: 2 }
        ]
    );
    assert_eq!(
        sts.level(2),
        &vec![
            TreeEntry::new((0, indizes(&[1]))),
            TreeEntry::new((333, indizes(&[3]))),
            TreeEntry::new((-111, indizes(&[2]))),
            TreeEntry::new((0, indizes(&[0]))),
            TreeEntry::new((123, indizes(&[]))),
            TreeEntry::new((-123, indizes(&[]))),
        ]
    );

    sts.prune(|_, elements: &Vec<TreeEntry>| {
        let mut retained = Vec::new();
        for (i, entry) in elements.iter().enumerate() {
            if entry.rating > 0 {
                retained.push(i);
            }
        }
        retained
    });
    assert_eq!(
        sts.level(1),
        &vec![
            TreeEntry { rating: 33, indizes: indizes(&[3]), num_children: 1 },
            TreeEntry { rating: 77, indizes: indizes(&[0]), num_children: 1 }
        ]
    );
    assert_eq!(sts.level(2), &vec![TreeEntry::new((333, indizes(&[3]))), TreeEntry::new((123, indizes(&[])))]);
}

/// Adds three children with ratings from the state of the game.
struct AddChildren;

impl LeafVisitor<ZeroOneGame> for AddChildren {
    fn visit_leaf<'a>(
        &self,
        tree_state: &mut SearchTreeState,
        stepper: &mut EngineStepper<'a, ZeroOneGame>,
        t_index: TreeIndex,
    ) -> Result<(), MinMaxError> {
        assert_eq!(stepper.decision_context().len(), 1);
        let rating = stepper.data().num_ones as RatingType - stepper.data().num_zeros as RatingType;
        tree_state.push_child(t_index, rating, indizes(&[0, 1]), vec![(rating + 1, indizes(&[1]))]);
        tree_state.push_child(t_index, rating, indizes(&[1, 0]), vec![(rating + 1, indizes(&[1]))]);
        tree_state.push_child(
            t_index,
            rating + 2,
            indizes(&[1, 1]),
            vec![(rating + 1, indizes(&[0])), (rating + 3, indizes(&[1]))],
        );
        Ok(())
    }
}

/// Checks the ratings of the leaves against the state of the game.
struct CheckRatings;

impl LeafVisitor<ZeroOneGame> for CheckRatings {
    fn visit_leaf<'a>(
        &self,
        tree_state: &mut SearchTreeState,
        stepper: &mut EngineStepper<'a, ZeroOneGame>,
        t_index: TreeIndex,
    ) -> Result<(), MinMaxError> {
        assert_eq!(stepper.decision_context().len(), 3);
        let expected_rating = stepper.data().num_ones as RatingType - stepper.data().num_zeros as RatingType;
        let tree_rating = tree_state.level(t_index.0)[t_index.1].rating;
        assert_eq!(expected_rating, tree_rating);
        Ok(())
    }
}

#[test]
fn iteration_test() {
    let mut sts = SearchTreeState::new();
    sts.new_levels();
    sts.push_child(TreeIndex(0, 0), -1, indizes(&[0]), Vec::new());
    sts.push_child(TreeIndex(0, 0), 1, indizes(&[1]), Vec::new());
    sts.extend();

    let data = ZeroOneGame::new(false, 4);
    let mut engine = Engine::new_logging(2, data);
    let mut stepper = EngineStepper::new(&mut engine);

    sts.new_levels();
    sts.for_each_leaf(&mut stepper, &AddChildren).unwrap();
    sts.extend();
    assert_eq!(sts.level(sts.depth()).len(), 8);

    sts.new_levels();
    sts.for_each_leaf(&mut stepper, &CheckRatings).unwrap();
    sts.extend();

    sts.update_ratings();
    assert_eq!(
        sts.level(1),
        &vec![
            TreeEntry { rating: 0, indizes: indizes(&[0]), num_children: 3 },
            TreeEntry { rating: 2, indizes: indizes(&[1]), num_children: 3 }
        ]
    );
}

#[test]
fn translate_out_of_range_test() {
    let data = ZeroOneGame::new(false, 1);
    let mut engine = Engine::new_logging(2, data);
    assert_eq!(translate(&mut engine, type_mapping, 2), Err(MinMaxError::InvalidGame));

    let data = ZeroOneGame::new(true, 2);
    let mut engine = Engine::new_logging(2, data);
    assert_eq!(translate(&mut engine, type_mapping, 4), Err(MinMaxError::InvalidGame));
}

#[test]
fn cut_with_equivalency_above_all_test() {
    let data = ZeroOneGame::new(true, 1);
    let mut engine = Engine::new_logging(2, data);
    let (mut rater, _) = Rater::new(&mut engine, type_mapping).unwrap();
    rater.rate(0, 0, 0);
    rater.rate(0, 1, 1);
    rater.set_equivalent_to(1, 0, 0, 1);
    rater.rate(1, 1, 4);
    let result = rater.cut_and_sort_with_equivalency(5);
    assert!(result.is_empty());

    let (mut rater, _) = Rater::new(&mut engine, type_mapping).unwrap();
    rater.rate(0, 0, 0);
    rater.rate(0, 1, 1);
    rater.set_equivalent_to(1, 0, 0, 1);
    rater.rate(1, 1, 4);
    let result = rater.cut_and_sort_with_equivalency(0);
    assert_eq!(result.len(), 3);
    assert_eq!(result[0], (4, vec![1, 1], Vec::new()));
}

#[test]
fn equivalent_moves_join_their_class() {
    let data = ZeroOneGame::new(true, 1);
    let mut engine = Engine::new_logging(2, data);
    let (mut rater, _) = Rater::new(&mut engine, type_mapping).unwrap();
    rater.rate(0, 0, 5);
    rater.rate(0, 1, 3);
    rater.set_equivalent_to(1, 0, 0, 0);
    rater.set_equivalent_to(1, 1, 0, 1);
    let result = rater.cut_and_sort_with_equivalency(0);
    assert_eq!(result, vec![(5, vec![0, 0], vec![vec![1, 0]]), (3, vec![0, 1], vec![vec![1, 1]])]);
}

#[test]
fn rated_moves_lists_every_value() {
    let data = ZeroOneGame::new(true, 1);
    let mut engine = Engine::new_logging(2, data);
    let (mut rater, _) = Rater::new(&mut engine, type_mapping).unwrap();
    rater.rate(0, 0, 2);
    rater.rate(0, 1, -1);
    rater.rate(1, 0, 7);
    rater.set_equivalent_to(1, 1, 0, 0);
    let result = rater.rated_moves().unwrap();
    assert_eq!(result, vec![(7, vec![1, 0]), (2, vec![0, 0]), (-1, vec![0, 1])]);

    let (mut rater, _) = Rater::new(&mut engine, type_mapping).unwrap();
    rater.rate(0, 0, 2);
    assert_eq!(rater.rated_moves(), Err(MinMaxError::InvalidGame));
}
