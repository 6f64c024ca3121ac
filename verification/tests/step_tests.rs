use tgp::step::engine_a;
use tgp::step::engine_b;
use tgp::step::{
    build_dispatcher, Decision, Dispatcher, Effect, EffectWrapper, Engine, GameData, GameEngine, GameState, Player, Remap,
    StepError, VecDecision,
};

/// Two players in turn add one of the numbers 1 or 2 to a counter, until the
/// counter reaches 4.
#[derive(Debug, Clone, PartialEq, Eq)]
struct Counter {
    value: u32,
    turn: usize,
    limit: u32,
}

#[derive(Debug, Clone, Copy, PartialEq, Eq)]
struct AddTo(u32);

impl Effect<Counter> for AddTo {
    fn apply(&self, data: &mut Counter) {
        data.value += self.0;
        data.turn = 1 - data.turn;
    }
}

impl GameData for Counter {
    type EffectType = AddTo;
    type DecisionType = VecDecision<AddTo>;

    fn next_decision(&mut self) -> Option<VecDecision<AddTo>> {
        if self.value >= self.limit {
            return None;
        }
        let mut dec = VecDecision::new(self.turn);
        dec.add_option(AddTo(1));
        dec.add_option_from_box(Box::new(AddTo(2)));
        Some(dec)
    }
}

fn counter() -> Counter {
    Counter { value: 0, turn: 0, limit: 4 }
}

/// Always picks the same option, or none.
struct Fixed(Option<usize>);

impl Player for Fixed {
    fn next_decision(&mut self, _num_possibilities: usize) -> Option<usize> {
        self.0
    }
}

impl engine_a::Player for Fixed {
    fn handle_decision(&mut self, _num_possibilities: usize) -> Option<usize> {
        self.0
    }
}

#[test]
fn engine_steps_through_a_game() {
    let mut engine = Engine::new(2, counter());
    let mut players = vec![Fixed(Some(1)), Fixed(Some(1))];
    assert_eq!(engine.state(), GameState::PendingDecision);
    assert_eq!(engine.next_step(&mut players), Ok(()));
    assert_eq!(engine.state(), GameState::PendingEffect);
    assert_eq!(engine.next_step(&mut players), Ok(()));
    assert_eq!(engine.data().value, 2);
    assert_eq!(engine.state(), GameState::PendingDecision);
    engine.next_step(&mut players).unwrap();
    engine.next_step(&mut players).unwrap();
    assert_eq!(engine.data().value, 4);
    assert_eq!(engine.next_step(&mut players), Ok(()));
    assert_eq!(engine.state(), GameState::Finished);
}

#[test]
fn engine_reports_wrong_players() {
    let mut engine = Engine::new(2, counter());
    let mut undecided = vec![Fixed(None), Fixed(None)];
    assert_eq!(engine.next_step(&mut undecided), Ok(()));
    assert_eq!(engine.state(), GameState::PendingDecision);
    let mut illegal = vec![Fixed(Some(5)), Fixed(Some(5))];
    assert_eq!(engine.next_step(&mut illegal), Err(StepError::IllegalIndex));
    assert_eq!(engine.state(), GameState::PendingDecision);
    let mut good = vec![Fixed(Some(0)), Fixed(Some(0))];
    assert_eq!(engine.next_step(&mut good), Ok(()));
    assert_eq!(engine.state(), GameState::PendingEffect);
}

#[test]
fn vec_decision_takes_the_chosen_effect() {
    let mut dec: VecDecision<AddTo> = VecDecision::new(1);
    dec.add_option(AddTo(5));
    dec.add_option(AddTo(7));
    assert_eq!(<VecDecision<AddTo> as Decision<Counter>>::option_count(&dec), 2);
    assert_eq!(<VecDecision<AddTo> as Decision<Counter>>::player(&dec), 1);
    let effect = <VecDecision<AddTo> as Decision<Counter>>::select_option(dec, 1);
    assert_eq!(effect, AddTo(7));
}

/// A game with a counter inside.
struct Outer {
    inner: Counter,
}

#[derive(Clone, Copy)]
struct ToInner;

impl Dispatcher<Outer, Counter> for ToInner {
    fn dispatch<'a>(&self, data: &'a mut Outer) -> &'a mut Counter {
        &mut data.inner
    }
}

#[test]
fn remapped_effect_changes_the_part() {
    let dispatcher = build_dispatcher::<Outer, Counter, ToInner>(ToInner);
    let wrapped: EffectWrapper<Outer, Counter, AddTo, ToInner> = AddTo(3).remap(dispatcher);
    let mut outer = Outer { inner: counter() };
    wrapped.apply(&mut outer);
    assert_eq!(outer.inner.value, 3);
}

#[test]
fn engine_a_fetches_decisions_after_effects() {
    let mut engine = engine_a::Engine::new(2, counter());
    let mut players = vec![Fixed(Some(0)), Fixed(Some(1))];
    assert_eq!(engine_a::GameEngine::state(&engine), engine_a::GameState::PendingDecision);
    assert_eq!(engine_a::GameEngine::next_step(&mut engine, &mut players), Ok(()));
    assert_eq!(engine_a::GameEngine::state(&engine), engine_a::GameState::PendingEffect);
    assert_eq!(engine_a::GameEngine::next_step(&mut engine, &mut players), Ok(()));
    assert_eq!(engine.data().value, 1);
    assert_eq!(engine_a::GameEngine::state(&engine), engine_a::GameState::PendingDecision);
    for _ in 0..4 {
        engine_a::GameEngine::next_step(&mut engine, &mut players).unwrap();
    }
    assert_eq!(engine.data().value, 4);
    assert_eq!(engine_a::GameEngine::state(&engine), engine_a::GameState::Finished);
}

#[test]
fn engine_b_hands_out_its_state() {
    let mut engine = engine_b::Engine::new(2, counter()).unwrap();
    match engine_b::GameEngine::state(&mut engine) {
        engine_b::GameState::PendingDecision(dec) => {
            assert_eq!(dec.option_count(), 2);
            assert_eq!(dec.player(), 0);
            let effect = dec.select_option(1).unwrap();
            assert_eq!(effect.remaining_count(), 1);
            assert!(effect.next_effect().unwrap().is_none());
        }
        _ => panic!("expected a decision"),
    }
    assert_eq!(engine.data().value, 2);
    assert!(engine_b::GameEngine::select_option(&mut engine, 2).is_err());
    let effect = engine_b::GameEngine::select_option(&mut engine, 1).unwrap();
    effect.all_effects().unwrap();
    assert_eq!(engine.data().value, 4);
    assert!(matches!(engine_b::GameEngine::state(&mut engine), engine_b::GameState::Finished(_)));
}

/// A game whose decision belongs to a third player.
struct Stranger;

impl GameData for Stranger {
    type EffectType = NoEffect;
    type DecisionType = VecDecision<NoEffect>;

    fn next_decision(&mut self) -> Option<VecDecision<NoEffect>> {
        Some(VecDecision::new(2))
    }
}

struct NoEffect;

impl Effect<Stranger> for NoEffect {
    fn apply(&self, _data: &mut Stranger) {}
}

#[test]
fn engines_reject_unknown_players() {
    assert!(matches!(engine_b::Engine::new(2, Stranger), Err(StepError::InvalidPlayer)));
    let mut engine = Engine::new(2, Stranger);
    let mut players = vec![Fixed(Some(0)), Fixed(Some(0))];
    assert_eq!(engine.next_step(&mut players), Err(StepError::InvalidPlayer));
}
