//! The step engines: the game data hands out decisions whose options are
//! effects; players answer decisions, and each step either applies one
//! effect or asks one player.

use vstd::prelude::*;
use std::marker::PhantomData;

pub mod engine_a;
pub mod engine_b;

verus! {

/// An effect changes the data of the game.
pub trait Effect<M> {
    /// Applying the effect can turn `before` into `after`; every
    /// implementation says how.
    closed spec fn spec_applied(&self, before: M, after: M) -> bool {
        true
    }

    fn apply(&self, data: &mut M)
        ensures
            self.spec_applied(*old(data), *final(data)),
    ;
}

/// A dispatcher maps the data of a game to a part (module) of it.
pub trait Dispatcher<T, M>: Copy {
    /// `part` is the part of `data` that the dispatcher selects, and
    /// changing it to `new_part` changes the data to `new_data`; every
    /// implementation says how.
    closed spec fn spec_dispatches(&self, data: T, part: M, new_data: T, new_part: M) -> bool {
        true
    }

    fn dispatch<'a>(&self, data: &'a mut T) -> (r: &'a mut M)
        ensures
            self.spec_dispatches(*old(data), *r, *final(data), *final(r)),
    ;
}

/// Hands the dispatcher back: fixes the types of a dispatcher in place.
pub fn build_dispatcher<T, M, D: Dispatcher<T, M>>(f: D) -> (r: D)
    ensures
        r == f,
{
    f
}

/// Turns a value that works on a part of the data into one that works on
/// the whole data.
pub trait Remap<T, M, D: Dispatcher<T, M>, R> {
    fn remap(self, dispatcher: D) -> R;
}

/// An effect on a part of the data, applied through a dispatcher.
pub struct EffectWrapper<T, M, E: Effect<M>, D: Dispatcher<T, M>> {
    effect: E,
    dispatcher: D,
    _t: PhantomData<T>,
    _m: PhantomData<M>,
}

impl<T, M, E: Effect<M>, D: Dispatcher<T, M>> EffectWrapper<T, M, E, D> {
    pub closed spec fn spec_effect(&self) -> E {
        self.effect
    }

    pub closed spec fn spec_dispatcher(&self) -> D {
        self.dispatcher
    }
}

impl<T, M, E: Effect<M>, D: Dispatcher<T, M>> Effect<T> for EffectWrapper<T, M, E, D> {
    /// Applies the inner effect to the part that the dispatcher selects.
    closed spec fn spec_applied(&self, before: T, after: T) -> bool {
        exists|part: M, new_part: M| #[trigger] self.dispatcher.spec_dispatches(before, part, after, new_part)
            && self.effect.spec_applied(part, new_part)
    }

    fn apply(&self, data: &mut T) {
        let part = self.dispatcher.dispatch(data);
        let ghost before_part = *part;
        self.effect.apply(part);
        proof {
            assert(self.dispatcher.spec_dispatches(*old(data), before_part, *final(data), *part));
        }
    }
}

impl<T, M, E: Effect<M>, D: Dispatcher<T, M>> Remap<T, M, D, EffectWrapper<T, M, E, D>> for E {
    fn remap(self, dispatcher: D) -> (r: EffectWrapper<T, M, E, D>)
        ensures
            r.spec_effect() == self,
            r.spec_dispatcher() == dispatcher,
    {
        EffectWrapper { effect: self, dispatcher, _t: PhantomData, _m: PhantomData }
    }
}

/// An entity that makes decisions: given the number of options, it picks one
/// or none yet.
pub trait Player: Sized {
    /// Asked to pick one of `num_possibilities` options, the player can
    /// answer `answer` and become `after`; every implementation says how.
    closed spec fn spec_answers(&self, num_possibilities: usize, after: Self, answer: Option<usize>) -> bool {
        true
    }

    fn next_decision(&mut self, num_possibilities: usize) -> (r: Option<usize>)
        ensures
            old(self).spec_answers(num_possibilities, *final(self), r),
    ;
}

/// The kind of state of an engine.
#[derive(Debug, Clone, Copy, PartialEq, Eq, Structural)]
pub enum GameState {
    PendingEffect,
    PendingDecision,
    Finished,
}

/// Why a step could not be made.
#[derive(Debug, Clone, Copy, PartialEq, Eq, Structural)]
pub enum StepError {
    /// The number of players differs from the engine's.
    PlayerCountMismatch,
    /// The game is finished.
    GameFinished,
    /// The decision belongs to a player that does not exist.
    InvalidPlayer,
    /// The player chose an option that does not exist.
    IllegalIndex,
}

/// A game decision: a player chooses one of its options, which is an effect.
pub trait Decision<T>: Sized {
    type Effect: Effect<T>;

    /// The number of options; every implementation gives it.
    closed spec fn spec_option_count(&self) -> nat {
        0
    }

    /// The player who decides; every implementation gives it.
    closed spec fn spec_player(&self) -> nat {
        0
    }

    /// `effect` is the effect of option `index`; every implementation says
    /// which.
    closed spec fn spec_selects(&self, index: usize, effect: Self::Effect) -> bool {
        true
    }

    fn select_option(self, index: usize) -> (r: Self::Effect)
        requires
            index < self.spec_option_count(),
        ensures
            self.spec_selects(index, r),
    ;

    fn option_count(&self) -> (r: usize)
        ensures
            r == self.spec_option_count(),
    ;

    fn player(&self) -> (r: usize)
        ensures
            r == self.spec_player(),
    ;
}

/// Interface between the data and the engine.
pub trait GameData: Sized {
    type EffectType: Effect<Self>;
    type DecisionType: Decision<Self, Effect = Self::EffectType>;

    /// The decision that the data gives next, or none when the game is
    /// over; every implementation gives it.
    closed spec fn spec_next_decision(&self) -> Option<Self::DecisionType> {
        None
    }

    /// Handing out the next decision can change the data to `after`; every
    /// implementation says how.
    closed spec fn spec_fetches(&self, after: Self) -> bool {
        true
    }

    fn next_decision(&mut self) -> (r: Option<Self::DecisionType>)
        ensures
            r == old(self).spec_next_decision(),
            old(self).spec_fetches(*final(self)),
    ;
}

/// The state of the engine: what the next step does.
pub enum InternalState<T: GameData> {
    FetchEffect,
    FetchDecision,
    CachedDecision(T::DecisionType),
    Finished,
}

/// The engine: it applies the queued effects one per step, and otherwise
/// fetches a decision and asks its player.
pub struct Engine<T: GameData> {
    num_players: usize,
    state: InternalState<T>,
    effects: Vec<T::EffectType>,
    data: T,
}

impl<T: GameData> Engine<T> {
    pub closed spec fn spec_num_players(&self) -> usize {
        self.num_players
    }

    pub closed spec fn spec_state(&self) -> GameState {
        match self.state {
            InternalState::FetchEffect => GameState::PendingEffect,
            InternalState::FetchDecision => GameState::PendingDecision,
            InternalState::CachedDecision(_) => GameState::PendingDecision,
            InternalState::Finished => GameState::Finished,
        }
    }

    /// The effects that wait to be applied, first to last.
    pub closed spec fn spec_effects(&self) -> Seq<T::EffectType> {
        self.effects@
    }

    /// The decision that a player declined to answer, if any.
    pub closed spec fn spec_cached(&self) -> Option<T::DecisionType> {
        match self.state {
            InternalState::CachedDecision(d) => Some(d),
            _ => None,
        }
    }

    pub closed spec fn spec_data(&self) -> T {
        self.data
    }

    /// What the next step does.
    pub closed spec fn spec_internal(&self) -> InternalState<T> {
        self.state
    }

    /// The decision that the next step forwards to its player: the one that
    /// a player declined to answer, or else the one that the data gives.
    pub open spec fn spec_pending_decision(&self) -> Option<T::DecisionType> {
        match self.spec_cached() {
            Some(d) => Some(d),
            None => self.spec_data().spec_next_decision(),
        }
    }

    /// Effects wait exactly when the engine is about to apply one.
    pub open spec fn wf(&self) -> bool {
        (self.spec_state() == GameState::PendingEffect) == (self.spec_effects().len() > 0)
    }

    pub fn new(num_players: usize, data: T) -> (r: Self)
        ensures
            r.wf(),
            r.spec_num_players() == num_players,
            r.spec_state() == GameState::PendingDecision,
            r.spec_cached() is None,
            r.spec_effects().len() == 0,
            r.spec_data() == data,
    {
        Self { num_players, state: InternalState::FetchDecision, effects: Vec::new(), data }
    }

    pub fn data(&self) -> (r: &T)
        ensures
            *r == self.spec_data(),
    {
        &self.data
    }

    /// Asks the decision's player; an answer queues the chosen option's
    /// effect, no answer keeps the decision for the next step.
    fn forward_decision_to_player<P: Player>(&mut self, players: &mut Vec<P>, decision: T::DecisionType) -> (r: (
        InternalState<T>,
        Result<(), StepError>,
    ))
        requires
            old(self).spec_effects().len() == 0,
        ensures
            final(self).spec_num_players() == old(self).spec_num_players(),
            final(self).spec_data() == old(self).spec_data(),
            final(players)@.len() == old(players)@.len(),
            (r.0 is FetchEffect && r.1 is Ok && final(self).spec_effects().len() == 1) || (r.0
                == InternalState::<T>::CachedDecision(decision) && final(self).spec_effects().len() == 0),
            (r.1 == Err::<(), StepError>(StepError::InvalidPlayer)) == (decision.spec_player() >= old(players)@.len()),
            r.1 is Err ==> r.1 == Err::<(), StepError>(StepError::InvalidPlayer) || r.1 == Err::<(), StepError>(
                StepError::IllegalIndex,
            ),
            answered(decision, old(players)@, final(players)@, r.0, final(self).spec_effects(), r.1),
    {
        let player = decision.player();
        if player >= players.len() {
            return (InternalState::CachedDecision(decision), Err(StepError::InvalidPlayer));
        }
        let count = decision.option_count();
        let ghost pb = players@;
        let answer = players[player].next_decision(count);
        proof {
            assert(players@ == pb.update(player as int, players@[player as int]));
            assert(decision.spec_option_count() as usize == count);
            assert(pb[player as int].spec_answers(decision.spec_option_count() as usize, players@[player as int], answer));
        }
        match answer {
            Some(index) => {
                if index < count {
                    let ghost d = decision;
                    let effect = decision.select_option(index);
                    self.effects.push(effect);
                    assert(self.effects@ == seq![effect]);
                    assert(d.spec_selects(index, effect));
                    (InternalState::FetchEffect, Ok(()))
                } else {
                    (InternalState::CachedDecision(decision), Err(StepError::IllegalIndex))
                }
            },
            None => (InternalState::CachedDecision(decision), Ok(())),
        }
    }
}

/// What asking the player of decision `d` does, from the players `pb` to
/// `pa`: a decision of a player that does not exist stays pending and the
/// step fails; otherwise that player alone is asked once, with the number of
/// options.  No answer keeps the decision pending, an option that does not
/// exist keeps it pending and fails, and an existing option queues its
/// effect.
pub open spec fn answered<T: GameData, P: Player>(
    d: T::DecisionType,
    pb: Seq<P>,
    pa: Seq<P>,
    state: InternalState<T>,
    effects: Seq<T::EffectType>,
    r: Result<(), StepError>,
) -> bool {
    let kept = state == InternalState::<T>::CachedDecision(d) && effects.len() == 0;
    if d.spec_player() >= pb.len() {
        r == Err::<(), StepError>(StepError::InvalidPlayer) && kept && pa == pb
    } else {
        let p = d.spec_player() as int;
        &&& pa.len() == pb.len()
        &&& pa == pb.update(p, pa[p])
        &&& exists|a: Option<usize>| #[trigger] pb[p].spec_answers(d.spec_option_count() as usize, pa[p], a) && match a {
            None => r is Ok && kept,
            Some(i) => if i < d.spec_option_count() {
                r is Ok && state is FetchEffect && effects.len() == 1 && d.spec_selects(i, effects[0])
            } else {
                r == Err::<(), StepError>(StepError::IllegalIndex) && kept
            },
        }
    }
}

/// What a step of a well-formed engine with the right number of players
/// does, with the players going from `pb` to `pa`: a finished game stays as
/// it is and the step fails; a pending effect is applied to the data and
/// leaves the queue; otherwise the pending decision (the one kept from the
/// last step, or else the one that the data hands out) goes to its player,
/// or the game finishes when there is none.
pub open spec fn step_outcome<T: GameData, P: Player>(
    before: Engine<T>,
    after: Engine<T>,
    r: Result<(), StepError>,
    pb: Seq<P>,
    pa: Seq<P>,
) -> bool {
    match before.spec_state() {
        GameState::Finished => r == Err::<(), StepError>(StepError::GameFinished) && after == before && pa == pb,
        GameState::PendingEffect => {
            &&& r is Ok
            &&& pa == pb
            &&& before.spec_effects()[0].spec_applied(before.spec_data(), after.spec_data())
            &&& after.spec_effects() == before.spec_effects().drop_first()
            &&& after.spec_state() == (if after.spec_effects().len() == 0 {
                GameState::PendingDecision
            } else {
                GameState::PendingEffect
            })
            &&& after.spec_cached() is None
        },
        GameState::PendingDecision => {
            &&& (if before.spec_cached() is Some {
                after.spec_data() == before.spec_data()
            } else {
                before.spec_data().spec_fetches(after.spec_data())
            })
            &&& match before.spec_pending_decision() {
                None => after.spec_state() == GameState::Finished && r is Ok && after.spec_effects().len() == 0 && pa == pb,
                Some(d) => answered(d, pb, pa, after.spec_internal(), after.spec_effects(), r),
            }
        },
    }
}

/// A step-driven engine.
pub trait GameEngine {
    /// A step can be made with `num_players` players: the engine has that
    /// many players and the game is not finished; every implementation says
    /// which.
    spec fn spec_can_step(&self, num_players: int) -> bool;

    /// Applies the next effect, or asks the player of the pending decision.
    fn next_step<P: Player>(&mut self, players: &mut Vec<P>) -> Result<(), StepError>
        requires
            old(self).spec_can_step(old(players)@.len() as int),
    ;

    fn state(&self) -> GameState;
}

impl<T: GameData> GameEngine for Engine<T> {
    open spec fn spec_can_step(&self, num_players: int) -> bool {
        self.spec_num_players() == num_players && self.spec_state() != GameState::Finished
    }

    fn next_step<P: Player>(&mut self, players: &mut Vec<P>) -> (r: Result<(), StepError>)
        ensures
            old(self).wf() ==> final(self).wf(),
            final(self).spec_num_players() == old(self).spec_num_players(),
            old(self).wf() ==> step_outcome(
                *old(self),
                *final(self),
                r,
                old(players)@,
                final(players)@,
            ),
            old(self).wf() && old(self).spec_state() == GameState::PendingDecision ==> (old(self).spec_pending_decision() matches Some(d) ==> ((r
                == Err::<(), StepError>(StepError::InvalidPlayer)) == (d.spec_player() >= old(players)@.len()))),
    {
        if players.len() != self.num_players {
            return Err(StepError::PlayerCountMismatch);
        }
        let mut current = InternalState::Finished;
        std::mem::swap(&mut current, &mut self.state);
        match current {
            InternalState::FetchEffect => {
                if self.effects.len() == 0 {
                    self.state = InternalState::FetchDecision;
                    return Ok(());
                }
                let effect = self.effects.remove(0);
                effect.apply(&mut self.data);
                if self.effects.len() == 0 {
                    self.state = InternalState::FetchDecision;
                } else {
                    self.state = InternalState::FetchEffect;
                }
                Ok(())
            },
            InternalState::FetchDecision => {
                if self.effects.len() > 0 {
                    self.state = InternalState::FetchDecision;
                    return Ok(());
                }
                match self.data.next_decision() {
                    Some(decision) => {
                        let (state, r) = self.forward_decision_to_player(players, decision);
                        self.state = state;
                        r
                    },
                    None => {
                        self.state = InternalState::Finished;
                        Ok(())
                    },
                }
            },
            InternalState::CachedDecision(decision) => {
                if self.effects.len() > 0 {
                    self.state = InternalState::CachedDecision(decision);
                    return Ok(());
                }
                let (state, r) = self.forward_decision_to_player(players, decision);
                self.state = state;
                r
            },
            InternalState::Finished => {
                self.state = InternalState::Finished;
                Err(StepError::GameFinished)
            },
        }
    }

    fn state(&self) -> (r: GameState)
        ensures
            r == self.spec_state(),
    {
        match self.state {
            InternalState::FetchEffect => GameState::PendingEffect,
            InternalState::FetchDecision => GameState::PendingDecision,
            InternalState::CachedDecision(_) => GameState::PendingDecision,
            InternalState::Finished => GameState::Finished,
        }
    }
}

/// A decision whose options are effects of one type.
pub struct VecDecision<E> {
    options: Vec<E>,
    player: usize,
}

impl<E> VecDecision<E> {
    pub closed spec fn spec_options(&self) -> Seq<E> {
        self.options@
    }

    pub closed spec fn spec_decider(&self) -> usize {
        self.player
    }

    /// A decision of the player without options.
    pub fn new(player: usize) -> (r: Self)
        ensures
            r.spec_options().len() == 0,
            r.spec_decider() == player,
    {
        Self { options: Vec::new(), player }
    }

    /// Adds an option.
    pub fn add_option(&mut self, effect: E)
        ensures
            final(self).spec_options() == old(self).spec_options().push(effect),
            final(self).spec_decider() == old(self).spec_decider(),
    {
        self.options.push(effect);
    }

    /// Adds a boxed option.
    pub fn add_option_from_box(&mut self, effect: Box<E>)
        ensures
            final(self).spec_options() == old(self).spec_options().push(*effect),
            final(self).spec_decider() == old(self).spec_decider(),
    {
        self.options.push(*effect);
    }
}

impl<T, E: Effect<T>> Decision<T> for VecDecision<E> {
    type Effect = E;

    closed spec fn spec_option_count(&self) -> nat {
        self.options@.len()
    }

    closed spec fn spec_player(&self) -> nat {
        self.player as nat
    }

    /// The option itself.
    closed spec fn spec_selects(&self, index: usize, effect: E) -> bool {
        effect == self.options@[index as int]
    }

    /// Takes the chosen option out of the decision.
    fn select_option(self, index: usize) -> (r: E)
        ensures
            r == self.spec_options()[index as int],
    {
        let mut options = self.options;
        options.swap_remove(index)
    }

    fn option_count(&self) -> (r: usize) {
        self.options.len()
    }

    fn player(&self) -> (r: usize) {
        self.player
    }
}

} // verus!
