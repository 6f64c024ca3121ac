//! A step engine that hands out its state: a pending effect, a pending
//! decision or the finished game, each with the operations it allows.

use vstd::prelude::*;
use crate::step::{Decision, Effect, GameData, StepError};

verus! {

/// The state of the engine.
pub enum InternalState<T: GameData> {
    PEffect(Vec<T::EffectType>),
    PDecision(T::DecisionType),
    Finished,
}

/// The engine: effects are applied one at a time; the next decision is
/// fetched when none is left.
pub struct Engine<T: GameData> {
    num_players: usize,
    state: InternalState<T>,
    data: T,
}

/// The kind of state of an engine.
#[derive(Debug, Clone, Copy, PartialEq, Eq, Structural)]
pub enum StateKind {
    PendingEffect,
    PendingDecision,
    Finished,
}

impl<T: GameData> Engine<T> {
    pub closed spec fn spec_num_players(&self) -> usize {
        self.num_players
    }

    pub closed spec fn spec_kind(&self) -> StateKind {
        match self.state {
            InternalState::PEffect(_) => StateKind::PendingEffect,
            InternalState::PDecision(_) => StateKind::PendingDecision,
            InternalState::Finished => StateKind::Finished,
        }
    }

    /// The effects that wait to be applied, first to last.
    pub closed spec fn spec_effects(&self) -> Seq<T::EffectType> {
        match self.state {
            InternalState::PEffect(e) => e@,
            _ => Seq::empty(),
        }
    }

    /// The pending decision, if any.
    pub closed spec fn spec_decision(&self) -> Option<T::DecisionType> {
        match self.state {
            InternalState::PDecision(d) => Some(d),
            _ => None,
        }
    }

    pub closed spec fn spec_data(&self) -> T {
        self.data
    }

    /// Effects wait exactly when the engine is about to apply one, and the
    /// pending decision belongs to a player of the game.
    pub open spec fn wf(&self) -> bool {
        &&& (self.spec_kind() == StateKind::PendingEffect) == (self.spec_effects().len() > 0)
        &&& self.spec_decision() matches Some(d) ==> d.spec_player() < self.spec_num_players()
    }

    /// An engine whose first decision is fetched from the data; fails if it
    /// belongs to a player that does not exist.
    pub fn new(num_players: usize, data: T) -> (r: Result<Self, StepError>)
        ensures
            r matches Ok(e) ==> e.wf() && e.spec_num_players() == num_players && e.spec_kind() != StateKind::PendingEffect,
            r is Err ==> r == Err::<Self, StepError>(StepError::InvalidPlayer),
            r is Err <==> (data.spec_next_decision() matches Some(d) && d.spec_player() >= num_players),
            r matches Ok(e) ==> e.spec_decision() == data.spec_next_decision(),
    {
        let mut data = data;
        match Self::fetch_decision(num_players, &mut data) {
            Ok(state) => Ok(Self { num_players, state, data }),
            Err(e) => Err(e),
        }
    }

    pub fn data(&self) -> (r: &T)
        ensures
            *r == self.spec_data(),
    {
        &self.data
    }

    /// The next decision of the data, or the end of the game; fails if the
    /// decision belongs to a player that does not exist.
    fn fetch_decision(num_players: usize, data: &mut T) -> (r: Result<InternalState<T>, StepError>)
        ensures
            r matches Ok(s) ==> !(s is PEffect) && (s matches InternalState::PDecision(d) ==> d.spec_player() < num_players),
            r is Err ==> r == Err::<InternalState<T>, StepError>(StepError::InvalidPlayer),
            match old(data).spec_next_decision() {
                None => r matches Ok(s) && s is Finished,
                Some(d) => if d.spec_player() < num_players {
                    r matches Ok(s) && s == InternalState::<T>::PDecision(d)
                } else {
                    r is Err
                },
            },
    {
        match data.next_decision() {
            Some(dec) => {
                if dec.player() < num_players {
                    Ok(InternalState::PDecision(dec))
                } else {
                    Err(StepError::InvalidPlayer)
                }
            },
            None => Ok(InternalState::Finished),
        }
    }

    /// Applies the first waiting effect; fetches the next decision when none
    /// is left.  Returns whether effects are left.
    fn next_effect(&mut self) -> (r: Result<bool, StepError>)
        requires
            old(self).wf(),
            old(self).spec_kind() == StateKind::PendingEffect,
        ensures
            r is Ok ==> final(self).wf(),
            final(self).spec_num_players() == old(self).spec_num_players(),
            r matches Ok(more) ==> more == (final(self).spec_kind() == StateKind::PendingEffect),
            r matches Ok(more) ==> more ==> final(self).spec_effects() == old(self).spec_effects().drop_first(),
            r is Err ==> old(self).spec_effects().len() == 1 && final(self).spec_kind() == StateKind::Finished,
            r is Err ==> r == Err::<bool, StepError>(StepError::InvalidPlayer),
            old(self).spec_effects().len() > 1 <==> r == Ok::<bool, StepError>(true),
            r == Ok::<bool, StepError>(true) ==> old(self).spec_effects()[0].spec_applied(old(self).spec_data(), final(self).spec_data()),
    {
        let mut current = InternalState::Finished;
        std::mem::swap(&mut current, &mut self.state);
        match current {
            InternalState::PEffect(mut effects) => {
                let effect = effects.remove(0);
                effect.apply(&mut self.data);
                if effects.len() == 0 {
                    match Self::fetch_decision(self.num_players, &mut self.data) {
                        Ok(state) => {
                            self.state = state;
                            Ok(false)
                        },
                        Err(e) => Err(e),
                    }
                } else {
                    self.state = InternalState::PEffect(effects);
                    Ok(true)
                }
            },
            _ => {
                assert(false);
                Ok(false)
            },
        }
    }

    /// The number of waiting effects.
    fn remaining_count(&self) -> (r: usize)
        ensures
            r == self.spec_effects().len(),
    {
        match &self.state {
            InternalState::PEffect(effects) => effects.len(),
            _ => 0,
        }
    }

    fn get_decision(&self) -> (r: &T::DecisionType)
        requires
            self.spec_decision() is Some,
        ensures
            Some(*r) == self.spec_decision(),
    {
        match &self.state {
            InternalState::PDecision(dec) => dec,
            _ => vstd::pervasive::unreached(),
        }
    }

    fn option_count(&self) -> (r: usize)
        requires
            self.spec_decision() is Some,
        ensures
            r == self.spec_decision()->Some_0.spec_option_count(),
    {
        self.get_decision().option_count()
    }

    fn player(&self) -> (r: usize)
        requires
            self.spec_decision() is Some,
        ensures
            r == self.spec_decision()->Some_0.spec_player(),
    {
        self.get_decision().player()
    }

    /// Selects an option of the pending decision: its effect waits to be
    /// applied.  Fails if there is no pending decision or no such option.
    fn select_decision_option(&mut self, index: usize) -> (r: Result<(), StepError>)
        ensures
            old(self).wf() ==> final(self).wf(),
            final(self).spec_num_players() == old(self).spec_num_players(),
            r is Ok == (old(self).spec_decision() matches Some(d) && index < d.spec_option_count()),
            r is Ok ==> final(self).spec_kind() == StateKind::PendingEffect && final(self).spec_effects().len() == 1,
            r is Ok ==> old(self).spec_decision()->Some_0.spec_selects(index, final(self).spec_effects()[0])
                && final(self).spec_data() == old(self).spec_data(),
            r is Err ==> *final(self) == *old(self) && r == Err::<(), StepError>(StepError::IllegalIndex),
    {
        let mut current = InternalState::Finished;
        std::mem::swap(&mut current, &mut self.state);
        match current {
            InternalState::PDecision(decision) => {
                if index < decision.option_count() {
                    let ghost d = decision;
                    let effect = decision.select_option(index);
                    assert(d.spec_selects(index, effect));
                    let mut effects: Vec<T::EffectType> = Vec::new();
                    effects.push(effect);
                    assert(effects@[0] == effect);
                    self.state = InternalState::PEffect(effects);
                    Ok(())
                } else {
                    self.state = InternalState::PDecision(decision);
                    Err(StepError::IllegalIndex)
                }
            },
            other => {
                self.state = other;
                Err(StepError::IllegalIndex)
            },
        }
    }
}

/// An engine with an effect that waits to be applied.
pub struct PendingEffect<'a, T: GameData> {
    engine: &'a mut Engine<T>,
}

impl<'a, T: GameData> PendingEffect<'a, T> {
    pub closed spec fn wf(&self) -> bool {
        self.engine.wf() && self.engine.spec_kind() == StateKind::PendingEffect
    }

    /// The number of waiting effects.
    pub closed spec fn spec_remaining(&self) -> nat {
        self.engine.spec_effects().len()
    }

    /// The waiting effects, first to last.
    pub closed spec fn spec_waiting(&self) -> Seq<T::EffectType> {
        self.engine.spec_effects()
    }

    /// Applies the first waiting effect; the state stays pending while
    /// effects are left.  Fails if the next decision belongs to a player that
    /// does not exist.
    pub fn next_effect(self) -> (r: Result<Option<PendingEffect<'a, T>>, StepError>)
        requires
            self.wf(),
        ensures
            r matches Ok(Some(p)) ==> p.wf() && p.spec_remaining() == self.spec_remaining() - 1,
            self.spec_remaining() > 1 <==> r matches Ok(Some(_)),
            r is Err ==> self.spec_remaining() == 1 && r == Err::<Option<PendingEffect<'a, T>>, StepError>(
                StepError::InvalidPlayer,
            ),
    {
        let engine = self.engine;
        match engine.next_effect() {
            Ok(true) => Ok(Some(PendingEffect { engine })),
            Ok(false) => Ok(None),
            Err(e) => Err(e),
        }
    }

    /// Applies all waiting effects.
    pub fn all_effects(self) -> (r: Result<(), StepError>)
        requires
            self.wf(),
        ensures
            r is Err ==> r == Err::<(), StepError>(StepError::InvalidPlayer),
    {
        let mut current = self;
        let mut steps = current.engine.remaining_count();
        loop
            invariant
                current.wf(),
                steps == current.spec_remaining(),
            decreases steps,
        {
            match current.next_effect() {
                Ok(Some(p)) => {
                    current = p;
                    steps = current.engine.remaining_count();
                },
                Ok(None) => {
                    return Ok(());
                },
                Err(e) => {
                    return Err(e);
                },
            }
        }
    }

    /// The number of waiting effects.
    pub fn remaining_count(&self) -> (r: usize)
        ensures
            r == self.spec_remaining(),
    {
        self.engine.remaining_count()
    }
}

/// An engine with a decision that waits for a selection.
pub struct PendingDecision<'a, T: GameData> {
    engine: &'a mut Engine<T>,
}

impl<'a, T: GameData> PendingDecision<'a, T> {
    pub closed spec fn wf(&self) -> bool {
        self.engine.wf() && self.engine.spec_decision() is Some
    }

    pub closed spec fn spec_option_count(&self) -> nat {
        self.engine.spec_decision()->Some_0.spec_option_count()
    }

    pub closed spec fn spec_player(&self) -> nat {
        self.engine.spec_decision()->Some_0.spec_player()
    }

    /// The decision that waits for a selection.
    pub closed spec fn spec_pending(&self) -> T::DecisionType {
        self.engine.spec_decision()->Some_0
    }

    /// Selects an option: its effect waits to be applied.  Fails if there is
    /// no such option.
    pub fn select_option(self, index: usize) -> (r: Result<PendingEffect<'a, T>, StepError>)
        requires
            self.wf(),
        ensures
            r is Ok == (index < self.spec_option_count()),
            r matches Ok(p) ==> p.wf(),
            r matches Ok(p) ==> p.spec_waiting().len() == 1 && self.spec_pending().spec_selects(index, p.spec_waiting()[0]),
            r is Err ==> r == Err::<PendingEffect<'a, T>, StepError>(StepError::IllegalIndex),
    {
        let engine = self.engine;
        match engine.select_decision_option(index) {
            Ok(()) => Ok(PendingEffect { engine }),
            Err(e) => Err(e),
        }
    }

    pub fn option_count(&self) -> (r: usize)
        requires
            self.wf(),
        ensures
            r == self.spec_option_count(),
    {
        self.engine.option_count()
    }

    pub fn player(&self) -> (r: usize)
        requires
            self.wf(),
        ensures
            r == self.spec_player(),
    {
        self.engine.player()
    }
}

/// The finished game.
pub struct Finished {}

/// The state of an engine, with the operations it allows.
pub enum GameState<'a, T: GameData> {
    PendingEffect(PendingEffect<'a, T>),
    PendingDecision(PendingDecision<'a, T>),
    Finished(Finished),
}

/// An engine that hands out its state.
pub trait GameEngine {
    type Data: GameData;

    fn state(&mut self) -> GameState<'_, Self::Data>;

    /// Selects an option of the pending decision; fails if there is no
    /// pending decision or no such option.
    fn select_option(&mut self, index: usize) -> Result<PendingEffect<'_, Self::Data>, StepError>;
}

impl<T: GameData> GameEngine for Engine<T> {
    type Data = T;

    fn state(&mut self) -> (r: GameState<'_, T>)
        ensures
            old(self).wf() ==> match r {
                GameState::PendingEffect(p) => p.wf() && old(self).spec_kind() == StateKind::PendingEffect,
                GameState::PendingDecision(p) => p.wf() && old(self).spec_kind() == StateKind::PendingDecision,
                GameState::Finished(_) => old(self).spec_kind() == StateKind::Finished,
            },
    {
        let kind = match &self.state {
            InternalState::PEffect(_) => StateKind::PendingEffect,
            InternalState::PDecision(_) => StateKind::PendingDecision,
            InternalState::Finished => StateKind::Finished,
        };
        match kind {
            StateKind::PendingEffect => GameState::PendingEffect(PendingEffect { engine: self }),
            StateKind::PendingDecision => GameState::PendingDecision(PendingDecision { engine: self }),
            StateKind::Finished => GameState::Finished(Finished {  }),
        }
    }

    fn select_option(&mut self, index: usize) -> (r: Result<PendingEffect<'_, T>, StepError>)
        ensures
            old(self).wf() ==> (r is Ok == (old(self).spec_decision() matches Some(d) && index < d.spec_option_count())),
            old(self).wf() ==> (r matches Ok(p) ==> p.wf()),
    {
        match self.select_decision_option(index) {
            Ok(()) => Ok(PendingEffect { engine: self }),
            Err(e) => Err(e),
        }
    }
}

} // verus!
