//! A step engine that fetches the next decision as soon as the queued
//! effects are applied.

use vstd::prelude::*;
use crate::step::{Decision, Effect, GameData, StepError};

verus! {

/// An entity that makes decisions: given the number of options, it picks one
/// or none yet.
pub trait Player: Sized {
    /// Asked to pick one of `num_possibilities` options, the player can
    /// answer `answer` and become `after`; every implementation says how.
    closed spec fn spec_answers(&self, num_possibilities: usize, after: Self, answer: Option<usize>) -> bool {
        true
    }

    fn handle_decision(&mut self, num_possibilities: usize) -> (r: Option<usize>)
        ensures
            old(self).spec_answers(num_possibilities, *final(self), r),
    ;
}

/// The kind of state of an engine.
#[derive(Debug, Clone, Copy, PartialEq, Eq, Structural)]
pub enum GameState {
    PendingEffect,
    PendingDecision,
    Finished,
}

/// A step-driven engine.
pub trait GameEngine {
    /// A step can be made with `num_players` players: the engine has that
    /// many players and the game is not finished; every implementation says
    /// which.
    spec fn spec_can_step(&self, num_players: int) -> bool;

    /// Applies the next effect, or asks the player of the pending decision.
    fn next_step<P: Player>(&mut self, players: &mut Vec<P>) -> Result<(), StepError>
        requires
            old(self).spec_can_step(old(players)@.len() as int),
    ;

    fn state(&self) -> GameState;
}

/// The state of the engine.
pub enum InternalState<T: GameData> {
    PendingEffect,
    PendingDecision(T::DecisionType),
    Finished,
}

/// The engine: the pending decision is fetched from the data as soon as no
/// effect waits.
pub struct Engine<T: GameData> {
    num_players: usize,
    state: InternalState<T>,
    effects: Vec<T::EffectType>,
    data: T,
}

impl<T: GameData> Engine<T> {
    pub closed spec fn spec_num_players(&self) -> usize {
        self.num_players
    }

    pub closed spec fn spec_state(&self) -> GameState {
        match self.state {
            InternalState::PendingEffect => GameState::PendingEffect,
            InternalState::PendingDecision(_) => GameState::PendingDecision,
            InternalState::Finished => GameState::Finished,
        }
    }

    pub closed spec fn spec_data(&self) -> T {
        self.data
    }

    /// The effects that wait to be applied, first to last.
    pub closed spec fn spec_effects(&self) -> Seq<T::EffectType> {
        self.effects@
    }

    /// The pending decision, if any.
    pub closed spec fn spec_decision(&self) -> Option<T::DecisionType> {
        match self.state {
            InternalState::PendingDecision(d) => Some(d),
            _ => None,
        }
    }

    /// Effects wait exactly when the engine is about to apply one.
    pub open spec fn wf(&self) -> bool {
        (self.spec_state() == GameState::PendingEffect) == (self.spec_effects().len() > 0)
    }

    /// An engine whose first decision is fetched from the data.
    pub fn new(num_players: usize, data: T) -> (r: Self)
        ensures
            r.wf(),
            r.spec_num_players() == num_players,
            r.spec_state() != GameState::PendingEffect,
            r.spec_effects().len() == 0,
            r.spec_decision() == data.spec_next_decision(),
    {
        let mut data = data;
        let state = Self::fetch_decision(&mut data);
        Self { num_players, state, effects: Vec::new(), data }
    }

    pub fn data(&self) -> (r: &T)
        ensures
            *r == self.spec_data(),
    {
        &self.data
    }

    /// The next decision of the data, or the end of the game.
    fn fetch_decision(data: &mut T) -> (r: InternalState<T>)
        ensures
            !(r is PendingEffect),
            old(data).spec_fetches(*final(data)),
            match old(data).spec_next_decision() {
                None => r is Finished,
                Some(d) => r == InternalState::<T>::PendingDecision(d),
            },
    {
        match data.next_decision() {
            Some(dec) => InternalState::PendingDecision(dec),
            None => InternalState::Finished,
        }
    }
}

/// What a step of a well-formed engine with the right number of players
/// does, with the players going from `pb` to `pa`: a finished game stays as
/// it is and the step fails; a pending effect is applied to the data and
/// leaves the queue, and the next decision is fetched from the data when the
/// queue is empty; a pending decision goes to its player (see
/// `decision_answered`).
pub open spec fn step_outcome<T: GameData, P: Player>(
    before: Engine<T>,
    after: Engine<T>,
    r: Result<(), StepError>,
    pb: Seq<P>,
    pa: Seq<P>,
) -> bool {
    match before.spec_state() {
        GameState::Finished => r == Err::<(), StepError>(StepError::GameFinished) && after == before && pa == pb,
        GameState::PendingEffect => {
            &&& r is Ok
            &&& pa == pb
            &&& after.spec_effects() == before.spec_effects().drop_first()
            &&& (after.spec_effects().len() == 0) == (after.spec_state() != GameState::PendingEffect)
            &&& if after.spec_effects().len() == 0 {
                exists|mid: T| #[trigger] before.spec_effects()[0].spec_applied(before.spec_data(), mid)
                    && mid.spec_fetches(after.spec_data()) && after.spec_decision() == mid.spec_next_decision()
            } else {
                before.spec_effects()[0].spec_applied(before.spec_data(), after.spec_data())
            }
        },
        GameState::PendingDecision => decision_answered(before, after, r, pb, pa),
    }
}

/// What asking the player of the pending decision does: a decision of a
/// player that does not exist stays pending and the step fails; otherwise
/// that player alone is asked once, with the number of options.  No answer
/// keeps the engine as it is, an option that does not exist keeps it and
/// fails, and an existing option queues its effect.
pub open spec fn decision_answered<T: GameData, P: Player>(
    before: Engine<T>,
    after: Engine<T>,
    r: Result<(), StepError>,
    pb: Seq<P>,
    pa: Seq<P>,
) -> bool {
    let d = before.spec_decision()->Some_0;
    if d.spec_player() >= pb.len() {
        r == Err::<(), StepError>(StepError::InvalidPlayer) && after == before && pa == pb
    } else {
        let p = d.spec_player() as int;
        &&& pa.len() == pb.len()
        &&& pa == pb.update(p, pa[p])
        &&& exists|a: Option<usize>| #[trigger] pb[p].spec_answers(d.spec_option_count() as usize, pa[p], a) && match a {
            None => r is Ok && after == before,
            Some(i) => if i < d.spec_option_count() {
                &&& r is Ok
                &&& after.spec_state() == GameState::PendingEffect
                &&& after.spec_effects().len() == 1
                &&& d.spec_selects(i, after.spec_effects()[0])
                &&& after.spec_data() == before.spec_data()
            } else {
                r == Err::<(), StepError>(StepError::IllegalIndex) && after == before
            },
        }
    }
}

impl<T: GameData> GameEngine for Engine<T> {
    open spec fn spec_can_step(&self, num_players: int) -> bool {
        self.spec_num_players() == num_players && self.spec_state() != GameState::Finished
    }

    fn next_step<P: Player>(&mut self, players: &mut Vec<P>) -> (r: Result<(), StepError>)
        ensures
            old(self).wf() ==> final(self).wf(),
            final(self).spec_num_players() == old(self).spec_num_players(),
            old(self).wf() ==> step_outcome(
                *old(self),
                *final(self),
                r,
                old(players)@,
                final(players)@,
            ),
            old(self).wf() ==> (old(self).spec_decision() matches Some(d)
                ==> ((r == Err::<(), StepError>(StepError::InvalidPlayer)) == (d.spec_player() >= old(players)@.len()))),
    {
        if players.len() != self.num_players {
            return Err(StepError::PlayerCountMismatch);
        }
        let mut current = InternalState::Finished;
        std::mem::swap(&mut current, &mut self.state);
        match current {
            InternalState::PendingEffect => {
                if self.effects.len() == 0 {
                    self.state = InternalState::PendingEffect;
                    return Ok(());
                }
                let effect = self.effects.remove(0);
                effect.apply(&mut self.data);
                if self.effects.len() == 0 {
                    let ghost mid = self.data;
                    self.state = Self::fetch_decision(&mut self.data);
                    assert(effect.spec_applied(old(self).spec_data(), mid));
                } else {
                    self.state = InternalState::PendingEffect;
                }
                Ok(())
            },
            InternalState::PendingDecision(decision) => {
                let player = decision.player();
                if player >= players.len() {
                    self.state = InternalState::PendingDecision(decision);
                    return Err(StepError::InvalidPlayer);
                }
                let count = decision.option_count();
                let ghost pb = players@;
                let answer = players[player].handle_decision(count);
                proof {
                    assert(players@ == pb.update(player as int, players@[player as int]));
                    assert(decision.spec_option_count() as usize == count);
                    assert(pb[player as int].spec_answers(decision.spec_option_count() as usize, players@[player as int], answer));
                }
                match answer {
                    Some(index) => {
                        if index < count && self.effects.len() == 0 {
                            let ghost d = decision;
                            let effect = decision.select_option(index);
                            self.effects.push(effect);
                            assert(self.effects@ == seq![effect]);
                            assert(d.spec_selects(index, effect));
                            self.state = InternalState::PendingEffect;
                            Ok(())
                        } else {
                            self.state = InternalState::PendingDecision(decision);
                            Err(StepError::IllegalIndex)
                        }
                    },
                    None => {
                        self.state = InternalState::PendingDecision(decision);
                        Ok(())
                    },
                }
            },
            InternalState::Finished => {
                self.state = InternalState::Finished;
                Err(StepError::GameFinished)
            },
        }
    }

    fn state(&self) -> (r: GameState)
        ensures
            r == self.spec_state(),
    {
        match self.state {
            InternalState::PendingEffect => GameState::PendingEffect,
            InternalState::PendingDecision(_) => GameState::PendingDecision,
            InternalState::Finished => GameState::Finished,
        }
    }
}

} // verus!
