use vstd::prelude::*;
use crate::game::trait_definitions::{Decision, GameData};
use crate::game::engine::{Engine, EventListener};
use crate::game::engine::logging::EventLog;

verus! {

/// The state of an engine together with the operations that are possible
/// in it.
#[verifier::reject_recursive_types(T)]
pub enum GameState<'a, T: GameData, L: EventListener<T>> {
    PendingEffect(PendingEffect<'a, T, L>),
    PendingDecision(PendingDecision<'a, T, L>),
    Finished(Finished<'a, T, L>),
}

impl<T: GameData, L: EventListener<T>> Engine<T, L> {
    /// The current state of the engine.
    pub fn pull(&mut self) -> (r: GameState<'_, T, L>)
        requires
            old(self).wf(),
        ensures
            match r {
                GameState::PendingEffect(p) => old(self).spec_is_pending_effect() && *p.engine == *old(self)
                    && *final(p.engine) == *final(self),
                GameState::PendingDecision(p) => old(self).spec_is_pending_decision() && *p.engine == *old(self)
                    && *final(p.engine) == *final(self),
                GameState::Finished(p) => old(self).spec_is_finished() && *p.engine == *old(self)
                    && *final(p.engine) == *final(self),
            },
    {
        if self.is_pending_effect() {
            GameState::PendingEffect(PendingEffect { engine: self })
        } else if self.is_pending_decision() {
            GameState::PendingDecision(PendingDecision { engine: self })
        } else {
            GameState::Finished(Finished { engine: self })
        }
    }
}

/// An engine with a pending effect.
#[verifier::reject_recursive_types(T)]
pub struct PendingEffect<'a, T: GameData, L: EventListener<T>> {
    pub engine: &'a mut Engine<T, L>,
}

impl<'a, T: GameData, L: EventListener<T>> PendingEffect<'a, T, L> {
    /// Applies the pending effect.
    pub fn next_effect(self)
        requires
            self.engine.spec_is_pending_effect(),
        ensures
            final(self.engine).wf(),
            final(self.engine).spec_num_players() == old(self.engine).spec_num_players(),
            final(self.engine).spec_is_pending_effect() || final(self.engine).spec_is_finished() || (
            final(self.engine).spec_is_pending_decision() && final(self.engine).spec_level() == 0),
    {
        self.engine.next_effect();
    }

    /// Applies all pending effects.
    pub fn all_effects(self)
        requires
            self.engine.spec_is_pending_effect(),
        ensures
            final(self.engine).wf(),
            final(self.engine).spec_num_players() == old(self.engine).spec_num_players(),
            final(self.engine).spec_is_finished() || (final(self.engine).spec_is_pending_decision()
                && final(self.engine).spec_level() == 0),
    {
        self.engine.all_effects();
    }

    pub fn data(&self) -> (r: &T)
        ensures
            *r == old(self.engine).spec_data(),
    {
        self.engine.data()
    }
}

impl<'a, T: GameData> PendingEffect<'a, T, EventLog<T::EffectType>> {
    pub fn undo_last_decision(&mut self) -> (r: bool)
        requires
            old(self).engine.wf(),
        ensures
            final(self).engine.wf(),
            r ==> final(self).engine.spec_is_finished() || (final(self).engine.spec_is_pending_decision()
                && final(self).engine.spec_level() == 0),
            !r ==> final(self).engine.spec_state_kind() == old(self).engine.spec_state_kind(),
    {
        self.engine.undo_last_decision()
    }
}

/// An engine with a pending decision.
#[verifier::reject_recursive_types(T)]
pub struct PendingDecision<'a, T: GameData, L: EventListener<T>> {
    pub engine: &'a mut Engine<T, L>,
}

impl<'a, T: GameData, L: EventListener<T>> PendingDecision<'a, T, L> {
    /// Selects an option of the decision.
    pub fn select_option(self, index: usize)
        requires
            self.engine.spec_is_pending_decision(),
            index < self.engine.spec_option_count(),
        ensures
            final(self.engine).wf(),
            final(self.engine).spec_num_players() == old(self.engine).spec_num_players(),
            final(self.engine).spec_is_pending_effect() || (final(self.engine).spec_is_pending_decision()
                && final(self.engine).spec_level() == old(self.engine).spec_level() + 1),
    {
        self.engine.select_option(index)
    }

    pub fn option_count(&self) -> (r: usize)
        requires
            self.engine.spec_is_pending_decision(),
        ensures
            r == old(self.engine).spec_option_count(),
    {
        self.engine.option_count()
    }

    pub fn player(&self) -> (r: usize)
        requires
            self.engine.spec_is_pending_decision(),
        ensures
            r == old(self.engine).spec_player(),
    {
        self.engine.player()
    }

    pub fn context(&self) -> (r: T::Context)
        requires
            self.engine.spec_is_pending_decision(),
        ensures
            old(self.engine).spec_decision().spec_context_of(&old(self.engine).spec_data(), r),
    {
        self.engine.context()
    }

    pub fn data(&self) -> (r: &T)
        ensures
            *r == old(self.engine).spec_data(),
    {
        self.engine.data()
    }

    pub fn level_in_chain(&self) -> (r: usize)
        requires
            self.engine.spec_is_pending_decision(),
        ensures
            r == old(self.engine).spec_level(),
    {
        self.engine.level_in_chain()
    }

    pub fn is_follow_up_decision(&self) -> (r: bool)
        requires
            self.engine.spec_is_pending_decision(),
        ensures
            r == (old(self.engine).spec_level() > 0),
    {
        self.engine.level_in_chain() > 0
    }

    /// The decision as a follow-up decision, if it is one.
    pub fn into_follow_up_decision(self) -> (r: Option<FollowUpDecision<'a, T, L>>)
        requires
            self.engine.spec_is_pending_decision(),
        ensures
            old(self.engine).spec_level() > 0 ==> (r matches Some(f) && *f.engine == *old(self.engine)
                && *final(f.engine) == *final(self.engine)),
            old(self.engine).spec_level() == 0 ==> r is None && *final(self.engine) == *old(self.engine),
    {
        if self.is_follow_up_decision() {
            Some(FollowUpDecision { engine: self.engine })
        } else {
            None
        }
    }

    /// The decision as a follow-up decision, or the decision itself if it is
    /// a top-level decision.
    pub fn try_into_follow_up_decision(self) -> (r: Result<FollowUpDecision<'a, T, L>, Self>)
        requires
            self.engine.spec_is_pending_decision(),
        ensures
            old(self.engine).spec_level() > 0 ==> (r matches Ok(f) && *f.engine == *old(self.engine)
                && *final(f.engine) == *final(self.engine)),
            old(self.engine).spec_level() == 0 ==> (r matches Err(p) && *p.engine == *old(self.engine)
                && *final(p.engine) == *final(self.engine)),
    {
        if self.is_follow_up_decision() {
            Ok(FollowUpDecision { engine: self.engine })
        } else {
            Err(self)
        }
    }
}

impl<'a, T: GameData> PendingDecision<'a, T, EventLog<T::EffectType>> {
    pub fn undo_last_decision(&mut self) -> (r: bool)
        requires
            old(self).engine.wf(),
        ensures
            final(self).engine.wf(),
            r ==> final(self).engine.spec_is_finished() || (final(self).engine.spec_is_pending_decision()
                && final(self).engine.spec_level() == 0),
            !r ==> final(self).engine.spec_state_kind() == old(self).engine.spec_state_kind(),
    {
        self.engine.undo_last_decision()
    }

    /// Redoes the last undone decision.
    pub fn redo_decision(self) -> (r: bool)
        requires
            self.engine.wf(),
            self.engine.spec_is_pending_decision(),
        ensures
            final(self.engine).wf(),
            r ==> final(self.engine).spec_is_finished() || (final(self.engine).spec_is_pending_decision()
                && final(self.engine).spec_level() == 0),
    {
        self.engine.redo_decision()
    }
}

/// An engine with a pending follow-up decision.
#[verifier::reject_recursive_types(T)]
pub struct FollowUpDecision<'a, T: GameData, L: EventListener<T>> {
    pub engine: &'a mut Engine<T, L>,
}

impl<'a, T: GameData, L: EventListener<T>> FollowUpDecision<'a, T, L> {
    pub fn select_option(self, index: usize)
        requires
            self.engine.spec_is_pending_decision(),
            index < self.engine.spec_option_count(),
        ensures
            final(self.engine).wf(),
            final(self.engine).spec_is_pending_effect() || (final(self.engine).spec_is_pending_decision()
                && final(self.engine).spec_level() == old(self.engine).spec_level() + 1),
    {
        self.engine.select_option(index)
    }

    pub fn option_count(&self) -> (r: usize)
        requires
            self.engine.spec_is_pending_decision(),
        ensures
            r == old(self.engine).spec_option_count(),
    {
        self.engine.option_count()
    }

    pub fn player(&self) -> (r: usize)
        requires
            self.engine.spec_is_pending_decision(),
        ensures
            r == old(self.engine).spec_player(),
    {
        self.engine.player()
    }

    pub fn context(&self) -> (r: T::Context)
        requires
            self.engine.spec_is_pending_decision(),
        ensures
            old(self.engine).spec_decision().spec_context_of(&old(self.engine).spec_data(), r),
    {
        self.engine.context()
    }

    pub fn data(&self) -> (r: &T)
        ensures
            *r == old(self.engine).spec_data(),
    {
        self.engine.data()
    }

    pub fn level_in_chain(&self) -> (r: usize)
        requires
            self.engine.spec_is_pending_decision(),
        ensures
            r == old(self.engine).spec_level(),
    {
        self.engine.level_in_chain()
    }

    /// Retracts from the current follow-up decision.
    pub fn retract(self)
        requires
            self.engine.spec_is_pending_decision(),
            self.engine.spec_level() > 0,
        ensures
            final(self.engine).wf(),
            final(self.engine).spec_is_pending_decision(),
            final(self.engine).spec_level() == old(self.engine).spec_level() - 1,
    {
        self.engine.retract_n(1);
    }

    /// Retracts from `n` follow-up decisions and returns whether the
    /// retraction was possible.
    ///
    /// This is the case if and only if n <= #{pending decisions}.
    /// Otherwise, it has no effect.
    pub fn retract_n(self, n: usize) -> (r: bool)
        requires
            self.engine.spec_is_pending_decision(),
        ensures
            final(self.engine).wf(),
            final(self.engine).spec_is_pending_decision(),
            r == (n <= old(self.engine).spec_level()),
            r ==> final(self.engine).spec_level() == old(self.engine).spec_level() - n,
            !r ==> final(self.engine).spec_level() == old(self.engine).spec_level(),
    {
        self.engine.retract_n(n)
    }

    /// Retracts from all follow-up decisions until the root decision is
    /// reached.
    pub fn retract_all(self)
        requires
            self.engine.spec_is_pending_decision(),
        ensures
            final(self.engine).wf(),
            final(self.engine).spec_is_pending_decision(),
            final(self.engine).spec_level() == 0,
    {
        self.engine.retract_all()
    }
}

impl<'a, T: GameData> FollowUpDecision<'a, T, EventLog<T::EffectType>> {
    pub fn undo_last_decision(&mut self) -> (r: bool)
        requires
            old(self).engine.wf(),
        ensures
            final(self).engine.wf(),
            r ==> final(self).engine.spec_is_finished() || (final(self).engine.spec_is_pending_decision()
                && final(self).engine.spec_level() == 0),
            !r ==> final(self).engine.spec_state_kind() == old(self).engine.spec_state_kind(),
    {
        self.engine.undo_last_decision()
    }
}

/// A finished game.
#[verifier::reject_recursive_types(T)]
pub struct Finished<'a, T: GameData, L: EventListener<T>> {
    pub engine: &'a mut Engine<T, L>,
}

impl<'a, T: GameData, L: EventListener<T>> Finished<'a, T, L> {
    pub fn data(&self) -> (r: &T)
        ensures
            *r == old(self.engine).spec_data(),
    {
        self.engine.data()
    }
}

impl<'a, T: GameData> Finished<'a, T, EventLog<T::EffectType>> {
    pub fn undo_last_decision(&mut self) -> (r: bool)
        requires
            old(self).engine.wf(),
        ensures
            final(self).engine.wf(),
            r ==> final(self).engine.spec_is_finished() || (final(self).engine.spec_is_pending_decision()
                && final(self).engine.spec_level() == 0),
            !r ==> final(self).engine.spec_state_kind() == old(self).engine.spec_state_kind(),
    {
        self.engine.undo_last_decision()
    }
}

/// An engine that hands out its state with the operations that it allows.
pub trait GameEngine {
    type Data: GameData;
    type Listener: EventListener<Self::Data>;

    fn pull(&mut self) -> GameState<'_, Self::Data, Self::Listener>;
}

impl<T: GameData, L: EventListener<T>> GameEngine for Engine<T, L> {
    type Data = T;
    type Listener = L;

    fn pull(&mut self) -> (r: GameState<'_, T, L>)
        ensures
            old(self).wf() ==> match r {
                GameState::PendingEffect(p) => old(self).spec_is_pending_effect() && *p.engine == *old(self),
                GameState::PendingDecision(p) => old(self).spec_is_pending_decision() && *p.engine == *old(self),
                GameState::Finished(p) => old(self).spec_is_finished() && *p.engine == *old(self),
            },
    {
        if self.is_pending_effect() {
            GameState::PendingEffect(PendingEffect { engine: self })
        } else if self.is_pending_decision() {
            GameState::PendingDecision(PendingDecision { engine: self })
        } else {
            GameState::Finished(Finished { engine: self })
        }
    }
}

} // verus!
