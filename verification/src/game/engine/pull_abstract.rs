use vstd::prelude::*;
use crate::game::engine::{Engine, EventListener};
use crate::game::trait_definitions::GameData;

verus! {

/// An engine that hands out its state with the operations that do not
/// depend on the data: applying effects and selecting options.
pub trait AbstractEngine {
    type Data: GameData;
    type Listener: EventListener<Self::Data>;

    fn pull_abstract(&mut self) -> AbstractState<'_, Self::Data, Self::Listener>;
}

/// The state of an engine, with the operations it allows.
#[verifier::reject_recursive_types(T)]
pub enum AbstractState<'a, T: GameData, L: EventListener<T>> {
    PendingEffect(AbstractPendingEffect<'a, T, L>),
    PendingDecision(AbstractPendingDecision<'a, T, L>),
    Finished(AbstractFinished),
}

impl<T: GameData, L: EventListener<T>> AbstractEngine for Engine<T, L> {
    type Data = T;
    type Listener = L;

    fn pull_abstract(&mut self) -> (r: AbstractState<'_, T, L>)
        ensures
            match r {
                AbstractState::PendingEffect(p) => old(self).spec_is_pending_effect() && *p.engine == *old(self)
                    && *final(p.engine) == *final(self),
                AbstractState::PendingDecision(p) => old(self).spec_is_pending_decision() && *p.engine == *old(self)
                    && *final(p.engine) == *final(self),
                AbstractState::Finished(_) => !old(self).spec_is_pending_effect() && !old(self).spec_is_pending_decision()
                    && *final(self) == *old(self),
            },
    {
        if self.is_pending_effect() {
            AbstractState::PendingEffect(AbstractPendingEffect { engine: self })
        } else if self.is_pending_decision() {
            AbstractState::PendingDecision(AbstractPendingDecision { engine: self })
        } else {
            AbstractState::Finished(AbstractFinished {  })
        }
    }
}

/// An engine with a pending effect.
#[verifier::reject_recursive_types(T)]
pub struct AbstractPendingEffect<'a, T: GameData, L: EventListener<T>> {
    pub engine: &'a mut Engine<T, L>,
}

impl<'a, T: GameData, L: EventListener<T>> AbstractPendingEffect<'a, T, L> {
    /// Applies the pending effect.
    pub fn next_effect(self)
        requires
            self.engine.spec_is_pending_effect(),
        ensures
            final(self.engine).wf(),
            final(self.engine).spec_num_players() == old(self.engine).spec_num_players(),
    {
        self.engine.next_effect();
    }

    /// Applies all pending effects.
    pub fn all_effects(self)
        requires
            self.engine.spec_is_pending_effect(),
        ensures
            final(self.engine).wf(),
            final(self.engine).spec_num_players() == old(self.engine).spec_num_players(),
            final(self.engine).spec_is_finished() || (final(self.engine).spec_is_pending_decision()
                && final(self.engine).spec_level() == 0),
    {
        self.engine.all_effects();
    }
}

/// An engine with a pending decision.
#[verifier::reject_recursive_types(T)]
pub struct AbstractPendingDecision<'a, T: GameData, L: EventListener<T>> {
    pub engine: &'a mut Engine<T, L>,
}

impl<'a, T: GameData, L: EventListener<T>> AbstractPendingDecision<'a, T, L> {
    /// Selects an option of the decision.
    pub fn select_option(self, index: usize)
        requires
            self.engine.spec_is_pending_decision(),
            index < self.engine.spec_option_count(),
        ensures
            final(self.engine).wf(),
            final(self.engine).spec_num_players() == old(self.engine).spec_num_players(),
    {
        self.engine.select_option(index)
    }

    pub fn option_count(&self) -> (r: usize)
        requires
            self.engine.spec_is_pending_decision(),
        ensures
            r == old(self.engine).spec_option_count(),
    {
        self.engine.option_count()
    }

    pub fn player(&self) -> (r: usize)
        requires
            self.engine.spec_is_pending_decision(),
        ensures
            r == old(self.engine).spec_player(),
    {
        self.engine.player()
    }
}

/// The finished game.
pub struct AbstractFinished {}

} // verus!
