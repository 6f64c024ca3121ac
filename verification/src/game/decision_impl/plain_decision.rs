use vstd::prelude::*;
use std::marker::PhantomData;
use crate::game::trait_definitions::{Decision, Outcome};

verus! {

/// Computes a follow-up decision from the data of the game when the option
/// that leads to it is selected.
pub trait FollowUp<T, D> {
    /// `d` is a decision that this follow-up can make from the data; every
    /// implementation says which.
    closed spec fn spec_makes(&self, data: T, d: D) -> bool {
        true
    }

    fn make(&self, data: &T) -> (r: D)
        ensures
            self.spec_makes(*data, r),
    ;
}

/// An option of a decision: an effect, or a follow-up decision that is
/// computed when the option is selected.
pub enum PlainOption<E, F> {
    Effect(E),
    FollowUp(F),
}

/// A decision of a player with a list of options and a context.
pub struct PlainDecision<T, E, C, F> {
    options: Vec<PlainOption<E, F>>,
    context: C,
    player: usize,
    _t: PhantomData<T>,
}

impl<T, E, C, F> PlainDecision<T, E, C, F> {
    pub closed spec fn spec_options(&self) -> Seq<PlainOption<E, F>> {
        self.options@
    }

    pub closed spec fn spec_context(&self) -> C {
        self.context
    }

    pub closed spec fn spec_decider(&self) -> usize {
        self.player
    }

    /// A decision of the player without options, with the default context.
    pub fn new(player: usize) -> (r: Self)
        where
            C: Default,
        ensures
            r.spec_options().len() == 0,
            r.spec_decider() == player,
    {
        Self::with_context(player, C::default())
    }

    /// A decision of the player without options.
    pub fn with_context(player: usize, context: C) -> (r: Self)
        ensures
            r.spec_options().len() == 0,
            r.spec_decider() == player,
            r.spec_context() == context,
    {
        Self { options: Vec::new(), context, player, _t: PhantomData }
    }

    /// Adds an option.
    pub fn add_option(&mut self, option: PlainOption<E, F>)
        ensures
            final(self).spec_options() == old(self).spec_options().push(option),
            final(self).spec_decider() == old(self).spec_decider(),
            final(self).spec_context() == old(self).spec_context(),
    {
        self.options.push(option);
    }

    /// Adds an option with an effect.
    pub fn add_effect(&mut self, effect: E)
        ensures
            final(self).spec_options() == old(self).spec_options().push(PlainOption::Effect(effect)),
            final(self).spec_decider() == old(self).spec_decider(),
            final(self).spec_context() == old(self).spec_context(),
    {
        self.add_option(PlainOption::Effect(effect));
    }

    /// Adds an option with a follow-up decision.
    pub fn add_follow_up(&mut self, follow_up: F)
        ensures
            final(self).spec_options() == old(self).spec_options().push(PlainOption::FollowUp(follow_up)),
            final(self).spec_decider() == old(self).spec_decider(),
            final(self).spec_context() == old(self).spec_context(),
    {
        self.add_option(PlainOption::FollowUp(follow_up));
    }

    pub fn len(&self) -> (r: usize)
        ensures
            r == self.spec_options().len(),
    {
        self.options.len()
    }

    pub fn is_empty(&self) -> (r: bool)
        ensures
            r == (self.spec_options().len() == 0),
    {
        self.options.len() == 0
    }

    pub fn context_ref(&self) -> (r: &C)
        ensures
            *r == self.spec_context(),
    {
        &self.context
    }

    pub fn context_mut(&mut self) -> (r: &mut C)
        ensures
            *r == old(self).spec_context(),
            final(self).spec_context() == *final(r),
            final(self).spec_options() == old(self).spec_options(),
            final(self).spec_decider() == old(self).spec_decider(),
    {
        &mut self.context
    }
}

impl<T, E: Clone, C: Clone, F: FollowUp<T, PlainDecision<T, E, C, F>>> Decision<T, E, C> for PlainDecision<T, E, C, F> {
    closed spec fn spec_option_count(&self) -> nat {
        self.options@.len()
    }

    closed spec fn spec_player(&self) -> nat {
        self.player as nat
    }

    /// A copy of the option's effect, or a follow-up decision.
    closed spec fn spec_selects(&self, data: T, index: usize, o: Outcome<Self, E>) -> bool {
        match self.spec_options()[index as int] {
            PlainOption::Effect(e) => o matches Outcome::Effect(x) && vstd::pervasive::cloned(e, x),
            PlainOption::FollowUp(f) => o matches Outcome::FollowUp(d) && f.spec_makes(data, d),
        }
    }

    /// The selected option: a copy of its effect, or its follow-up decision
    /// computed from the data.
    fn select_option(&self, data: &T, index: usize) -> (r: Outcome<Self, E>)
        ensures
            self.spec_options()[index as int] matches PlainOption::Effect(e) ==> (r matches Outcome::Effect(x)
                && vstd::pervasive::cloned(e, x)),
            self.spec_options()[index as int] matches PlainOption::FollowUp(f) ==> (r matches Outcome::FollowUp(d)
                && f.spec_makes(*data, d)),
    {
        match &self.options[index] {
            PlainOption::Effect(e) => Outcome::Effect(e.clone()),
            PlainOption::FollowUp(f) => Outcome::FollowUp(f.make(data)),
        }
    }

    fn option_count(&self) -> (r: usize) {
        self.options.len()
    }

    fn player(&self) -> (r: usize) {
        self.player
    }

    /// A clone of the stored context.
    closed spec fn spec_context_of(&self, data: &T, c: C) -> bool {
        vstd::pervasive::cloned(self.context, c)
    }

    fn context(&self, data: &T) -> (r: C)
        ensures
            vstd::pervasive::cloned(self.spec_context(), r),
    {
        self.context.clone()
    }
}

/// An option added by `add_follow_up` or `add_effect` is selected as what
/// it holds: its selection is the decision that its own follow-up makes
/// from the data, or a copy of its effect; the options before it keep
/// their selections.
pub proof fn lemma_selects_added_option<T, E: Clone, C: Clone, F: FollowUp<T, PlainDecision<T, E, C, F>>>(
    before: PlainDecision<T, E, C, F>,
    after: PlainDecision<T, E, C, F>,
    option: PlainOption<E, F>,
    data: T,
    index: usize,
    o: Outcome<PlainDecision<T, E, C, F>, E>,
)
    requires
        after.spec_options() == before.spec_options().push(option),
        index <= before.spec_options().len(),
        after.spec_selects(data, index, o),
    ensures
        index == before.spec_options().len() ==> match option {
            PlainOption::Effect(e) => o matches Outcome::Effect(x) && vstd::pervasive::cloned(e, x),
            PlainOption::FollowUp(f) => o matches Outcome::FollowUp(d) && f.spec_makes(data, d),
        },
        index < before.spec_options().len() ==> before.spec_selects(data, index, o),
{
    assert(after.spec_options()[index as int] == if index == before.spec_options().len() {
        option
    } else {
        before.spec_options()[index as int]
    });
}

} // verus!
