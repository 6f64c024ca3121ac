use vstd::prelude::*;
use std::marker::PhantomData;
use crate::game::decision_impl::plain_decision::{FollowUp, PlainOption};
use crate::game::decision_impl::vec_context::VecContext;
use crate::game::trait_definitions::{Decision, Outcome};

verus! {

/// A decision of a player with a list of options and a context element for
/// each option.
pub struct VecDecision<T, E, C, I, F> {
    options: Vec<PlainOption<E, F>>,
    context: VecContext<C, I>,
    player: usize,
    _t: PhantomData<T>,
}

impl<T, E, C, I, F> VecDecision<T, E, C, I, F> {
    pub closed spec fn spec_options(&self) -> Seq<PlainOption<E, F>> {
        self.options@
    }

    pub closed spec fn spec_context(&self) -> VecContext<C, I> {
        self.context
    }

    pub closed spec fn spec_decider(&self) -> usize {
        self.player
    }

    /// Every option has its context element.
    pub closed spec fn wf(&self) -> bool {
        self.options@.len() == self.context.spec_data().len()
    }

    /// A decision of the player without options, with the default inner
    /// context.
    pub fn new(player: usize) -> (r: Self)
        where
            I: Default,
        ensures
            r.wf(),
            r.spec_options().len() == 0,
            r.spec_decider() == player,
    {
        Self { options: Vec::new(), context: VecContext::new(), player, _t: PhantomData }
    }

    /// A decision of the player without options.
    pub fn with_inner(player: usize, inner: I) -> (r: Self)
        ensures
            r.wf(),
            r.spec_options().len() == 0,
            r.spec_decider() == player,
            r.spec_context().spec_inner() == inner,
    {
        Self { options: Vec::new(), context: VecContext::with_inner(inner), player, _t: PhantomData }
    }

    /// Adds an option with its context element.
    pub fn add_option(&mut self, option: PlainOption<E, F>, context: C)
        requires
            old(self).wf(),
        ensures
            final(self).wf(),
            final(self).spec_options() == old(self).spec_options().push(option),
            final(self).spec_context().spec_data() == old(self).spec_context().spec_data().push(context),
            final(self).spec_context().spec_inner() == old(self).spec_context().spec_inner(),
            final(self).spec_decider() == old(self).spec_decider(),
    {
        self.options.push(option);
        self.context.push(context);
    }

    /// Adds an option with a follow-up decision.
    pub fn add_follow_up(&mut self, follow_up: F, context: C)
        requires
            old(self).wf(),
        ensures
            final(self).wf(),
            final(self).spec_options() == old(self).spec_options().push(PlainOption::FollowUp(follow_up)),
            final(self).spec_context().spec_data() == old(self).spec_context().spec_data().push(context),
            final(self).spec_decider() == old(self).spec_decider(),
    {
        self.add_option(PlainOption::FollowUp(follow_up), context);
    }

    /// Adds an option with an effect.
    pub fn add_effect(&mut self, effect: E, context: C)
        requires
            old(self).wf(),
        ensures
            final(self).wf(),
            final(self).spec_options() == old(self).spec_options().push(PlainOption::Effect(effect)),
            final(self).spec_context().spec_data() == old(self).spec_context().spec_data().push(context),
            final(self).spec_decider() == old(self).spec_decider(),
    {
        self.add_option(PlainOption::Effect(effect), context);
    }

    /// Adds an option with a reversible effect (as `add_effect`).
    pub fn add_rev_effect(&mut self, effect: E, context: C)
        requires
            old(self).wf(),
        ensures
            final(self).wf(),
            final(self).spec_options() == old(self).spec_options().push(PlainOption::Effect(effect)),
            final(self).spec_context().spec_data() == old(self).spec_context().spec_data().push(context),
            final(self).spec_decider() == old(self).spec_decider(),
    {
        self.add_effect(effect, context);
    }

    pub fn len(&self) -> (r: usize)
        ensures
            r == self.spec_options().len(),
    {
        self.options.len()
    }

    pub fn is_empty(&self) -> (r: bool)
        ensures
            r == (self.spec_options().len() == 0),
    {
        self.options.len() == 0
    }

    pub fn context_ref(&self) -> (r: &VecContext<C, I>)
        ensures
            *r == self.spec_context(),
    {
        &self.context
    }
}

impl<T, E: Clone, C: Clone, I: Clone, F: FollowUp<T, VecDecision<T, E, C, I, F>>> Decision<
    T,
    E,
    VecContext<C, I>,
> for VecDecision<T, E, C, I, F> {
    closed spec fn spec_option_count(&self) -> nat {
        self.options@.len()
    }

    closed spec fn spec_player(&self) -> nat {
        self.player as nat
    }

    /// A copy of the option's effect, or a follow-up decision.
    closed spec fn spec_selects(&self, data: T, index: usize, o: Outcome<Self, E>) -> bool {
        match self.spec_options()[index as int] {
            PlainOption::Effect(e) => o matches Outcome::Effect(x) && vstd::pervasive::cloned(e, x),
            PlainOption::FollowUp(f) => o matches Outcome::FollowUp(d) && f.spec_makes(data, d),
        }
    }

    /// The selected option: a copy of its effect, or its follow-up decision
    /// computed from the data.
    fn select_option(&self, data: &T, index: usize) -> (r: Outcome<Self, E>)
        ensures
            self.spec_options()[index as int] matches PlainOption::Effect(e) ==> (r matches Outcome::Effect(x)
                && vstd::pervasive::cloned(e, x)),
            self.spec_options()[index as int] matches PlainOption::FollowUp(f) ==> (r matches Outcome::FollowUp(d)
                && f.spec_makes(*data, d)),
    {
        match &self.options[index] {
            PlainOption::Effect(e) => Outcome::Effect(e.clone()),
            PlainOption::FollowUp(f) => Outcome::FollowUp(f.make(data)),
        }
    }

    fn option_count(&self) -> (r: usize) {
        self.options.len()
    }

    fn player(&self) -> (r: usize) {
        self.player
    }

    /// A clone of the context with the elements of all options.
    closed spec fn spec_context_of(&self, data: &T, c: VecContext<C, I>) -> bool {
        self.context.spec_cloned_to(c)
    }

    fn context(&self, data: &T) -> (r: VecContext<C, I>) {
        self.context.duplicate()
    }
}

/// An option added by `add_option`, `add_follow_up` or `add_effect` is
/// selected as what it holds: its selection is the decision that its own
/// follow-up makes from the data, or a copy of its effect; the options
/// before it keep their selections.
pub proof fn lemma_selects_added_vec_option<T, E: Clone, C: Clone, I: Clone, F: FollowUp<T, VecDecision<T, E, C, I, F>>>(
    before: VecDecision<T, E, C, I, F>,
    after: VecDecision<T, E, C, I, F>,
    option: PlainOption<E, F>,
    data: T,
    index: usize,
    o: Outcome<VecDecision<T, E, C, I, F>, E>,
)
    requires
        after.spec_options() == before.spec_options().push(option),
        index <= before.spec_options().len(),
        after.spec_selects(data, index, o),
    ensures
        index == before.spec_options().len() ==> match option {
            PlainOption::Effect(e) => o matches Outcome::Effect(x) && vstd::pervasive::cloned(e, x),
            PlainOption::FollowUp(f) => o matches Outcome::FollowUp(d) && f.spec_makes(data, d),
        },
        index < before.spec_options().len() ==> before.spec_selects(data, index, o),
{
    assert(after.spec_options()[index as int] == if index == before.spec_options().len() {
        option
    } else {
        before.spec_options()[index as int]
    });
}

} // verus!
