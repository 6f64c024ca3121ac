use vstd::prelude::*;
use std::marker::PhantomData;
use crate::game::decision_impl::lazy_decision::OptionEffect;
use crate::game::decision_impl::vec_context::VecContext;
use crate::game::trait_definitions::{Decision, Outcome};

verus! {

/// Computes the outcome of an option from the data, the inner context and
/// the option's context element.
pub trait MapToOutcome<T, C, I, D, E> {
    /// `o` is an outcome that the mapping gives; every implementation says
    /// which.
    spec fn spec_outcome_of(&self, data: &T, inner: &I, context: &C, o: Outcome<D, E>) -> bool;

    fn apply_mapping(&self, data: &T, inner: &I, context: &C) -> (r: Outcome<D, E>)
        ensures
            self.spec_outcome_of(data, inner, context, r),
    ;
}

/// Computes a follow-up decision from the data, the inner context and the
/// option's context element.
pub trait OptionFollowUp<T, I, C, D> {
    /// `d` is a follow-up decision that the mapping gives; every
    /// implementation says which.
    closed spec fn spec_gives_follow_up(&self, data: &T, inner: &I, element: &C, d: D) -> bool {
        true
    }

    fn follow_up(&self, data: &T, inner: &I, element: &C) -> (r: D)
        ensures
            self.spec_gives_follow_up(data, inner, element, r),
    ;
}

/// Outcomes that are effects.
pub struct MapToEffect<F> {
    mapping: F,
}

impl<T, C, I, D, E, F: OptionEffect<I, C, E>> MapToOutcome<T, C, I, D, E> for MapToEffect<F> {
    /// The effect that the mapping gives.
    closed spec fn spec_outcome_of(&self, data: &T, inner: &I, context: &C, o: Outcome<D, E>) -> bool {
        o matches Outcome::Effect(e) && self.mapping.spec_gives_effect(inner, context, e)
    }

    fn apply_mapping(&self, data: &T, inner: &I, context: &C) -> (r: Outcome<D, E>) {
        Outcome::Effect(self.mapping.effect(inner, context))
    }
}

/// Outcomes that are follow-up decisions.
pub struct MapToFollowUp<F> {
    mapping: F,
}

impl<T, C, I, D, E, F: OptionFollowUp<T, I, C, D>> MapToOutcome<T, C, I, D, E> for MapToFollowUp<F> {
    /// The follow-up decision that the mapping gives.
    closed spec fn spec_outcome_of(&self, data: &T, inner: &I, context: &C, o: Outcome<D, E>) -> bool {
        o matches Outcome::FollowUp(d) && self.mapping.spec_gives_follow_up(data, inner, context, d)
    }

    fn apply_mapping(&self, data: &T, inner: &I, context: &C) -> (r: Outcome<D, E>) {
        Outcome::FollowUp(self.mapping.follow_up(data, inner, context))
    }
}

/// A decision whose outcomes a mapping computes from the context elements
/// of its options.
pub struct MappedDecisionImpl<F, T, C, I> {
    mapping: F,
    context: VecContext<C, I>,
    player: usize,
    _t: PhantomData<T>,
}

impl<F, T, C, I> MappedDecisionImpl<F, T, C, I> {
    pub closed spec fn spec_context(&self) -> VecContext<C, I> {
        self.context
    }

    pub closed spec fn spec_decider(&self) -> usize {
        self.player
    }

    pub closed spec fn spec_mapping(&self) -> F {
        self.mapping
    }

    fn new(mapping: F, context: VecContext<C, I>, player: usize) -> (r: Self)
        ensures
            r.spec_context() == context,
            r.spec_decider() == player,
    {
        Self { mapping, context, player, _t: PhantomData }
    }
}

impl<F: MapToOutcome<T, C, I, MappedDecisionImpl<F, T, C, I>, E>, T, E, C: Clone, I: Clone> Decision<
    T,
    E,
    VecContext<C, I>,
> for MappedDecisionImpl<F, T, C, I> {
    closed spec fn spec_option_count(&self) -> nat {
        self.context.spec_data().len()
    }

    closed spec fn spec_player(&self) -> nat {
        self.player as nat
    }

    /// The outcome that the mapping computes for the option's element.
    closed spec fn spec_selects(&self, data: T, index: usize, o: Outcome<Self, E>) -> bool {
        self.spec_mapping().spec_outcome_of(
            &data,
            &self.spec_context().spec_inner(),
            &self.spec_context().spec_data()[index as int],
            o,
        )
    }

    /// The outcome that the mapping computes for the option's element.
    fn select_option(&self, data: &T, index: usize) -> (r: Outcome<Self, E>)
        ensures
            self.spec_mapping().spec_outcome_of(
                data,
                &self.spec_context().spec_inner(),
                &self.spec_context().spec_data()[index as int],
                r,
            ),
    {
        self.mapping.apply_mapping(data, self.context.inner(), self.context.get(index))
    }

    fn option_count(&self) -> (r: usize) {
        self.context.len()
    }

    fn player(&self) -> (r: usize) {
        self.player
    }

    /// A clone of the context with the elements of all options.
    closed spec fn spec_context_of(&self, data: &T, c: VecContext<C, I>) -> bool {
        self.context.spec_cloned_to(c)
    }

    fn context(&self, data: &T) -> (r: VecContext<C, I>) {
        self.context.duplicate()
    }
}

/// Builds a decision from the context elements of its options and a
/// mapping.
pub struct MappedDecision<T, C, I> {
    context: VecContext<C, I>,
    player: usize,
    _t: PhantomData<T>,
}

impl<T, C> MappedDecision<T, C, ()> {
    /// A decision of the player without options.
    pub fn new(player: usize) -> (r: Self)
        ensures
            r.spec_context().spec_data().len() == 0,
            r.spec_decider() == player,
    {
        Self::with_inner(player, ())
    }
}

impl<T, C, I> MappedDecision<T, C, I> {
    pub closed spec fn spec_context(&self) -> VecContext<C, I> {
        self.context
    }

    pub closed spec fn spec_decider(&self) -> usize {
        self.player
    }

    /// A decision of the player without options, with the default inner
    /// context.
    pub fn with_default(player: usize) -> (r: Self)
        where
            I: Default,
        ensures
            r.spec_context().spec_data().len() == 0,
            r.spec_decider() == player,
    {
        Self::with_inner(player, I::default())
    }

    /// A decision of the player without options.
    pub fn with_inner(player: usize, inner: I) -> (r: Self)
        ensures
            r.spec_context().spec_data().len() == 0,
            r.spec_context().spec_inner() == inner,
            r.spec_decider() == player,
    {
        Self { context: VecContext::with_inner(inner), player, _t: PhantomData }
    }

    /// Adds an option with its context element.
    pub fn add_option(&mut self, option: C)
        ensures
            final(self).spec_context().spec_data() == old(self).spec_context().spec_data().push(option),
            final(self).spec_context().spec_inner() == old(self).spec_context().spec_inner(),
            final(self).spec_decider() == old(self).spec_decider(),
    {
        self.context.push(option);
    }

    /// The decision with outcomes from the mapping.
    pub fn to_outcome<F>(self, mapping: F) -> (r: MappedDecisionImpl<F, T, C, I>)
        ensures
            r.spec_context() == self.spec_context(),
            r.spec_decider() == self.spec_decider(),
    {
        MappedDecisionImpl::new(mapping, self.context, self.player)
    }

    /// The decision with effects from the mapping.
    pub fn to_effect<F>(self, mapping: F) -> (r: MappedDecisionImpl<MapToEffect<F>, T, C, I>)
        ensures
            r.spec_context() == self.spec_context(),
            r.spec_decider() == self.spec_decider(),
    {
        MappedDecisionImpl::new(MapToEffect { mapping }, self.context, self.player)
    }

    /// The decision with follow-up decisions from the mapping.
    pub fn to_follow_up<F>(self, mapping: F) -> (r: MappedDecisionImpl<MapToFollowUp<F>, T, C, I>)
        ensures
            r.spec_context() == self.spec_context(),
            r.spec_decider() == self.spec_decider(),
    {
        MappedDecisionImpl::new(MapToFollowUp { mapping }, self.context, self.player)
    }

    pub fn len(&self) -> (r: usize)
        ensures
            r == self.spec_context().spec_data().len(),
    {
        self.context.len()
    }

    pub fn is_empty(&self) -> (r: bool)
        ensures
            r == (self.spec_context().spec_data().len() == 0),
    {
        self.context.is_empty()
    }

    pub fn context(&self) -> (r: &VecContext<C, I>)
        ensures
            *r == self.spec_context(),
    {
        &self.context
    }

    pub fn context_mut(&mut self) -> (r: &mut VecContext<C, I>)
        ensures
            *r == old(self).spec_context(),
            final(self).spec_context() == *final(r),
            final(self).spec_decider() == old(self).spec_decider(),
    {
        &mut self.context
    }
}

} // verus!
