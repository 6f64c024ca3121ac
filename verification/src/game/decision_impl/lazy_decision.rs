use vstd::prelude::*;
use std::marker::PhantomData;
use crate::game::decision_impl::vec_context::VecContext;
use crate::game::trait_definitions::{Decision, Outcome};

verus! {

/// The options for which a mapping gives an outcome.
pub trait OutcomeDomain<C> {
    /// The mapping gives an outcome for option `index` of the context.
    spec fn accepts(&self, context: &C, index: usize) -> bool;
}

/// Computes the outcome of an option from the data and the context.
pub trait MapToOutcome<T, C, D, E>: OutcomeDomain<C> {
    /// `o` is an outcome that the mapping gives for option `index`; every
    /// implementation says which.
    spec fn spec_outcome_at(&self, data: &T, context: &C, index: usize, o: Outcome<D, E>) -> bool;

    fn apply_mapping(&self, data: &T, context: &C, index: usize) -> (r: Outcome<D, E>)
        requires
            self.accepts(context, index),
        ensures
            self.spec_outcome_at(data, context, index, r),
    ;
}

/// Computes the context of a decision from the data and the stored context.
pub trait MapToContext<T, C, X> {
    /// `x` is a context that the mapping computes from the data and the
    /// stored context; every implementation says which.
    spec fn spec_maps_to(&self, data: &T, context: &C, x: X) -> bool;

    fn apply_mapping(&self, data: &T, context: &C) -> (r: X)
        ensures
            self.spec_maps_to(data, context, r),
    ;
}

/// A decision whose outcomes and context are computed when they are needed.
pub struct LazyDecision<T, MapO: OutcomeDomain<C>, MapC, C> {
    outcome_mapping: MapO,
    context_mapping: MapC,
    context: C,
    option_count: usize,
    player: usize,
    _t: PhantomData<T>,
}

impl<T, MapO: OutcomeDomain<C>, MapC, C> LazyDecision<T, MapO, MapC, C> {
    /// The outcome mapping gives an outcome for every option.
    #[verifier::type_invariant]
    spec fn options_mapped(self) -> bool {
        forall|i: usize| i < self.option_count ==> #[trigger] self.outcome_mapping.accepts(&self.context, i)
    }

    pub closed spec fn spec_context(&self) -> C {
        self.context
    }

    pub closed spec fn spec_count(&self) -> usize {
        self.option_count
    }

    pub closed spec fn spec_decider(&self) -> usize {
        self.player
    }

    pub closed spec fn spec_outcome_mapping(&self) -> MapO {
        self.outcome_mapping
    }

    /// A decision of the player with `option_count` options; the outcome
    /// mapping must give an outcome for each of them.
    pub fn from_mappings(
        player: usize,
        outcome_mapping: MapO,
        context_mapping: MapC,
        context: C,
        option_count: usize,
    ) -> (r: Self)
        requires
            forall|i: usize| i < option_count ==> #[trigger] outcome_mapping.accepts(&context, i),
        ensures
            r.spec_context() == context,
            r.spec_count() == option_count,
            r.spec_decider() == player,
    {
        Self { outcome_mapping, context_mapping, context, option_count, player, _t: PhantomData }
    }

    pub fn context_ref(&self) -> (r: &C)
        ensures
            *r == self.spec_context(),
    {
        &self.context
    }
}

impl<T, E, X, MapO: MapToOutcome<T, C, LazyDecision<T, MapO, MapC, C>, E>, MapC: MapToContext<T, C, X>, C> Decision<
    T,
    E,
    X,
> for LazyDecision<T, MapO, MapC, C> {
    closed spec fn spec_option_count(&self) -> nat {
        self.option_count as nat
    }

    closed spec fn spec_player(&self) -> nat {
        self.player as nat
    }

    /// The outcome that the mapping computes for the option.
    closed spec fn spec_selects(&self, data: T, index: usize, o: Outcome<Self, E>) -> bool {
        self.outcome_mapping.spec_outcome_at(&data, &self.context, index, o)
    }

    /// The outcome that the mapping computes for the option.
    fn select_option(&self, data: &T, index: usize) -> (r: Outcome<Self, E>)
        ensures
            self.spec_outcome_mapping().spec_outcome_at(data, &self.spec_context(), index, r),
    {
        proof {
            use_type_invariant(self);
        }
        self.outcome_mapping.apply_mapping(data, &self.context, index)
    }

    fn option_count(&self) -> (r: usize) {
        self.option_count
    }

    fn player(&self) -> (r: usize) {
        self.player
    }

    /// The context that the mapping computes.
    closed spec fn spec_context_of(&self, data: &T, c: X) -> bool {
        self.context_mapping.spec_maps_to(data, &self.context, c)
    }

    fn context(&self, data: &T) -> (r: X) {
        self.context_mapping.apply_mapping(data, &self.context)
    }
}

/// The context of a decision is its stored `VecContext`, converted.
pub struct MapToVecContext {}

impl<T, C: Clone, I: Clone, X: From<VecContext<C, I>>> MapToContext<T, VecContext<C, I>, X> for MapToVecContext {
    /// The conversion of a clone of the stored context; what the conversion
    /// gives is up to `X`.
    open spec fn spec_maps_to(&self, data: &T, context: &VecContext<C, I>, x: X) -> bool {
        exists|v: VecContext<C, I>| context.spec_cloned_to(v) && call_ensures(X::from, (v,), x)
    }

    fn apply_mapping(&self, data: &T, context: &VecContext<C, I>) -> (r: X) {
        X::from(context.duplicate())
    }
}

/// Computes an outcome from the inner context and the element of an option.
pub trait OptionOutcome<I, C, D, E> {
    /// `o` is an outcome that the mapping gives; every implementation says
    /// which.
    closed spec fn spec_gives_outcome(&self, inner: &I, element: &C, o: Outcome<D, E>) -> bool {
        true
    }

    fn outcome(&self, inner: &I, element: &C) -> (r: Outcome<D, E>)
        ensures
            self.spec_gives_outcome(inner, element, r),
    ;
}

/// Computes an effect from the inner context and the element of an option.
pub trait OptionEffect<I, C, E> {
    /// `e` is an effect that the mapping gives; every implementation says
    /// which.
    closed spec fn spec_gives_effect(&self, inner: &I, element: &C, e: E) -> bool {
        true
    }

    fn effect(&self, inner: &I, element: &C) -> (r: E)
        ensures
            self.spec_gives_effect(inner, element, r),
    ;
}

/// Outcomes from the elements of a `VecContext`.
pub struct MapByOutcome<F> {
    mapping: F,
}

impl<F, C, I> OutcomeDomain<VecContext<C, I>> for MapByOutcome<F> {
    open spec fn accepts(&self, context: &VecContext<C, I>, index: usize) -> bool {
        index < context.spec_data().len()
    }
}

impl<T, F: OptionOutcome<I, C, D, E>, C, I, D, E> MapToOutcome<T, VecContext<C, I>, D, E> for MapByOutcome<F> {
    /// What the mapping gives for the inner value and the option's element.
    closed spec fn spec_outcome_at(&self, data: &T, context: &VecContext<C, I>, index: usize, o: Outcome<D, E>) -> bool {
        &&& index < context.spec_data().len()
        &&& self.mapping.spec_gives_outcome(&context.spec_inner(), &context.spec_data()[index as int], o)
    }

    fn apply_mapping(&self, data: &T, context: &VecContext<C, I>, index: usize) -> (r: Outcome<D, E>) {
        self.mapping.outcome(context.inner(), context.get(index))
    }
}

/// Effects from the elements of a `VecContext`.
pub struct MapByEffect<F> {
    mapping: F,
}

impl<F, C, I> OutcomeDomain<VecContext<C, I>> for MapByEffect<F> {
    open spec fn accepts(&self, context: &VecContext<C, I>, index: usize) -> bool {
        index < context.spec_data().len()
    }
}

impl<T, F: OptionEffect<I, C, E>, C, I, D, E> MapToOutcome<T, VecContext<C, I>, D, E> for MapByEffect<F> {
    /// The effect that the mapping gives for the inner value and the
    /// option's element.
    closed spec fn spec_outcome_at(&self, data: &T, context: &VecContext<C, I>, index: usize, o: Outcome<D, E>) -> bool {
        &&& index < context.spec_data().len()
        &&& o matches Outcome::Effect(e) && self.mapping.spec_gives_effect(
            &context.spec_inner(),
            &context.spec_data()[index as int],
            e,
        )
    }

    fn apply_mapping(&self, data: &T, context: &VecContext<C, I>, index: usize) -> (r: Outcome<D, E>) {
        Outcome::Effect(self.mapping.effect(context.inner(), context.get(index)))
    }
}

/// A decision whose options are effects computed from the elements of its
/// context.
pub type MappedDecision<T, F, C, I> = LazyDecision<T, MapByEffect<F>, MapToVecContext, VecContext<C, I>>;

/// A decision whose options are outcomes computed from the elements of its
/// context.
pub type GeneralMappedDecision<T, F, C, I> = LazyDecision<T, MapByOutcome<F>, MapToVecContext, VecContext<C, I>>;

impl<T, F, C, I> LazyDecision<T, MapByEffect<F>, MapToVecContext, VecContext<C, I>> {
    /// A decision of the player without options, with the default inner
    /// context.
    pub fn new(player: usize, effect_mapping: F) -> (r: Self)
        where
            I: Default,
        ensures
            r.spec_count() == 0,
            r.spec_decider() == player,
            r.spec_context().spec_data().len() == 0,
    {
        Self::with_inner(player, effect_mapping, I::default())
    }

    /// A decision of the player without options.
    pub fn with_inner(player: usize, effect_mapping: F, inner: I) -> (r: Self)
        ensures
            r.spec_count() == 0,
            r.spec_decider() == player,
            r.spec_context().spec_data().len() == 0,
            r.spec_context().spec_inner() == inner,
    {
        Self::from_mappings(
            player,
            MapByEffect { mapping: effect_mapping },
            MapToVecContext {  },
            VecContext::with_inner(inner),
            0,
        )
    }

    /// The decision with an additional option with its context element.
    pub fn add_option(self, element: C) -> (r: Self)
        ensures
            r.spec_context().spec_data() == self.spec_context().spec_data().push(element),
            r.spec_count() == r.spec_context().spec_data().len(),
            r.spec_decider() == self.spec_decider(),
    {
        let LazyDecision { outcome_mapping, context_mapping, context, option_count, player, _t } = self;
        let mut context = context;
        context.push(element);
        let count = context.len();
        LazyDecision { outcome_mapping, context_mapping, context, option_count: count, player, _t }
    }
}

impl<T, F, C, I> LazyDecision<T, MapByOutcome<F>, MapToVecContext, VecContext<C, I>> {
    /// A decision of the player without options, with the default inner
    /// context.
    pub fn new_general(player: usize, outcome_mapping: F) -> (r: Self)
        where
            I: Default,
        ensures
            r.spec_count() == 0,
            r.spec_decider() == player,
            r.spec_context().spec_data().len() == 0,
    {
        Self::with_inner_general(player, outcome_mapping, I::default())
    }

    /// A decision of the player without options.
    pub fn with_inner_general(player: usize, outcome_mapping: F, inner: I) -> (r: Self)
        ensures
            r.spec_count() == 0,
            r.spec_decider() == player,
            r.spec_context().spec_data().len() == 0,
            r.spec_context().spec_inner() == inner,
    {
        Self::from_mappings(
            player,
            MapByOutcome { mapping: outcome_mapping },
            MapToVecContext {  },
            VecContext::with_inner(inner),
            0,
        )
    }

    /// The decision with an additional option with its context element.
    pub fn add_option(self, element: C) -> (r: Self)
        ensures
            r.spec_context().spec_data() == self.spec_context().spec_data().push(element),
            r.spec_count() == r.spec_context().spec_data().len(),
            r.spec_decider() == self.spec_decider(),
    {
        let LazyDecision { outcome_mapping, context_mapping, context, option_count, player, _t } = self;
        let mut context = context;
        context.push(element);
        let count = context.len();
        LazyDecision { outcome_mapping, context_mapping, context, option_count: count, player, _t }
    }

    /// The number of context elements.
    pub fn len(&self) -> (r: usize)
        ensures
            r == self.spec_context().spec_data().len(),
    {
        self.context.len()
    }

    /// Whether there are no context elements.
    pub fn is_empty(&self) -> (r: bool)
        ensures
            r == (self.spec_context().spec_data().len() == 0),
    {
        self.context.is_empty()
    }

    /// The decision with its context changed by `edit`; its options are then
    /// the elements of the new context.
    pub fn context_mut<G: FnOnce(VecContext<C, I>) -> VecContext<C, I>>(self, edit: G) -> (r: Self)
        requires
            edit.requires((self.spec_context(),)),
        ensures
            edit.ensures((self.spec_context(),), r.spec_context()),
            r.spec_count() == r.spec_context().spec_data().len(),
            r.spec_decider() == self.spec_decider(),
    {
        let LazyDecision { outcome_mapping, context_mapping, context, option_count, player, _t } = self;
        let context = edit(context);
        let count = context.len();
        LazyDecision { outcome_mapping, context_mapping, context, option_count: count, player, _t }
    }
}

} // verus!
