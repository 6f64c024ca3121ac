use vstd::prelude::*;
use crate::game::trait_definitions::{Decision, Effect, GameData, Outcome, RevEffect};
use crate::game::engine::logging::{EventLog, data_undone, undone};

pub mod concrete_engine;
pub mod logging;
pub mod io;
pub mod pull_abstract;

verus! {

/// Cloning is only possible in a pending top-level decision or after the
/// game finished.
#[derive(Debug, Clone, Copy, PartialEq, Eq)]
pub enum CloneError {
    /// Cloning is not possible in pending effect state,
    /// the state must be either pending decision or finished.
    PendingEffect,
    /// Cloning is not possible for a pending follow-up decision,
    /// the state must be either a pending top-level decision or finished.
    FollowUp,
}

/// Receives the events of an engine.  Each spec function says how the
/// listener can change on an event; every implementation says how.
pub trait EventListener<T: GameData>: Sized {
    closed spec fn spec_on_effect(&self, effect: T::EffectType, after: Self) -> bool {
        true
    }

    closed spec fn spec_on_option(&self, index: usize, player: usize, after: Self) -> bool {
        true
    }

    closed spec fn spec_on_retract(&self, n: usize, after: Self) -> bool {
        true
    }

    fn effect_applied(&mut self, effect: T::EffectType)
        ensures
            old(self).spec_on_effect(effect, *final(self)),
    ;

    fn option_selected(&mut self, index: usize, player: usize)
        ensures
            old(self).spec_on_option(index, player, *final(self)),
    ;

    fn retracted_by_n(&mut self, n: usize)
        ensures
            old(self).spec_on_retract(n, *final(self)),
    ;
}

/// A listener that ignores all events.
#[derive(Debug, Clone, Copy, PartialEq, Eq)]
pub struct NotListening {}

impl<T: GameData> EventListener<T> for NotListening {
    closed spec fn spec_on_effect(&self, effect: T::EffectType, after: Self) -> bool {
        after == *self
    }

    closed spec fn spec_on_option(&self, index: usize, player: usize, after: Self) -> bool {
        after == *self
    }

    closed spec fn spec_on_retract(&self, n: usize, after: Self) -> bool {
        after == *self
    }

    fn effect_applied(&mut self, effect: T::EffectType) {
    }

    fn option_selected(&mut self, index: usize, player: usize) {
    }

    fn retracted_by_n(&mut self, n: usize) {
    }
}

/// The state of an engine: an effect waits to be applied, a decision (with
/// the stack of its follow-up decisions) waits for a selection, or the game
/// is over.
#[verifier::reject_recursive_types(T)]
pub enum InternalState<T: GameData> {
    PEffect(T::EffectType),
    PDecision(T::DecisionType, Vec<T::DecisionType>),
    Finished,
    Invalid,
}

/// Drives a game: fetches decisions from the data, passes selected options
/// on and applies the resulting effects, informing the listener of each
/// event.
#[verifier::reject_recursive_types(T)]
pub struct Engine<T: GameData, L: EventListener<T>> {
    state: InternalState<T>,
    data: T,
    listener: L,
    num_players: usize,
}

/// An engine that records its events, so that decisions can be undone.
pub type LoggingEngine<T> = Engine<T, EventLog<<T as GameData>::EffectType>>;

impl<T: GameData> Engine<T, NotListening> {
    pub fn new(num_players: usize, data: T) -> (r: Self)
        ensures
            r.wf(),
            r.spec_num_players() == num_players,
            r.spec_is_finished() || (r.spec_is_pending_decision() && r.spec_level() == 0),
            r.spec_data() == data,
            r.spec_follows_data(),
    {
        Self::with_listener(num_players, data, NotListening {})
    }
}

/// The option indices of the top `k` entries of a redo stack, the top one
/// first.
pub open spec fn top_indices(stack: Seq<(usize, usize)>, k: int) -> Seq<usize> {
    Seq::new(k as nat, |j: int| stack[stack.len() - 1 - j].0)
}

impl<T: GameData> Engine<T, EventLog<T::EffectType>> {
    pub fn new_logging(num_players: usize, data: T) -> (r: Self)
        ensures
            r.wf(),
            r.spec_num_players() == num_players,
            r.spec_is_finished() || (r.spec_is_pending_decision() && r.spec_level() == 0),
            r.spec_data() == data,
            r.spec_follows_data(),
            r.spec_listener().log@.len() == 0,
            r.spec_listener().redo_stack@.len() == 0,
    {
        Self::with_listener(num_players, data, EventLog::new())
    }

    /// Undoes the last decision (see `EventLog::undo_last_decision`) and
    /// continues with the decision that the data provides then.  Returns
    /// false if there is nothing to undo.
    pub fn undo_last_decision(&mut self) -> (r: bool)
        requires
            old(self).wf(),
        ensures
            final(self).wf(),
            final(self).spec_num_players() == old(self).spec_num_players(),
            r ==> final(self).spec_is_finished() || (final(self).spec_is_pending_decision() && final(self).spec_level() == 0),
            r ==> final(self).spec_follows_data(),
            !r ==> final(self).spec_state_kind() == old(self).spec_state_kind(),
            undone(old(self).spec_listener(), final(self).spec_listener(), r),
            data_undone(old(self).spec_listener().log@, old(self).spec_data(), final(self).spec_data()),
            !r ==> *final(self) == *old(self),
    {
        if self.listener.undo_last_decision(&mut self.data) {
            self.state = self.fetch_next_state();
            true
        } else {
            false
        }
    }

    /// The event log.
    pub fn log(&self) -> (r: &EventLog<T::EffectType>)
        ensures
            *r == self.spec_listener(),
    {
        &self.listener
    }

    /// Replaces the redo stack of the event log.
    pub fn set_redo_stack(&mut self, redo_stack: Vec<(usize, usize)>)
        requires
            old(self).wf(),
        ensures
            final(self).wf(),
            final(self).spec_listener().redo_stack@ == redo_stack@,
            final(self).spec_listener().log@ == old(self).spec_listener().log@,
            final(self).spec_state_kind() == old(self).spec_state_kind(),
            final(self).spec_num_players() == old(self).spec_num_players(),
    {
        self.listener.redo_stack = redo_stack;
    }

    /// Redoes the last undone decision: selects the recorded options and
    /// applies all resulting effects.  Returns false if there is nothing to
    /// redo or a recorded option does not exist.
    pub fn redo_decision(&mut self) -> (r: bool)
        requires
            old(self).wf(),
            old(self).spec_is_pending_decision(),
        ensures
            final(self).wf(),
            final(self).spec_num_players() == old(self).spec_num_players(),
            r ==> final(self).spec_is_finished() || (final(self).spec_is_pending_decision() && final(self).spec_level() == 0),
            r ==> final(self).spec_follows_data(),
            old(self).spec_listener().redo_stack@.len() == 0 ==> !r && *final(self) == *old(self),
            old(self).spec_listener().redo_stack@.len() > 0 ==> final(self).spec_listener().redo_stack@.len()
                < old(self).spec_listener().redo_stack@.len() && final(self).spec_listener().redo_stack@
                == old(self).spec_listener().redo_stack@.subrange(0, final(self).spec_listener().redo_stack@.len() as int),
            r ==> exists|sel: Seq<Self>, eff: Seq<Self>| #[trigger] Self::selections(
                top_indices(
                    old(self).spec_listener().redo_stack@,
                    old(self).spec_listener().redo_stack@.len() - final(self).spec_listener().redo_stack@.len(),
                ),
                sel,
            ) && #[trigger] Self::effects_chain(eff) && sel[0].spec_same_position(*old(self)) && sel.last() == eff[0]
                && eff.last() == *final(self),
    {
        if !self.listener.redo_available() {
            return false;
        }
        let ghost first = true;
        let ghost ostack = old(self).listener.redo_stack@;
        let ghost mut sel: Seq<Self> = Seq::empty();
        loop
            invariant_except_break
                self.wf(),
                self.spec_is_pending_decision(),
            invariant
                self.spec_num_players() == old(self).spec_num_players(),
                self.listener.redo_stack@.len() <= old(self).listener.redo_stack@.len(),
                self.listener.redo_stack@ == old(self).listener.redo_stack@.subrange(0, self.listener.redo_stack@.len() as int),
                old(self).listener.redo_stack@.len() > 0,
                !first ==> self.listener.redo_stack@.len() < old(self).listener.redo_stack@.len(),
                ostack == old(self).listener.redo_stack@,
                first == (self.listener.redo_stack@.len() == ostack.len()),
                first ==> sel.len() == 0 && self.spec_same_position(*old(self)),
                !first ==> sel.len() == ostack.len() - self.listener.redo_stack@.len() && Self::selections(
                    top_indices(ostack, sel.len() - 1),
                    sel,
                ) && sel.last().spec_selection_step(top_indices(ostack, sel.len() as int)[sel.len() - 1], *self)
                    && sel[0].spec_same_position(*old(self)),
            ensures
                self.spec_is_pending_effect(),
                self.listener.redo_stack@.len() < old(self).listener.redo_stack@.len(),
                self.listener.redo_stack@ == old(self).listener.redo_stack@.subrange(0, self.listener.redo_stack@.len() as int),
                sel.len() == ostack.len() - self.listener.redo_stack@.len(),
                Self::selections(top_indices(ostack, sel.len() - 1), sel),
                sel.last().spec_selection_step(top_indices(ostack, sel.len() as int)[sel.len() - 1], *self),
                sel[0].spec_same_position(*old(self)),
            decreases self.listener.redo_stack@.len(),
        {
            let ghost before = self.listener.redo_stack@;
            let ghost pre = *self;
            let index = match self.listener.redo_step() {
                Some(index) => index,
                None => {
                    return false;
                },
            };
            proof {
                assert(self.spec_same_position(pre));
                let k = sel.len() as int;
                if !first {
                    Self::lemma_selection_position(sel.last(), top_indices(ostack, k)[k - 1], pre, *self);
                    let old_sel = sel;
                    sel = sel.push(*self);
                    assert forall|j: int| 0 <= j < k implies #[trigger] sel[j].spec_selection_step(
                        top_indices(ostack, k)[j],
                        sel[j + 1],
                    ) by {
                        if j < k - 1 {
                            assert(sel[j] == old_sel[j] && sel[j + 1] == old_sel[j + 1]);
                            assert(top_indices(ostack, k)[j] == top_indices(ostack, k - 1)[j]);
                            assert(old_sel[j].spec_selection_step(top_indices(ostack, k - 1)[j], old_sel[j + 1]));
                        }
                    }
                    assert(Self::selections(top_indices(ostack, k), sel));
                } else {
                    sel = seq![*self];
                    assert(Self::selections(top_indices(ostack, 0), sel));
                    assert(pre.spec_same_position(*old(self)));
                }
                first = false;
                assert(self.listener.redo_stack@ =~= old(self).listener.redo_stack@.subrange(
                    0,
                    self.listener.redo_stack@.len() as int,
                ));
                assert(index == top_indices(ostack, sel.len() as int)[sel.len() - 1]);
            }
            if index >= self.option_count() {
                return false;
            }
            let ghost pre_select = *self;
            self.select_and_apply_option(index);
            proof {
                assert(sel.last() == pre_select);
                assert(pre_select.spec_selection_step(index, *self));
            }
            if self.is_pending_effect() {
                break;
            }
        }
        let ghost k = sel.len() as int;
        let ghost sel_all = sel.push(*self);
        proof {
            assert forall|j: int| 0 <= j < k implies #[trigger] sel_all[j].spec_selection_step(
                top_indices(ostack, k)[j],
                sel_all[j + 1],
            ) by {
                if j < k - 1 {
                    assert(sel_all[j] == sel[j] && sel_all[j + 1] == sel[j + 1]);
                    assert(top_indices(ostack, k)[j] == top_indices(ostack, k - 1)[j]);
                    assert(sel[j].spec_selection_step(top_indices(ostack, k - 1)[j], sel[j + 1]));
                }
            }
            assert(Self::selections(top_indices(ostack, k), sel_all));
        }
        // apply the effects
        let ghost stack_after = self.listener.redo_stack@;
        let ghost mut eff: Seq<Self> = seq![*self];
        let ghost mut last_before: Self = *self;
        let ghost mut last_next: Option<T::EffectType> = None;
        loop
            invariant_except_break
                self.spec_is_pending_effect(),
                eff.last() == *self,
            invariant
                self.spec_num_players() == old(self).spec_num_players(),
                self.listener.redo_stack@ == stack_after,
                eff.len() >= 1,
                eff[0] == sel_all.last(),
                forall|j: int| 0 <= j < eff.len() - 1 ==> #[trigger] eff[j].spec_effect_step(eff[j + 1]),
            ensures
                eff.last() == last_before,
                last_before.spec_is_pending_effect(),
                last_before.spec_effect().spec_applies(last_before.spec_data(), self.data, None),
                last_before.spec_num_players() == self.num_players,
            decreases self.spec_effect_bound(),
        {
            let ghost b = *self;
            let effect = self.take_effect();
            let ghost d0 = self.data;
            let next = effect.apply(&mut self.data);
            self.listener.redo_effect(effect);
            let ghost nx = next;
            match next {
                Some(next) => {
                    self.state = InternalState::PEffect(next);
                    proof {
                        assert(effect == b.spec_effect());
                        assert(b.spec_effect().spec_applies(b.spec_data(), self.spec_data(), nx));
                        assert(b.spec_effect_step(*self));
                        let old_eff = eff;
                        eff = eff.push(*self);
                        assert forall|j: int| 0 <= j < eff.len() - 1 implies #[trigger] eff[j].spec_effect_step(eff[j + 1]) by {
                            if j < old_eff.len() - 1 {
                                assert(eff[j] == old_eff[j] && eff[j + 1] == old_eff[j + 1]);
                            }
                        }
                    }
                },
                None => {
                    proof {
                        last_before = b;
                        assert(effect == b.spec_effect());
                    }
                    break;
                },
            }
        }
        self.state = self.fetch_next_state();
        proof {
            assert(self.spec_follows_data());
            assert(last_before.spec_effect().spec_applies(last_before.spec_data(), self.spec_data(), None));
            assert(last_before.spec_effect_applied(*self));
            let old_eff = eff;
            eff = eff.push(*self);
            assert forall|j: int| 0 <= j < eff.len() - 1 implies #[trigger] eff[j].spec_effect_step(eff[j + 1]) by {
                if j < old_eff.len() - 1 {
                    assert(eff[j] == old_eff[j] && eff[j + 1] == old_eff[j + 1]);
                }
            }
            assert(Self::effects_chain(eff));
            assert(ostack.len() - self.listener.redo_stack@.len() == k);
        }
        true
    }
}

impl<T: GameData, L: EventListener<T>> Engine<T, L> {
    /// The engine is in a valid state.
    pub closed spec fn wf(&self) -> bool {
        !(self.state is Invalid)
    }

    /// An engine is in exactly one of its states.
    pub proof fn lemma_exclusive_states(&self)
        ensures
            self.spec_is_pending_effect() ==> !self.spec_is_pending_decision() && !self.spec_is_finished(),
            self.spec_is_pending_decision() ==> !self.spec_is_finished(),
            self.wf() ==> self.spec_is_pending_effect() || self.spec_is_pending_decision() || self.spec_is_finished(),
    {
    }

    pub closed spec fn spec_is_pending_effect(&self) -> bool {
        self.state is PEffect
    }

    pub closed spec fn spec_is_pending_decision(&self) -> bool {
        self.state is PDecision
    }

    pub closed spec fn spec_is_finished(&self) -> bool {
        self.state is Finished
    }

    /// 0 for a pending effect, 1 for a pending decision and 2 for a finished
    /// game.
    pub open spec fn spec_state_kind(&self) -> int {
        if self.spec_is_pending_effect() {
            0
        } else if self.spec_is_pending_decision() {
            1
        } else {
            2
        }
    }

    /// The number of pending follow-up decisions above the top-level decision.
    pub closed spec fn spec_level(&self) -> nat {
        match self.state {
            InternalState::PDecision(_, stack) => stack@.len(),
            _ => 0,
        }
    }

    /// The waiting decision and the follow-up decisions above it, from the
    /// top-level decision up, while a decision waits.
    pub closed spec fn spec_decisions(&self) -> Seq<T::DecisionType> {
        match self.state {
            InternalState::PDecision(bottom, stack) => seq![bottom] + stack@,
            _ => Seq::empty(),
        }
    }

    /// A decision waits at the same place of the same chain of decisions,
    /// for the same data.
    pub open spec fn spec_same_decisions(&self, other: Self) -> bool {
        &&& self.spec_is_pending_decision()
        &&& other.spec_is_pending_decision()
        &&& self.spec_decisions() == other.spec_decisions()
        &&& self.spec_data() == other.spec_data()
        &&& self.spec_num_players() == other.spec_num_players()
    }

    /// The waiting decision is the last of the chain, at its level.
    pub proof fn lemma_decisions(&self)
        requires
            self.spec_is_pending_decision(),
        ensures
            self.spec_decisions().len() == self.spec_level() + 1,
            self.spec_decision() == self.spec_decisions().last(),
    {
    }

    /// A selection step that leads to a decision depends on the engine after
    /// it only through its chain of decisions and its data.
    pub proof fn lemma_selection_to_same(a: Self, index: usize, b: Self, b2: Self)
        requires
            a.spec_selection_step(index, b),
            b.spec_same_decisions(b2),
        ensures
            a.spec_selection_step(index, b2),
    {
        b.lemma_decisions();
        b2.lemma_decisions();
        let o = choose|o: Outcome<T::DecisionType, T::EffectType>| #[trigger] a.spec_decision().spec_selects(
            a.spec_data(),
            index,
            o,
        ) && match o {
            Outcome::Effect(e) => b.spec_is_pending_effect() && b.spec_effect() == e,
            Outcome::FollowUp(d) => b.spec_is_pending_decision() && b.spec_decision() == d
                && b.spec_level() == a.spec_level() + 1,
        };
        b.lemma_exclusive_states();
    }

    /// A selection step depends on the engine before it only through its
    /// chain of decisions and its data.
    pub proof fn lemma_selection_from_same(a: Self, a2: Self, index: usize, b: Self)
        requires
            a.spec_selection_step(index, b),
            a.spec_same_decisions(a2),
        ensures
            a2.spec_selection_step(index, b),
    {
        a.lemma_decisions();
        a2.lemma_decisions();
    }

    /// The decision that waits for a selection.
    pub closed spec fn spec_decision(&self) -> T::DecisionType {
        match self.state {
            InternalState::PDecision(bottom, stack) => if stack@.len() > 0 {
                stack@.last()
            } else {
                bottom
            },
            _ => arbitrary(),
        }
    }

    pub open spec fn spec_option_count(&self) -> nat {
        self.spec_decision().spec_option_count()
    }

    pub open spec fn spec_player(&self) -> nat {
        self.spec_decision().spec_player()
    }

    /// A bound on the number of effects that follow the pending one.
    pub closed spec fn spec_effect_bound(&self) -> nat {
        match self.state {
            InternalState::PEffect(e) => e.spec_chain_bound(),
            _ => 0,
        }
    }

    pub closed spec fn spec_data(&self) -> T {
        self.data
    }

    /// The effect that waits to be applied.
    pub closed spec fn spec_effect(&self) -> T::EffectType {
        match self.state {
            InternalState::PEffect(e) => e,
            _ => arbitrary(),
        }
    }

    /// What selecting option `index` of the pending decision gives: the
    /// outcome that the decision gives for the data, that is a pending
    /// effect, or a follow-up decision one level up.  The data stays.
    pub open spec fn spec_selected(&self, index: usize, after: Self) -> bool {
        &&& after.spec_data() == self.spec_data()
        &&& after.spec_num_players() == self.spec_num_players()
        &&& exists|o: Outcome<T::DecisionType, T::EffectType>| #[trigger] self.spec_decision().spec_selects(
            self.spec_data(),
            index,
            o,
        ) && match o {
            Outcome::Effect(e) => after.spec_is_pending_effect() && after.spec_effect() == e,
            Outcome::FollowUp(d) => after.spec_is_pending_decision() && after.spec_decision() == d
                && after.spec_level() == self.spec_level() + 1,
        }
    }

    /// A pending effect is applied, from `self` to `after`.
    pub open spec fn spec_effect_step(&self, after: Self) -> bool {
        self.spec_is_pending_effect() && self.spec_effect_applied(after)
    }

    /// Selecting option `index` of a pending decision that has it, from
    /// `self` to `after`.
    pub open spec fn spec_selection_step(&self, index: usize, after: Self) -> bool {
        &&& self.spec_is_pending_decision()
        &&& index < self.spec_option_count()
        &&& self.spec_selected(index, after)
    }

    /// The engines `chain` come from `chain[0]` by selecting the options of
    /// `path` in turn, each of them an option of a pending decision.
    pub open spec fn selections(path: Seq<usize>, chain: Seq<Self>) -> bool {
        &&& chain.len() == path.len() + 1
        &&& forall|j: int| 0 <= j < path.len() ==> #[trigger] chain[j].spec_selection_step(path[j], chain[j + 1])
    }

    /// The same state and data, whatever the listener heard.
    pub closed spec fn spec_same_position(&self, other: Self) -> bool {
        &&& self.state == other.state
        &&& self.data == other.data
        &&& self.num_players == other.num_players
    }

    /// A selection step depends on the engine after it only through its
    /// state and data.
    pub proof fn lemma_selection_position(a: Self, index: usize, b: Self, b2: Self)
        requires
            a.spec_selection_step(index, b),
            b.spec_same_position(b2),
        ensures
            a.spec_selection_step(index, b2),
    {
    }

    /// The pending effects are applied in turn through the engines `chain`,
    /// until the engine goes on with what the data asks for next.
    pub open spec fn effects_chain(chain: Seq<Self>) -> bool {
        &&& chain.len() >= 2
        &&& forall|j: int| 0 <= j < chain.len() - 1 ==> #[trigger] chain[j].spec_effect_step(chain[j + 1])
        &&& chain.last().spec_follows_data()
    }

    /// What applying the pending effect gives: the effect changes the data
    /// and yields the next pending effect, or the engine goes on with what
    /// the data asks for next.
    pub open spec fn spec_effect_applied(&self, after: Self) -> bool {
        &&& after.spec_num_players() == self.spec_num_players()
        &&& exists|next: Option<T::EffectType>| #[trigger] self.spec_effect().spec_applies(
            self.spec_data(),
            after.spec_data(),
            next,
        ) && match next {
            Some(e) => after.spec_is_pending_effect() && after.spec_effect() == e,
            None => after.spec_follows_data(),
        }
    }

    /// The state is what the data asks for next: the game is finished when
    /// the data has no decision, and otherwise the data's decision waits at
    /// the top level.
    pub open spec fn spec_follows_data(&self) -> bool {
        match self.spec_data().spec_next_decision() {
            None => self.spec_is_finished(),
            Some(d) => self.spec_is_pending_decision() && self.spec_level() == 0 && self.spec_decision() == d,
        }
    }

    pub closed spec fn spec_listener(&self) -> L {
        self.listener
    }

    pub closed spec fn spec_num_players(&self) -> usize {
        self.num_players
    }

    pub fn with_listener(num_players: usize, data: T, listener: L) -> (r: Self)
        ensures
            r.wf(),
            r.spec_num_players() == num_players,
            r.spec_listener() == listener,
            r.spec_is_finished() || (r.spec_is_pending_decision() && r.spec_level() == 0),
            r.spec_data() == data,
            r.spec_follows_data(),
    {
        let mut result = Self { state: InternalState::Invalid, data, listener, num_players };
        result.state = result.fetch_next_state();
        result
    }

    pub fn data(&self) -> (r: &T)
        ensures
            *r == self.spec_data(),
    {
        &self.data
    }

    pub fn num_players(&self) -> (r: usize)
        ensures
            r == self.spec_num_players(),
    {
        self.num_players
    }

    pub fn is_finished(&self) -> (r: bool)
        ensures
            r == self.spec_is_finished(),
    {
        match self.state {
            InternalState::Finished => true,
            _ => false,
        }
    }

    pub fn is_pending_effect(&self) -> (r: bool)
        ensures
            r == self.spec_is_pending_effect(),
    {
        match self.state {
            InternalState::PEffect(_) => true,
            _ => false,
        }
    }

    pub fn is_pending_decision(&self) -> (r: bool)
        ensures
            r == self.spec_is_pending_decision(),
    {
        match self.state {
            InternalState::PDecision(_, _) => true,
            _ => false,
        }
    }

    /// The decision that waits for a selection, if any.
    pub fn get_decision(&self) -> (r: Option<&T::DecisionType>)
        ensures
            self.spec_is_pending_decision() ==> r == Some(&self.spec_decision()),
            !self.spec_is_pending_decision() ==> r is None,
    {
        match &self.state {
            InternalState::PDecision(bottom, stack) => {
                if stack.len() > 0 {
                    Some(&stack[stack.len() - 1])
                } else {
                    Some(bottom)
                }
            },
            _ => None,
        }
    }

    fn fetch_next_state(&self) -> (r: InternalState<T>)
        ensures
            r is Finished || (r matches InternalState::PDecision(_, stack) && stack@.len() == 0),
            match self.data.spec_next_decision() {
                None => r is Finished,
                Some(d) => r matches InternalState::PDecision(b, stack) && b == d && stack@.len() == 0,
            },
    {
        match self.data.next_decision() {
            Some(decision) => InternalState::PDecision(decision, Vec::new()),
            None => InternalState::Finished,
        }
    }

    fn take_effect(&mut self) -> (r: T::EffectType)
        requires
            old(self).spec_is_pending_effect(),
        ensures
            final(self).state is Invalid,
            r == old(self).spec_effect(),
            r.spec_chain_bound() == old(self).spec_effect_bound(),
            final(self).data == old(self).data,
            final(self).listener == old(self).listener,
            final(self).num_players == old(self).num_players,
    {
        let mut state = InternalState::Invalid;
        std::mem::swap(&mut state, &mut self.state);
        match state {
            InternalState::PEffect(effect) => effect,
            _ => vstd::pervasive::unreached(),
        }
    }

    fn decision(&self) -> (r: &T::DecisionType)
        requires
            self.spec_is_pending_decision(),
        ensures
            *r == self.spec_decision(),
    {
        match &self.state {
            InternalState::PDecision(bottom, stack) => {
                if stack.len() > 0 {
                    &stack[stack.len() - 1]
                } else {
                    bottom
                }
            },
            _ => vstd::pervasive::unreached(),
        }
    }

    fn select_and_apply_option(&mut self, index: usize)
        requires
            old(self).spec_is_pending_decision(),
            index < old(self).spec_option_count(),
        ensures
            final(self).spec_is_pending_decision() ==> final(self).spec_level() == old(self).spec_level() + 1,
            !final(self).spec_is_pending_decision() ==> final(self).spec_is_pending_effect(),
            final(self).listener == old(self).listener,
            final(self).num_players == old(self).num_players,
            old(self).spec_selected(index, *final(self)),
            final(self).spec_is_pending_decision() ==> final(self).spec_decisions() == old(self).spec_decisions().push(
                final(self).spec_decision(),
            ),
    {
        let ghost d = self.spec_decision();
        let outcome = self.decision().select_option(&self.data, index);
        let ghost o = outcome;
        match outcome {
            Outcome::Effect(effect) => {
                self.state = InternalState::PEffect(effect);
            },
            Outcome::FollowUp(decision) => {
                match &mut self.state {
                    InternalState::PDecision(_, stack) => {
                        stack.push(decision);
                    },
                    _ => {},
                }
            },
        }
        proof {
            assert(old(self).spec_decision().spec_selects(old(self).spec_data(), index, o));
        }
    }

    /// Selects an option of the pending decision.  The result is either a
    /// pending effect or a follow-up decision.
    pub fn select_option(&mut self, index: usize)
        requires
            old(self).spec_is_pending_decision(),
            index < old(self).spec_option_count(),
        ensures
            final(self).wf(),
            final(self).spec_is_pending_decision() ==> final(self).spec_level() == old(self).spec_level() + 1,
            !final(self).spec_is_pending_decision() ==> final(self).spec_is_pending_effect(),
            final(self).spec_num_players() == old(self).spec_num_players(),
            old(self).spec_selected(index, *final(self)),
            old(self).spec_listener().spec_on_option(index, old(self).spec_player() as usize, final(self).spec_listener()),
            final(self).spec_is_pending_decision() ==> final(self).spec_decisions() == old(self).spec_decisions().push(
                final(self).spec_decision(),
            ),
    {
        let player = self.player();
        self.select_and_apply_option(index);
        self.listener.option_selected(index, player);
    }

    pub fn option_count(&self) -> (r: usize)
        requires
            self.spec_is_pending_decision(),
        ensures
            r == self.spec_option_count(),
    {
        self.decision().option_count()
    }

    pub fn player(&self) -> (r: usize)
        requires
            self.spec_is_pending_decision(),
        ensures
            r == self.spec_player(),
    {
        self.decision().player()
    }

    /// The context of the waiting decision.
    pub fn context(&self) -> (r: T::Context)
        requires
            self.spec_is_pending_decision(),
        ensures
            self.spec_decision().spec_context_of(&self.spec_data(), r),
    {
        self.decision().context(&self.data)
    }

    /// The number of pending follow-up decisions.
    pub fn level_in_chain(&self) -> (r: usize)
        requires
            self.spec_is_pending_decision(),
        ensures
            r == self.spec_level(),
    {
        match &self.state {
            InternalState::PDecision(_, stack) => stack.len(),
            _ => 0,
        }
    }

    /// Retracts from `n` follow-up decisions.  Returns whether this was
    /// possible, which is the case if and only if `n` is at most the number
    /// of pending follow-up decisions; otherwise nothing changes.
    pub fn retract_n(&mut self, n: usize) -> (r: bool)
        requires
            old(self).spec_is_pending_decision(),
        ensures
            final(self).wf(),
            final(self).spec_is_pending_decision(),
            r == (n <= old(self).spec_level()),
            r ==> final(self).spec_level() == old(self).spec_level() - n,
            !r ==> final(self).spec_level() == old(self).spec_level(),
            final(self).spec_num_players() == old(self).spec_num_players(),
            final(self).spec_data() == old(self).spec_data(),
            r ==> old(self).spec_listener().spec_on_retract(n, final(self).spec_listener()),
            r ==> final(self).spec_decisions() == old(self).spec_decisions().subrange(
                0,
                old(self).spec_decisions().len() - n,
            ),
            !r ==> final(self).spec_listener() == old(self).spec_listener(),
    {
        let len = self.level_in_chain();
        if n <= len {
            match &mut self.state {
                InternalState::PDecision(_, stack) => {
                    stack.truncate(len - n);
                },
                _ => {},
            }
            self.listener.retracted_by_n(n);
            true
        } else {
            false
        }
    }

    /// Retracts from all follow-up decisions.
    pub fn retract_all(&mut self)
        requires
            old(self).spec_is_pending_decision(),
        ensures
            final(self).wf(),
            final(self).spec_is_pending_decision(),
            final(self).spec_level() == 0,
            final(self).spec_num_players() == old(self).spec_num_players(),
            final(self).spec_data() == old(self).spec_data(),
            old(self).spec_listener().spec_on_retract(old(self).spec_level() as usize, final(self).spec_listener()),
    {
        let len = self.level_in_chain();
        self.listener.retracted_by_n(len);
        match &mut self.state {
            InternalState::PDecision(_, stack) => {
                stack.clear();
            },
            _ => {},
        }
    }

    /// Applies the pending effect.  Returns true if a further effect is
    /// pending; otherwise the engine continues with the next decision.
    pub fn next_effect(&mut self) -> (r: bool)
        requires
            old(self).spec_is_pending_effect(),
        ensures
            final(self).wf(),
            r ==> final(self).spec_is_pending_effect() && final(self).spec_effect_bound() < old(self).spec_effect_bound(),
            !r ==> final(self).spec_is_finished() || (final(self).spec_is_pending_decision() && final(self).spec_level() == 0),
            !r ==> final(self).spec_follows_data(),
            final(self).spec_num_players() == old(self).spec_num_players(),
            old(self).spec_effect_applied(*final(self)),
            old(self).spec_listener().spec_on_effect(old(self).spec_effect(), final(self).spec_listener()),
    {
        let ghost e0 = self.spec_effect();
        let effect = self.take_effect();
        let ghost d0 = self.data;
        let next = effect.apply(&mut self.data);
        proof {
            assert(effect == e0);
            assert(d0 == old(self).spec_data());
            assert(e0.spec_applies(old(self).spec_data(), self.data, next));
        }
        self.listener.effect_applied(effect);
        let ghost nx = next;
        match next {
            Some(next) => {
                self.state = InternalState::PEffect(next);
                assert(nx == Some(next));
                assert(e0.spec_applies(old(self).spec_data(), self.spec_data(), nx));
                true
            },
            None => {
                self.state = self.fetch_next_state();
                false
            },
        }
    }

    /// Applies all pending effects.
    pub fn all_effects(&mut self)
        requires
            old(self).spec_is_pending_effect(),
        ensures
            final(self).wf(),
            final(self).spec_is_finished() || (final(self).spec_is_pending_decision() && final(self).spec_level() == 0),
            final(self).spec_follows_data(),
            final(self).spec_num_players() == old(self).spec_num_players(),
            exists|chain: Seq<Self>| #[trigger] Self::effects_chain(chain) && chain[0] == *old(self) && chain.last()
                == *final(self),
    {
        let ghost mut chain: Seq<Self> = seq![*self];
        loop
            invariant_except_break
                self.spec_is_pending_effect(),
            invariant
                self.wf(),
                self.spec_num_players() == old(self).spec_num_players(),
                chain.len() >= 1,
                chain[0] == *old(self),
                chain.last() == *self,
                forall|j: int| 0 <= j < chain.len() - 1 ==> #[trigger] chain[j].spec_effect_step(chain[j + 1]),
            ensures
                self.spec_is_finished() || (self.spec_is_pending_decision() && self.spec_level() == 0),
                self.spec_follows_data(),
                chain.len() >= 2,
                chain[0] == *old(self),
                chain.last() == *self,
                forall|j: int| 0 <= j < chain.len() - 1 ==> #[trigger] chain[j].spec_effect_step(chain[j + 1]),
            decreases self.spec_effect_bound(),
        {
            let ghost before = *self;
            let more = self.next_effect();
            proof {
                let old_chain = chain;
                chain = chain.push(*self);
                assert forall|j: int| 0 <= j < chain.len() - 1 implies #[trigger] chain[j].spec_effect_step(chain[j + 1]) by {
                    if j < old_chain.len() - 1 {
                        assert(chain[j] == old_chain[j] && chain[j + 1] == old_chain[j + 1]);
                    } else {
                        assert(chain[j] == before);
                    }
                }
            }
            if !more {
                break;
            }
        }
        proof {
            assert(Self::effects_chain(chain));
        }
    }
}

impl<T: GameData + Clone, L: EventListener<T>> Engine<T, L> {
    /// A copy of the engine with a different listener.  Only possible in a
    /// pending top-level decision or after the game finished.
    pub fn try_clone_with_listener<M: EventListener<T>>(&self, listener: M) -> (r: Result<Engine<T, M>, CloneError>)
        requires
            self.wf(),
        ensures
            self.spec_is_pending_effect() ==> r == Err::<Engine<T, M>, CloneError>(CloneError::PendingEffect),
            self.spec_is_pending_decision() && self.spec_level() > 0 ==> r == Err::<Engine<T, M>, CloneError>(CloneError::FollowUp),
            self.spec_is_pending_decision() && self.spec_level() == 0 ==> (r matches Ok(e) && e.wf()
                && e.spec_num_players() == self.spec_num_players() && e.spec_listener() == listener
                && (e.spec_is_finished() || (e.spec_is_pending_decision() && e.spec_level() == 0))),
            self.spec_is_finished() ==> (r matches Ok(e) && e.wf() && e.spec_is_finished()
                && e.spec_num_players() == self.spec_num_players() && e.spec_listener() == listener),
            r matches Ok(e) ==> vstd::pervasive::cloned(self.spec_data(), e.spec_data()),
            r matches Ok(e) ==> (self.spec_is_pending_decision() ==> (match self.spec_data().spec_next_decision() {
                None => e.spec_is_finished(),
                Some(d) => e.spec_is_pending_decision() && e.spec_level() == 0 && e.spec_decision() == d,
            })),
    {
        let state = match &self.state {
            InternalState::PEffect(_) => {
                return Err(CloneError::PendingEffect);
            },
            InternalState::PDecision(_, stack) => {
                if stack.len() == 0 {
                    self.fetch_next_state()
                } else {
                    return Err(CloneError::FollowUp);
                }
            },
            InternalState::Finished => InternalState::Finished,
            InternalState::Invalid => InternalState::Invalid,
        };
        Ok(Engine { state, data: self.data.clone(), listener, num_players: self.num_players })
    }

    /// A copy of the engine with a copy of its listener.  Only possible in
    /// a pending top-level decision or after the game finished.
    pub fn try_clone(&self) -> (r: Result<Self, CloneError>)
        where
            L: Clone,
        requires
            self.wf(),
        ensures
            self.spec_is_pending_effect() ==> r == Err::<Self, CloneError>(CloneError::PendingEffect),
            self.spec_is_pending_decision() && self.spec_level() > 0 ==> r == Err::<Self, CloneError>(CloneError::FollowUp),
            (self.spec_is_finished() || (self.spec_is_pending_decision() && self.spec_level() == 0)) ==> (r matches Ok(e) && e.wf()
                && e.spec_num_players() == self.spec_num_players()
                && (e.spec_is_finished() || (e.spec_is_pending_decision() && e.spec_level() == 0))),
    {
        self.try_clone_with_listener(self.listener.clone())
    }

    pub fn try_clone_data(&self) -> (r: Result<Engine<T, NotListening>, CloneError>)
        requires
            self.wf(),
        ensures
            self.spec_is_pending_effect() ==> r == Err::<Engine<T, NotListening>, CloneError>(CloneError::PendingEffect),
            self.spec_is_pending_decision() && self.spec_level() > 0 ==> r == Err::<Engine<T, NotListening>, CloneError>(CloneError::FollowUp),
            (self.spec_is_finished() || (self.spec_is_pending_decision() && self.spec_level() == 0)) ==> (r matches Ok(e) && e.wf()
                && e.spec_num_players() == self.spec_num_players()),
    {
        self.try_clone_with_listener(NotListening {})
    }
}

} // verus!
