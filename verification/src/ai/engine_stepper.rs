use vstd::prelude::*;
use crate::ai::rater::IndexType;
use crate::ai::algorithm::MinMaxError;
use crate::game::trait_definitions::{Decision, GameData};
use crate::game::engine::LoggingEngine;
use crate::game::engine::logging::{data_undone, undone};

verus! {

/// Making the move `path` from the engine `s` leads to the engine `c`: the
/// options of `path` are selected in turn and then the pending effects are
/// applied; `cc` is the context of the last decision of the move with its
/// selected option.
pub open spec fn move_made<T: GameData>(
    s: LoggingEngine<T>,
    path: Seq<IndexType>,
    c: LoggingEngine<T>,
    cc: (T::Context, usize),
) -> bool {
    &&& path.len() > 0
    &&& cc.1 == path.last() as usize
    &&& exists|sel: Seq<LoggingEngine<T>>, eff: Seq<LoggingEngine<T>>| #[trigger] selection_chain(path, sel)
        && #[trigger] LoggingEngine::<T>::effects_chain(eff) && sel[0] == s && sel.last() == eff[0] && eff.last() == c
        && sel[path.len() - 1].spec_decision().spec_context_of(&sel[path.len() - 1].spec_data(), cc.0)
}

/// The engines `chain` come from `chain[0]` by selecting the options of
/// `path` in turn, each of them an option of a pending decision.
pub open spec fn selection_chain<T: GameData>(path: Seq<IndexType>, chain: Seq<LoggingEngine<T>>) -> bool {
    &&& chain.len() == path.len() + 1
    &&& forall|j: int| 0 <= j < path.len() ==> #[trigger] chain[j].spec_selection_step(path[j] as usize, chain[j + 1])
}

/// Steps a logging engine forward by complete moves (a top-level decision
/// with all its follow-up decisions and effects) and back by undoing them,
/// remembering the context of the last decision of each move.
#[verifier::reject_recursive_types(T)]
pub struct EngineStepper<'a, T: GameData> {
    pub engine: &'a mut LoggingEngine<T>,
    pub decision_context: Vec<(T::Context, usize)>,
}

impl<'a, T: GameData> EngineStepper<'a, T> {
    /// The engine is at the start of a move or the game is over.
    pub open spec fn at_move_start(&self) -> bool {
        &&& self.engine.wf()
        &&& self.engine.spec_is_finished() || (self.engine.spec_is_pending_decision() && self.engine.spec_level() == 0)
    }

    /// The contexts of the moves made so far, with the selected indices.
    pub closed spec fn spec_decision_context(&self) -> Seq<(T::Context, usize)> {
        self.decision_context@
    }

    pub fn new(engine: &'a mut LoggingEngine<T>) -> (r: Self)
        ensures
            *r.engine == *old(engine),
            *final(r.engine) == *final(engine),
            r.spec_decision_context().len() == 0,
    {
        Self { engine, decision_context: Vec::new() }
    }

    /// Makes a move: selects the given options and applies all effects.
    /// Fails if an option does not exist or the selections do not end in an
    /// effect.
    pub fn forward_step(&mut self, indizes: &Vec<IndexType>) -> (r: Result<(), MinMaxError>)
        requires
            old(self).at_move_start(),
        ensures
            final(self).engine.wf(),
            r is Ok ==> final(self).at_move_start() && final(self).spec_decision_context().len()
                == old(self).spec_decision_context().len() + 1 && final(self).spec_decision_context().subrange(
                0,
                old(self).spec_decision_context().len() as int,
            ) == old(self).spec_decision_context(),
            r is Err ==> r == Err::<(), MinMaxError>(MinMaxError::InvalidGame),
            r is Ok ==> indizes@.len() > 0 && final(self).spec_decision_context().last().1 == indizes@.last() as usize,
            r is Ok ==> move_made(*old(self).engine, indizes@, *final(self).engine, final(self).spec_decision_context().last()),
            old(self).engine.spec_is_finished() || indizes@.len() == 0 ==> r is Err,
            r is Err ==> final(self).spec_decision_context() == old(self).spec_decision_context(),
            old(self).engine.spec_is_pending_decision() && indizes@.len() > 0 && indizes@[0] >= old(self).engine.spec_option_count()
                ==> r is Err && *final(self).engine == *old(self).engine,
            r is Ok ==> exists|sel: Seq<LoggingEngine<T>>, eff: Seq<LoggingEngine<T>>| #[trigger] selection_chain(indizes@, sel)
                && #[trigger] LoggingEngine::<T>::effects_chain(eff) && sel[0] == *old(self).engine && sel.last() == eff[0]
                && eff.last() == *final(self).engine && sel[indizes@.len() - 1].spec_decision().spec_context_of(
                &sel[indizes@.len() - 1].spec_data(),
                final(self).spec_decision_context().last().0,
            ),
    {
        let n = indizes.len();
        let mut chosen: Option<(T::Context, usize)> = None;
        let mut i: usize = 0;
        let ghost mut sel: Seq<LoggingEngine<T>> = seq![*self.engine];
        while i < n
            invariant
                sel.len() == i + 1,
                sel[0] == *old(self).engine,
                sel.last() == *self.engine,
                forall|j: int| 0 <= j < i ==> #[trigger] sel[j].spec_selection_step(indizes@[j] as usize, sel[j + 1]),
                i == 0 ==> *self.engine == *old(self).engine,
                i > 0 ==> indizes@[0] < old(self).engine.spec_option_count(),
                chosen matches Some(c) ==> i == n && sel[n - 1].spec_decision().spec_context_of(&sel[n - 1].spec_data(), c.0),
                self.engine.wf(),
                i <= n,
                n == indizes@.len(),
                self.decision_context@ == old(self).decision_context@,
                i == 0 ==> self.at_move_start(),
                i > 0 ==> chosen is Some || i < n,
                i == n && n > 0 ==> chosen is Some,
                chosen matches Some(c) ==> n > 0 && c.1 == indizes@[n - 1] as usize,
                i == 0 ==> self.engine.spec_is_finished() == old(self).engine.spec_is_finished(),
                i > 0 ==> !old(self).engine.spec_is_finished(),
            decreases n - i,
        {
            if !self.engine.is_pending_decision() {
                return Err(MinMaxError::InvalidGame);
            }
            proof {
                self.engine.lemma_exclusive_states();
            }
            let index = indizes[i] as usize;
            if index >= self.engine.option_count() {
                return Err(MinMaxError::InvalidGame);
            }
            if i + 1 == n {
                chosen = Some((self.engine.context(), index));
            }
            let ghost before = *self.engine;
            self.engine.select_option(index);
            proof {
                let old_sel = sel;
                sel = sel.push(*self.engine);
                assert forall|j: int| 0 <= j < i + 1 implies #[trigger] sel[j].spec_selection_step(
                    indizes@[j] as usize,
                    sel[j + 1],
                ) by {
                    if j < i {
                        assert(sel[j] == old_sel[j] && sel[j + 1] == old_sel[j + 1]);
                    } else {
                        assert(sel[j] == before);
                        assert(indizes@[j] as usize == index);
                    }
                }
            }
            i += 1;
        }
        proof {
            assert(selection_chain(indizes@, sel));
        }
        if !self.engine.is_pending_effect() {
            return Err(MinMaxError::InvalidGame);
        }
        self.engine.all_effects();
        match chosen {
            Some(c) => {
                self.decision_context.push(c);
                assert(self.decision_context@.subrange(0, old(self).decision_context@.len() as int)
                    =~= old(self).decision_context@);
                Ok(())
            },
            None => Err(MinMaxError::InvalidGame),
        }
    }

    /// Takes back the last move and returns its context.
    pub fn backward_step(&mut self) -> (r: Result<(T::Context, usize), MinMaxError>)
        requires
            old(self).engine.wf(),
        ensures
            final(self).engine.wf(),
            r is Ok ==> final(self).at_move_start() && old(self).spec_decision_context().len() > 0
                && final(self).spec_decision_context() == old(self).spec_decision_context().drop_last()
                && r->Ok_0 == old(self).spec_decision_context().last(),
            r is Err ==> r == Err::<(T::Context, usize), MinMaxError>(MinMaxError::InvalidGame),
            r is Ok ==> undone(old(self).engine.spec_listener(), final(self).engine.spec_listener(), true)
                && data_undone(old(self).engine.spec_listener().log@, old(self).engine.spec_data(), final(self).engine.spec_data()),
    {
        let ctx = self.decision_context.pop();
        match ctx {
            Some(c) => {
                if !self.engine.undo_last_decision() {
                    return Err(MinMaxError::InvalidGame);
                }
                Ok(c)
            },
            None => Err(MinMaxError::InvalidGame),
        }
    }

    pub fn is_finished(&self) -> (r: bool)
        ensures
            r == old(self.engine).spec_is_finished(),
    {
        self.engine.is_finished()
    }

    pub fn decision_context(&self) -> (r: &Vec<(T::Context, usize)>)
        ensures
            r@ == self.spec_decision_context(),
    {
        &self.decision_context
    }

    pub fn engine(&mut self) -> (r: &mut LoggingEngine<T>)
        ensures
            *r == *old(self).engine,
            *final(r) == *final(self).engine,
            final(self).spec_decision_context() == old(self).spec_decision_context(),
    {
        &mut self.engine
    }

    pub fn data(&self) -> (r: &T)
        ensures
            *r == old(self.engine).spec_data(),
    {
        self.engine.data()
    }

    /// The player of the pending decision.
    pub fn player(&mut self) -> (r: Result<usize, MinMaxError>)
        requires
            old(self).engine.wf(),
        ensures
            *final(self) == *old(self),
            old(self).engine.spec_is_pending_decision() ==> (r matches Ok(p) && p == old(self).engine.spec_player()),
            !old(self).engine.spec_is_pending_decision() ==> r == Err::<usize, MinMaxError>(MinMaxError::InvalidGame),
    {
        if self.engine.is_pending_decision() {
            Ok(self.engine.player())
        } else {
            Err(MinMaxError::InvalidGame)
        }
    }
}

} // verus!
