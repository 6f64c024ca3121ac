use vstd::prelude::*;
use crate::game::trait_definitions::{Effect, GameData, RevEffect};
use crate::game::engine::EventListener;

verus! {

/// An event of the game: an applied effect or a selected option of a
/// decision (index and player).
#[derive(Clone)]
pub enum Event<E> {
    Effect(E),
    Decision(usize, usize),
}

impl<E> Event<E> {
    pub fn is_decision(&self) -> (r: bool)
        ensures
            r == (self is Decision),
    {
        match self {
            Event::Effect(_) => false,
            Event::Decision(_, _) => true,
        }
    }
}

/// The decisions of a game in a form that can be stored: the selected
/// options with their players, and the decisions that can be redone.
#[derive(Debug, Clone, PartialEq, Eq)]
pub struct SerializedLog {
    pub log: Vec<(usize, usize)>,
    /// Attention: redo information is stored in reverse order!
    pub redo_stack: Vec<(usize, usize)>,
}

/// The start of the run of events of the given kind that ends at `end`.
pub open spec fn run_start<E>(s: Seq<Event<E>>, end: int, decisions: bool) -> int
    decreases end,
{
    if end <= 0 {
        0
    } else if (s[end - 1] is Decision) == decisions {
        run_start(s, end - 1, decisions)
    } else {
        end
    }
}

proof fn lemma_run_start_le<E>(s: Seq<Event<E>>, end: int, decisions: bool)
    ensures
        end >= 0 ==> 0 <= run_start(s, end, decisions) <= end,
    decreases end,
{
    if end > 0 {
        lemma_run_start_le(s, end - 1, decisions);
    }
}

/// The selected options (index and player) among the events, in order.
pub open spec fn decisions_of<E>(s: Seq<Event<E>>) -> Seq<(usize, usize)>
    decreases s.len(),
{
    if s.len() == 0 {
        Seq::empty()
    } else {
        let prev = decisions_of(s.drop_last());
        match s.last() {
            Event::Decision(i, p) => prev.push((i, p)),
            Event::Effect(_) => prev,
        }
    }
}

/// What undoing the last decision does to a log: pending selections of
/// follow-up decisions are dropped, then the effects of the last decision,
/// and its selections go to the redo stack; `r` tells whether the log held
/// an effect.  Without an effect nothing can be undone and nothing changes.
pub open spec fn undone<E>(before: EventLog<E>, after: EventLog<E>, r: bool) -> bool {
    let s = before.log@;
    let k1 = run_start(s, s.len() as int, true);
    let k2 = run_start(s, k1, false);
    let k3 = run_start(s, k2, true);
    &&& r == (k1 > 0)
    &&& k1 == 0 ==> after.log@ == before.log@ && after.redo_stack@ == before.redo_stack@
    &&& k1 > 0 ==> after.log@ == s.subrange(0, k3) && after.redo_stack@ == before.redo_stack@ + decisions_of(
        s.subrange(k3, k2),
    ).reverse()
}

/// Undoing the event can turn the data `before` into `after`: an effect is
/// undone, a selection leaves the data.
pub open spec fn event_undone<T, E: RevEffect<T>>(event: Event<E>, before: T, after: T) -> bool {
    match event {
        Event::Effect(e) => e.spec_undoes(before, after),
        Event::Decision(_, _) => after == before,
    }
}

/// Undoing the effects among `events`, the last one first, can turn the
/// data `before` into `after`, through the states `chain`.
pub open spec fn undo_chain<T, E: RevEffect<T>>(events: Seq<Event<E>>, chain: Seq<T>) -> bool {
    &&& chain.len() == events.len() + 1
    &&& forall|i: int| 0 <= i < events.len() ==> #[trigger] event_undone(events[events.len() - 1 - i], chain[i], chain[i + 1])
}

/// Undoing the effects among `events`, the last one first, can turn the
/// data `before` into `after`.
pub open spec fn effects_undone<T, E: RevEffect<T>>(events: Seq<Event<E>>, before: T, after: T) -> bool {
    exists|chain: Seq<T>| #[trigger] undo_chain(events, chain) && chain[0] == before && chain.last() == after
}

/// What undoing the last decision does to the data: the effects of the
/// last decision are undone, the last one first (see `undone`); without
/// an effect in the log the data stays.
pub open spec fn data_undone<T, E: RevEffect<T>>(log: Seq<Event<E>>, before: T, after: T) -> bool {
    let k1 = run_start(log, log.len() as int, true);
    let k2 = run_start(log, k1, false);
    if k1 == 0 {
        after == before
    } else {
        effects_undone(log.subrange(k2, k1), before, after)
    }
}

/// Records all events of a game, so that decisions can be undone and
/// redone.
pub struct EventLog<E> {
    pub log: Vec<Event<E>>,
    pub redo_stack: Vec<(usize, usize)>,
}

impl<E> EventLog<E> {
    pub fn new() -> (r: Self)
        ensures
            r.log@.len() == 0,
            r.redo_stack@.len() == 0,
    {
        Self { log: Vec::new(), redo_stack: Vec::new() }
    }

    /// Records an effect that was applied while redoing a decision.
    pub fn redo_effect(&mut self, effect: E)
        ensures
            final(self).log@ == old(self).log@.push(Event::Effect(effect)),
            final(self).redo_stack@ == old(self).redo_stack@,
    {
        self.log.push(Event::Effect(effect));
    }

    pub fn redo_available(&self) -> (r: bool)
        ensures
            r == (self.redo_stack@.len() > 0),
    {
        self.redo_stack.len() > 0
    }

    /// Takes the next decision to redo.  The event is also pushed to the log
    /// (so don't do this a second time).
    pub fn redo_step(&mut self) -> (r: Option<usize>)
        ensures
            old(self).redo_stack@.len() == 0 ==> r is None && final(self).log@ == old(self).log@
                && final(self).redo_stack@ == old(self).redo_stack@,
            old(self).redo_stack@.len() > 0 ==> {
                let (index, player) = old(self).redo_stack@.last();
                &&& r == Some(index)
                &&& final(self).redo_stack@ == old(self).redo_stack@.drop_last()
                &&& final(self).log@ == old(self).log@.push(Event::Decision(index, player))
            },
    {
        match self.redo_stack.pop() {
            Some((index, player)) => {
                self.log.push(Event::Decision(index, player));
                Some(index)
            },
            None => None,
        }
    }

    /// The selected options of the log and the redo stack.
    pub fn serialized(&self) -> (r: SerializedLog)
        ensures
            r.log@ == decisions_of(self.log@),
            r.redo_stack@ == self.redo_stack@,
    {
        let mut log: Vec<(usize, usize)> = Vec::new();
        let mut k: usize = 0;
        while k < self.log.len()
            invariant
                k <= self.log@.len(),
                log@ == decisions_of(self.log@.subrange(0, k as int)),
            decreases self.log@.len() - k,
        {
            proof {
                assert(self.log@.subrange(0, k + 1).drop_last() =~= self.log@.subrange(0, k as int));
            }
            match &self.log[k] {
                Event::Decision(index, player) => {
                    log.push((*index, *player));
                },
                Event::Effect(_) => {},
            }
            k += 1;
        }
        proof {
            assert(self.log@.subrange(0, k as int) =~= self.log@);
        }
        let mut redo_stack: Vec<(usize, usize)> = Vec::new();
        let mut j: usize = 0;
        while j < self.redo_stack.len()
            invariant
                j <= self.redo_stack@.len(),
                redo_stack@ == self.redo_stack@.subrange(0, j as int),
            decreases self.redo_stack@.len() - j,
        {
            redo_stack.push(self.redo_stack[j]);
            j += 1;
            assert(redo_stack@ =~= self.redo_stack@.subrange(0, j as int));
        }
        assert(redo_stack@ =~= self.redo_stack@);
        SerializedLog { log, redo_stack }
    }

    /// Undoes the last decision: pending selections of follow-up decisions
    /// are dropped, the effects of the last decision are undone in reverse
    /// order and its selections are pushed to the redo stack.  Returns false
    /// if the log holds no effect.
    pub fn undo_last_decision<T>(&mut self, data: &mut T) -> (r: bool)
        where
            E: RevEffect<T>,
        ensures
            undone(*old(self), *final(self), r),
            data_undone(old(self).log@, *old(data), *final(data)),
            !r ==> *final(self) == *old(self) && *final(data) == *old(data),
    {
        let ghost s = self.log@;
        let ghost k1 = run_start(s, s.len() as int, true);
        let ghost k2 = run_start(s, k1, false);
        let ghost k3 = run_start(s, k2, true);
        proof {
            lemma_run_start_le(s, s.len() as int, true);
            lemma_run_start_le(s, k1, false);
            lemma_run_start_le(s, k2, true);
        }
        // find the end of the last effect; pending selections of follow-up
        // decisions come after it
        let mut k: usize = self.log.len();
        while k > 0 && self.log[k - 1].is_decision()
            invariant
                k <= s.len(),
                s == self.log@,
                s == old(self).log@,
                run_start(s, k as int, true) == k1,
                k1 == run_start(s, s.len() as int, true),
                self.redo_stack@ == old(self).redo_stack@,
            decreases k,
        {
            proof {
                lemma_run_start_le(s, (k - 1) as int, true);
            }
            k -= 1;
        }
        if k == 0 {
            proof {
                assert(run_start(s, 0, true) == 0);
            }
            return false;
        }
        proof {
            assert(run_start(s, k as int, true) == k);
        }
        self.log.truncate(k);
        assert(self.log@ =~= s.subrange(0, self.log@.len() as int));
        // undo the effects
        proof {
            assert(s.subrange(k1 as int, k1 as int) =~= Seq::<Event<E>>::empty());
            assert(undo_chain(s.subrange(k1 as int, k1 as int), seq![*data]));
        }
        loop
            invariant
                self.log@ == s.subrange(0, self.log@.len() as int),
                k2 <= self.log@.len() <= k1,
                k1 <= s.len(),
                k1 > 0,
                run_start(s, self.log@.len() as int, false) == k2,
                self.redo_stack@ == old(self).redo_stack@,
                effects_undone(s.subrange(self.log@.len() as int, k1), *old(data), *data),
            ensures
                self.log@ == s.subrange(0, self.log@.len() as int),
                self.log@.len() == k2,
                self.redo_stack@ == old(self).redo_stack@,
                effects_undone(s.subrange(k2, k1), *old(data), *data),
            decreases self.log@.len(),
        {
            let ghost seg = s.subrange(self.log@.len() as int, k1);
            let ghost mid = *data;
            let n = self.log.len();
            if n == 0 || self.log[n - 1].is_decision() {
                proof {
                    if n > 0 {
                        assert(s[n - 1] == self.log@[n - 1]);
                        assert(run_start(s, n as int, false) == n);
                    }
                }
                break;
            }
            proof {
                assert(s[n - 1] == self.log@[n - 1]);
            }
            let event = self.log.pop();
            assert(self.log@ =~= s.subrange(0, self.log@.len() as int));
            proof {
                lemma_run_start_le(s, self.log@.len() as int, false);
            }
            let ghost nseg = s.subrange(self.log@.len() as int, k1);
            proof {
                assert(nseg.drop_first() =~= seg);
                assert(nseg[0] == s[self.log@.len() as int]);
                assert(event == Some(nseg[0]));
            }
            match event {
                Some(Event::Effect(effect)) => {
                    effect.undo(data);
                    assert(nseg[0] == Event::Effect(effect));
                    let ghost chain = choose|chain: Seq<T>| #[trigger] undo_chain(seg, chain) && chain[0] == *old(data)
                        && chain.last() == mid;
                    let ghost chain2 = chain.push(*data);
                    assert forall|i: int| 0 <= i < nseg.len() implies #[trigger] event_undone(
                        nseg[nseg.len() - 1 - i],
                        chain2[i],
                        chain2[i + 1],
                    ) by {
                        if i < seg.len() {
                            assert(nseg[nseg.len() - 1 - i] == seg[seg.len() - 1 - i]);
                            assert(event_undone(seg[seg.len() - 1 - i], chain[i], chain[i + 1]));
                        }
                    }
                    assert(undo_chain(nseg, chain2));
                },
                _ => {
                    assert(false);
                },
            }
        }
        proof {
            assert(s.subrange(k2, k2) =~= Seq::<Event<E>>::empty());
            assert(decisions_of(s.subrange(k2, k2)).reverse() =~= Seq::<(usize, usize)>::empty());
            assert(self.redo_stack@ =~= old(self).redo_stack@ + decisions_of(s.subrange(k2, k2)).reverse());
        }
        // push the decision to the redo stack
        loop
            invariant
                self.log@ == s.subrange(0, self.log@.len() as int),
                k3 <= self.log@.len() <= k2,
                k2 <= k1 <= s.len(),
                k1 > 0,
                run_start(s, self.log@.len() as int, true) == k3,
                self.redo_stack@ == old(self).redo_stack@ + decisions_of(
                    s.subrange(self.log@.len() as int, k2),
                ).reverse(),
            ensures
                self.log@ == s.subrange(0, self.log@.len() as int),
                self.log@.len() == k3,
                self.redo_stack@ == old(self).redo_stack@ + decisions_of(s.subrange(k3, k2)).reverse(),
            decreases self.log@.len(),
        {
            let n = self.log.len();
            if n == 0 || !self.log[n - 1].is_decision() {
                proof {
                    if n > 0 {
                        assert(s[n - 1] == self.log@[n - 1]);
                        assert(run_start(s, n as int, true) == n);
                    }
                }
                break;
            }
            proof {
                assert(s[n - 1] == self.log@[n - 1]);
            }
            let ghost before = self.redo_stack@;
            let event = self.log.pop();
            proof {
                lemma_run_start_le(s, n - 1, true);
            }
            match event {
                Some(Event::Decision(index, player)) => {
                    self.redo_stack.push((index, player));
                    proof {
                        assert(s.subrange(n - 1, k2).drop_first() =~= s.subrange(n as int, k2));
                        lemma_decisions_prepend(s.subrange(n - 1, k2), s.subrange(n as int, k2));
                        assert(s.subrange(n - 1, k2)[0] == s[n - 1]);
                        assert(self.redo_stack@ =~= old(self).redo_stack@ + decisions_of(
                            s.subrange(n - 1, k2),
                        ).reverse());
                    }
                },
                _ => {},
            }
            assert(self.log@ =~= s.subrange(0, self.log@.len() as int));
        }
        true
    }
}

proof fn lemma_decisions_prepend<E>(s: Seq<Event<E>>, rest: Seq<Event<E>>)
    requires
        s.len() > 0,
        rest == s.drop_first(),
    ensures
        decisions_of(s) == match s[0] {
            Event::Decision(i, p) => seq![(i, p)] + decisions_of(rest),
            Event::Effect(_) => decisions_of(rest),
        },
    decreases s.len(),
{
    if s.len() == 1 {
        assert(s.drop_last() =~= Seq::<Event<E>>::empty());
        assert(rest =~= Seq::<Event<E>>::empty());
    } else {
        let p = s.drop_last();
        lemma_decisions_prepend(p, p.drop_first());
        assert(rest.drop_last() =~= p.drop_first());
        assert(rest.last() == s.last());
        match s[0] {
            Event::Decision(i, pl) => {
                assert(seq![(i, pl)] + decisions_of(p.drop_first()) + seq![(0usize, 0usize)].subrange(0, 0)
                    =~= seq![(i, pl)] + decisions_of(p.drop_first()));
                match s.last() {
                    Event::Decision(a, b) => {
                        assert((seq![(i, pl)] + decisions_of(p.drop_first())).push((a, b)) =~= seq![(i, pl)]
                            + decisions_of(p.drop_first()).push((a, b)));
                    },
                    _ => {},
                }
            },
            _ => {},
        }
    }
}

impl<T: GameData> EventListener<T> for EventLog<T::EffectType> {
    /// The effect is recorded; nothing can be redone afterwards.
    closed spec fn spec_on_effect(&self, effect: T::EffectType, after: Self) -> bool {
        after.log@ == self.log@.push(Event::Effect(effect)) && after.redo_stack@.len() == 0
    }

    /// The selection is recorded; nothing can be redone afterwards.
    closed spec fn spec_on_option(&self, index: usize, player: usize, after: Self) -> bool {
        after.log@ == self.log@.push(Event::Decision(index, player)) && after.redo_stack@.len() == 0
    }

    /// The last `n` events are dropped (all of them where there are fewer).
    closed spec fn spec_on_retract(&self, n: usize, after: Self) -> bool {
        &&& after.log@ == self.log@.subrange(0, if n <= self.log@.len() { self.log@.len() - n } else { 0 })
        &&& after.redo_stack@ == self.redo_stack@
    }

    /// Records the effect; nothing can be redone afterwards.
    fn effect_applied(&mut self, effect: T::EffectType)
        ensures
            final(self).log@ == old(self).log@.push(Event::Effect(effect)),
            final(self).redo_stack@.len() == 0,
    {
        self.log.push(Event::Effect(effect));
        self.redo_stack.clear();
    }

    /// Records the selection; nothing can be redone afterwards.
    fn option_selected(&mut self, index: usize, player: usize)
        ensures
            final(self).log@ == old(self).log@.push(Event::Decision(index, player)),
            final(self).redo_stack@.len() == 0,
    {
        self.log.push(Event::Decision(index, player));
        self.redo_stack.clear();
    }

    /// Drops the last `n` events (all of them where there are fewer).
    fn retracted_by_n(&mut self, n: usize)
        ensures
            final(self).log@ == old(self).log@.subrange(
                0,
                if n <= old(self).log@.len() { old(self).log@.len() - n } else { 0 },
            ),
            final(self).redo_stack@ == old(self).redo_stack@,
    {
        let mut k = n;
        while k > 0
            invariant
                self.log@ == old(self).log@.subrange(
                    0,
                    if n - k <= old(self).log@.len() { old(self).log@.len() - (n - k) } else { 0 },
                ),
                self.redo_stack@ == old(self).redo_stack@,
                k <= n,
            decreases k,
        {
            self.log.pop();
            k -= 1;
            assert(self.log@ =~= old(self).log@.subrange(
                0,
                if n - k <= old(self).log@.len() { old(self).log@.len() - (n - k) } else { 0 },
            ));
        }
    }
}

} // verus!
