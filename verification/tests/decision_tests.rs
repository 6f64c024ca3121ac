use tgp::game::decision_impl::lazy_decision::{LazyDecision, MapByEffect, MapByOutcome, MapToVecContext, OptionEffect, OptionOutcome};
use tgp::game::decision_impl::mapped_decision::{MappedDecision, MappedDecisionImpl, MapToEffect};
use tgp::game::decision_impl::plain_decision::{FollowUp, PlainDecision, PlainOption};
use tgp::game::decision_impl::vec_context::VecContext;
use tgp::game::decision_impl::vec_decision::VecDecision;
use tgp::game::trait_definitions::{Decision, Effect, Outcome, RevEffect};

#[derive(Debug, Clone, PartialEq, Eq)]
struct Data {
    value: i32,
}

#[derive(Debug, Clone, Copy, PartialEq, Eq)]
struct Shift(i32);

impl Effect<Data> for Shift {
    fn apply(&self, data: &mut Data) -> Option<Self> {
        data.value += self.0;
        None
    }
}

impl RevEffect<Data> for Shift {
    fn undo(&self, data: &mut Data) {
        data.value -= self.0;
    }
}

#[test]
fn vec_context_holds_one_element_per_option() {
    let mut context: VecContext<char, u8> = VecContext::with_inner(7);
    assert!(context.is_empty());
    context.push('a');
    context.push('b');
    assert_eq!(context.len(), 2);
    assert_eq!(*context.get(1), 'b');
    assert_eq!(*context.inner(), 7);
    context.data().push('c');
    assert_eq!(context.as_slice(), &['a', 'b', 'c']);
    assert_eq!(context.into_vec(), vec!['a', 'b', 'c']);
    let other: VecContext<u32, u8> = VecContext::new();
    assert_eq!(other.len(), 0);
    let data = VecContext::with_data(vec![1, 2], ());
    assert_eq!(data.len(), 2);
}

/// A follow-up that offers the negated shifts of the data's value.
struct Negate;

impl FollowUp<Data, PlainDecision<Data, Shift, &'static str, Negate>> for Negate {
    fn make(&self, data: &Data) -> PlainDecision<Data, Shift, &'static str, Negate> {
        let mut dec = PlainDecision::with_context(1, "negate");
        dec.add_effect(Shift(-data.value));
        dec
    }
}

#[test]
fn plain_decision_selects_effects_and_follow_ups() {
    let mut dec: PlainDecision<Data, Shift, &'static str, Negate> = PlainDecision::with_context(0, "start");
    assert!(dec.is_empty());
    dec.add_effect(Shift(3));
    dec.add_follow_up(Negate);
    dec.add_option(PlainOption::Effect(Shift(5)));
    assert_eq!(dec.len(), 3);
    assert_eq!(*dec.context_ref(), "start");
    *dec.context_mut() = "changed";
    let data = Data { value: 4 };
    assert_eq!(dec.option_count(), 3);
    assert_eq!(dec.player(), 0);
    assert_eq!(dec.context(&data), "changed");
    match dec.select_option(&data, 0) {
        Outcome::Effect(e) => assert_eq!(e, Shift(3)),
        _ => panic!("expected an effect"),
    }
    match dec.select_option(&data, 1) {
        Outcome::FollowUp(f) => {
            assert_eq!(f.player(), 1);
            match f.select_option(&data, 0) {
                Outcome::Effect(e) => assert_eq!(e, Shift(-4)),
                _ => panic!("expected an effect"),
            }
        }
        _ => panic!("expected a follow-up"),
    }
    let empty: PlainDecision<Data, Shift, u32, Negate2> = PlainDecision::new(3);
    assert_eq!(empty.len(), 0);
}

struct Negate2;

impl FollowUp<Data, PlainDecision<Data, Shift, u32, Negate2>> for Negate2 {
    fn make(&self, _data: &Data) -> PlainDecision<Data, Shift, u32, Negate2> {
        PlainDecision::new(0)
    }
}

struct NoFollow;

impl FollowUp<Data, VecDecision<Data, Shift, i32, (), NoFollow>> for NoFollow {
    fn make(&self, _data: &Data) -> VecDecision<Data, Shift, i32, (), NoFollow> {
        VecDecision::new(0)
    }
}

#[test]
fn vec_decision_keeps_a_context_element_per_option() {
    let mut dec: VecDecision<Data, Shift, i32, (), NoFollow> = VecDecision::new(1);
    dec.add_effect(Shift(1), 10);
    dec.add_rev_effect(Shift(2), 20);
    dec.add_follow_up(NoFollow, 30);
    assert_eq!(dec.len(), 3);
    assert_eq!(dec.context_ref().as_slice(), &[10, 20, 30]);
    let data = Data { value: 0 };
    assert_eq!(Decision::<Data, Shift, VecContext<i32, ()>>::option_count(&dec), 3);
    match dec.select_option(&data, 1) {
        Outcome::Effect(e) => assert_eq!(e, Shift(2)),
        _ => panic!("expected an effect"),
    }
    let with_inner: VecDecision<Data, Shift, i32, u8, NoFollow2> = VecDecision::with_inner(2, 9);
    assert_eq!(*with_inner.context_ref().inner(), 9);
}

struct NoFollow2;

impl FollowUp<Data, VecDecision<Data, Shift, i32, u8, NoFollow2>> for NoFollow2 {
    fn make(&self, _data: &Data) -> VecDecision<Data, Shift, i32, u8, NoFollow2> {
        VecDecision::with_inner(0, 0)
    }
}

/// Shifts by the element times the inner factor.
struct Scaled;

impl OptionEffect<i32, i32, Shift> for Scaled {
    fn effect(&self, inner: &i32, element: &i32) -> Shift {
        Shift(inner * element)
    }
}

type Lazy = LazyDecision<Data, MapByEffect<Scaled>, MapToVecContext, VecContext<i32, i32>>;

#[test]
fn lazy_decision_computes_outcomes() {
    let dec: Lazy = LazyDecision::with_inner(1, Scaled, 3).add_option(2).add_option(5);
    assert_eq!(dec.context_ref().len(), 2);
    let data = Data { value: 0 };
    assert_eq!(Decision::<Data, Shift, VecContext<i32, i32>>::option_count(&dec), 2);
    assert_eq!(Decision::<Data, Shift, VecContext<i32, i32>>::player(&dec), 1);
    match Decision::<Data, Shift, VecContext<i32, i32>>::select_option(&dec, &data, 1) {
        Outcome::Effect(e) => assert_eq!(e, Shift(15)),
        _ => panic!("expected an effect"),
    }
    let context: VecContext<i32, i32> = Decision::<Data, Shift, VecContext<i32, i32>>::context(&dec, &data);
    assert_eq!(context.as_slice(), &[2, 5]);
}

#[test]
fn mapped_decision_maps_elements_to_effects() {
    let mut builder: MappedDecision<Data, i32, i32> = MappedDecision::with_inner(0, 2);
    builder.add_option(4);
    builder.add_option(6);
    assert_eq!(builder.len(), 2);
    assert!(!builder.is_empty());
    builder.context_mut().push(8);
    assert_eq!(builder.context().len(), 3);
    let dec: MappedDecisionImpl<MapToEffect<Scaled>, Data, i32, i32> = builder.to_effect(Scaled);
    let data = Data { value: 0 };
    assert_eq!(Decision::<Data, Shift, VecContext<i32, i32>>::option_count(&dec), 3);
    match Decision::<Data, Shift, VecContext<i32, i32>>::select_option(&dec, &data, 2) {
        Outcome::Effect(e) => assert_eq!(e, Shift(16)),
        _ => panic!("expected an effect"),
    }
    let plain: MappedDecision<Data, u8, ()> = MappedDecision::new(1);
    assert!(plain.is_empty());
}

/// The outcome of an option is the effect of its element times the inner
/// factor.
struct ScaledOutcome;

impl OptionOutcome<i32, i32, LazyGeneral, Shift> for ScaledOutcome {
    fn outcome(&self, inner: &i32, element: &i32) -> Outcome<LazyGeneral, Shift> {
        Outcome::Effect(Shift(inner * element))
    }
}

type LazyGeneral = LazyDecision<Data, MapByOutcome<ScaledOutcome>, MapToVecContext, VecContext<i32, i32>>;

#[test]
fn lazy_decision_len_and_context_mut() {
    let dec: LazyGeneral = LazyDecision::with_inner_general(0, ScaledOutcome, 2);
    assert!(dec.is_empty());
    let dec = dec.add_option(3);
    assert_eq!(dec.len(), 1);
    assert!(!dec.is_empty());
    let dec = dec.context_mut(|mut c: VecContext<i32, i32>| {
        c.push(7);
        c
    });
    assert_eq!(dec.len(), 2);
    assert_eq!(Decision::<Data, Shift, VecContext<i32, i32>>::option_count(&dec), 2);
    let data = Data { value: 0 };
    match Decision::<Data, Shift, VecContext<i32, i32>>::select_option(&dec, &data, 1) {
        Outcome::Effect(e) => assert_eq!(e, Shift(14)),
        _ => panic!("expected an effect"),
    }
}
