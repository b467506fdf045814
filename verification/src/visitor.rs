//! Visiting the keys of a container with a caller's function object.

use vstd::prelude::*;

verus! {

/// A function object that is shown one value at a time and answers with the
/// value to put in its place, or with an error.
pub trait Visitor<T, E> {
    /// What one visit may do: a visitor in state `self` that is shown `data`
    /// may give `answer` and be left in state `after`. A visitor that does
    /// not say what it may do may do anything.
    open spec fn may_answer(&self, data: T, after: &Self, answer: Result<T, E>) -> bool {
        true
    }

    fn visit(&mut self, data: &T) -> (answer: Result<T, E>)
        ensures
            old(self).may_answer(*data, final(self), answer),
    ;
}

/// A run of visits without an error: `states` are the states of the visitor
/// before the first visit, between the visits and after the last; at visit
/// `i` the visitor is shown `values[i]` and answers `answers[i]`.
pub open spec fn shown<T, E, V: Visitor<T, E>>(
    states: Seq<V>,
    values: Seq<T>,
    answers: Seq<T>,
) -> bool {
    &&& states.len() == values.len() + 1
    &&& answers.len() == values.len()
    &&& forall|i: int|
        0 <= i < values.len() ==> states[i].may_answer(
            values[i],
            &states[i + 1],
            Ok::<T, E>(#[trigger] answers[i]),
        )
}

/// The visitor was shown every one of `values` in turn, answered each with
/// the value at the same place of `answers`, and went from state `before`
/// to state `after`.
pub open spec fn accepted<T, E, V: Visitor<T, E>>(
    before: V,
    values: Seq<T>,
    after: V,
    answers: Seq<T>,
) -> bool {
    exists|states: Seq<V>|
        shown::<T, E, V>(states, values, answers) && states.first() == before && states.last()
            == after
}

/// The visitor was shown the first of `values` in turn and answered them,
/// until it answered one with `error`; it went from state `before` to state
/// `after`.
pub open spec fn refused<T, E, V: Visitor<T, E>>(
    before: V,
    values: Seq<T>,
    after: V,
    error: E,
) -> bool {
    exists|states: Seq<V>, answers: Seq<T>|
        answers.len() < values.len() && shown::<T, E, V>(
            states,
            values.take(answers.len() as int),
            answers,
        ) && states.first() == before && states.last().may_answer(
            values[answers.len() as int],
            &after,
            Err::<T, E>(error),
        )
}

/// A container that shows each of its values to a visitor and takes the
/// visitor's answers in their place. At the first error the visit ends and
/// the container stays as it was.
pub trait VisitorAcceptor<T, E>: Sized {
    /// What the container must satisfy before and after a visit.
    spec fn ready(&self) -> bool;

    /// The values of the container in the order in which they are shown.
    spec fn values(&self) -> Seq<T>;

    /// This is the container `before` after it took `answers` in place of
    /// its values.
    spec fn took(&self, before: &Self, answers: Seq<T>) -> bool;

    fn accept<V: Visitor<T, E>>(&mut self, visitor: &mut V) -> (done: Result<(), E>)
        requires
            old(self).ready(),
        ensures
            final(self).ready(),
            done.is_ok() ==> exists|answers: Seq<T>|
                accepted::<T, E, V>(*old(visitor), old(self).values(), *final(visitor), answers)
                    && final(self).took(old(self), answers),
            done matches Err(error) ==> *final(self) == *old(self) && refused::<T, E, V>(
                *old(visitor),
                old(self).values(),
                *final(visitor),
                error,
            ),
    ;
}

} // verus!
