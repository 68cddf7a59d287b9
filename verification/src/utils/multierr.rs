//! Aggregation of several failures into one value.

use crate::utils::text::{decimal, decimal_string, join, joined, views};
use vstd::prelude::*;

verus! {

/// A container for multiple errors, kept in the order in which they occurred.
#[derive(Debug)]
pub struct MultiError<E> {
    errors: Vec<E>,
}

impl<E> View for MultiError<E> {
    type V = Seq<E>;

    /// The aggregated errors, first failure first.
    closed spec fn view(&self) -> Seq<E> {
        self.errors@
    }
}

/// The display form of an aggregate over the given messages:
/// `Multiple errors occurred (N): e1; e2; ...; eN`.
pub open spec fn multi_error_text(messages: Seq<Seq<char>>) -> Seq<char> {
    "Multiple errors occurred ("@ + decimal(messages.len()) + "): "@ + joined(messages, "; "@)
}

impl<E> MultiError<E> {
    /// Wraps the given errors, first failure first.
    pub fn new(errors: Vec<E>) -> (result: Self)
        ensures
            result@ == errors@,
    {
        Self { errors }
    }

    /// The aggregated errors in order.
    pub fn errors(&self) -> (errors: &[E])
        ensures
            errors@ == self@,
    {
        self.errors.as_slice()
    }

    /// Gives the aggregated errors back, in order.
    pub fn into_errors(self) -> (errors: Vec<E>)
        ensures
            errors@ == self@,
    {
        self.errors
    }

    /// Number of aggregated errors.
    pub fn len(&self) -> (n: usize)
        ensures
            n == self@.len(),
    {
        self.errors.len()
    }

    /// Whether no error was aggregated.
    pub fn is_empty(&self) -> (empty: bool)
        ensures
            empty == (self@.len() == 0),
    {
        self.errors.len() == 0
    }

    /// The cause reported for the aggregate: its first entry, if there is one.
    pub fn source(&self) -> (first: Option<&E>)
        ensures
            self@.len() == 0 ==> first is None,
            self@.len() > 0 ==> first == Some(&self@[0]),
    {
        if self.errors.len() == 0 {
            None
        } else {
            Some(&self.errors[0])
        }
    }
}

impl MultiError<String> {
    /// The display form of the aggregate.
    pub fn message(&self) -> (text: String)
        ensures
            text@ == multi_error_text(views(self@)),
    {
        let mut text = String::from_str("Multiple errors occurred (");
        text.append(decimal_string(self.errors.len()).as_str());
        text.append("): ");
        text.append(join(&self.errors, "; ").as_str());
        assert(views(self@).len() == self@.len());
        text
    }
}

} // verus!
