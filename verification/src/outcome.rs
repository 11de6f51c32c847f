//! Shared unique-decode outcome for the deformed Reed–Solomon families.
use vstd::prelude::*;

use crate::field::Field;
use crate::polynomial::Polynomial;

verus! {

/// Result of a unique decode.
#[derive(Debug)]
pub enum UniqueDecode<F: Field> {
    /// Exactly one message polynomial (degree `< k`) matched.
    Message(Polynomial<F>),
    /// No codeword lay within the decoding radius.
    NoCandidate,
    /// More than one codeword lay within the decoding radius.
    Ambiguous,
}

impl<F: Field> UniqueDecode<F> {
    /// Classify a decoded list: empty, a single message, or ambiguous.
    pub fn from_list(list: Vec<Polynomial<F>>) -> (r: Self)
        ensures
            list@.len() == 0 ==> r is NoCandidate,
            list@.len() == 1 ==> (r matches UniqueDecode::Message(m) && m@ == list@[0]@),
            list@.len() > 1 ==> r is Ambiguous,
    {
        let mut list = list;
        if list.len() == 0 {
            UniqueDecode::NoCandidate
        } else if list.len() == 1 {
            let message = list.pop().unwrap();
            UniqueDecode::Message(message)
        } else {
            UniqueDecode::Ambiguous
        }
    }

    /// The decoded message polynomial when the decode was unambiguous.
    pub fn message(&self) -> (r: Option<&Polynomial<F>>)
        ensures
            self is Message <==> r is Some,
            r matches Some(m) ==> (self matches UniqueDecode::Message(p) && m == p),
    {
        match self {
            UniqueDecode::Message(polynomial) => Some(polynomial),
            _ => None,
        }
    }

    /// Whether the decode produced exactly one message.
    pub fn is_unique(&self) -> (b: bool)
        ensures
            b == self is Message,
    {
        match self {
            UniqueDecode::Message(_) => true,
            _ => false,
        }
    }
}

} // verus!
