//! A single twist applied to a generalized Reed–Solomon code.
use vstd::prelude::*;

use crate::field::Field;

verus! {

/// One twist `(t, h, η)` of a twisted generalized Reed–Solomon code.
///
/// A twist maps the free message coefficient `f_h` (the *hook*) onto the
/// higher monomial `x^{k-1+t}` scaled by `η`. In the twisted polynomial space
/// every codeword polynomial carries `η · f_h` at degree `k-1+t` in addition to
/// its free coefficients `f_0, …, f_{k-1}`.
///
/// The offset `t` and hook `h` are validated against a concrete code by
/// `TgrsCode::new`; `Twist` itself only stores the triple.
#[derive(Clone, Copy, Debug, PartialEq, Eq)]
pub struct Twist<F: Field> {
    /// The degree offset `t`.
    pub offset: usize,
    /// The hook `h`.
    pub hook: usize,
    /// The twist coefficient `η`.
    pub coefficient: F,
}

impl<F: Field> Twist<F> {
    /// Construct a twist from its degree offset `t`, hook `h`, and coefficient
    /// `η`.
    pub fn new(offset: usize, hook: usize, coefficient: F) -> (r: Self)
        ensures
            r.offset == offset,
            r.hook == hook,
            r.coefficient == coefficient,
    {
        Twist { offset, hook, coefficient }
    }

    /// The degree offset `t`, placing the twist term at degree `k-1+t`.
    pub fn offset(&self) -> (r: usize)
        ensures
            r == self.offset,
    {
        self.offset
    }

    /// The hook `h`, the message coefficient this twist copies.
    pub fn hook(&self) -> (r: usize)
        ensures
            r == self.hook,
    {
        self.hook
    }

    /// The twist coefficient `η`.
    pub fn coefficient(&self) -> (r: F)
        ensures
            r == self.coefficient,
    {
        self.coefficient
    }
}

} // verus!
