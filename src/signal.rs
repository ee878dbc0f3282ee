//! The capability set that the evaluator needs from a signal value.
use vstd::prelude::*;

verus! {

/// A one-bit value that the evaluator can combine without inspecting it.
///
/// `decode` is the plain boolean that a value stands for. It is a
/// specification-only notion: an encrypted bit has one, though no code can
/// read it. Every operation agrees with boolean logic under `decode`.
pub trait Signal: Sized {
    spec fn decode(&self) -> bool;

    fn and(&self, other: &Self) -> (r: Self)
        ensures
            r.decode() == (self.decode() && other.decode()),
    ;

    fn or(&self, other: &Self) -> (r: Self)
        ensures
            r.decode() == (self.decode() || other.decode()),
    ;

    fn xor(&self, other: &Self) -> (r: Self)
        ensures
            r.decode() == (self.decode() != other.decode()),
    ;

    fn not(&self) -> (r: Self)
        ensures
            r.decode() == !self.decode(),
    ;

    /// A second value that stands for the same bit.
    fn duplicate(&self) -> (r: Self)
        ensures
            r.decode() == self.decode(),
    ;

    /// The text under which the value is shown.
    fn render(&self) -> String;
}

/// The plain signal: a boolean stands for itself.
impl Signal for bool {
    open spec fn decode(&self) -> bool {
        *self
    }

    fn and(&self, other: &bool) -> (r: bool) {
        *self && *other
    }

    fn or(&self, other: &bool) -> (r: bool) {
        *self || *other
    }

    fn xor(&self, other: &bool) -> (r: bool) {
        *self != *other
    }

    fn not(&self) -> (r: bool) {
        !*self
    }

    fn duplicate(&self) -> (r: bool) {
        *self
    }

    fn render(&self) -> String {
        if *self {
            String::from_str("true")
        } else {
            String::from_str("false")
        }
    }
}

/// The plain values that a sequence of signals stands for.
pub open spec fn decoded<T: Signal>(s: Seq<T>) -> Seq<bool> {
    s.map_values(|x: T| x.decode())
}

} // verus!
