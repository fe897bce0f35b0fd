use vstd::prelude::*;

verus! {

/// Values that may be handed to a task as its context or argument: they give
/// the task no way to observe tracked state except through the graph and
/// its cells.
pub trait DepGraphSafe {

}

/// A pair is safe when both parts are.
impl<A: DepGraphSafe, B: DepGraphSafe> DepGraphSafe for (A, B) {

}

/// The unit value carries nothing.
impl DepGraphSafe for () {

}

impl<'a, T: DepGraphSafe> DepGraphSafe for &'a T {

}

impl DepGraphSafe for usize {

}

impl DepGraphSafe for u64 {

}

/// Asserts that the wrapped value is safe to hand to a task. Each use should
/// say why.
pub struct AssertDepGraphSafe<T>(pub T);

impl<T> DepGraphSafe for AssertDepGraphSafe<T> {

}

} // verus!
