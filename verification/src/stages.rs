//! The stages of the fingerprinting pipeline.
//!
//! A stage takes what the stage before it hands over, works on it and hands
//! the result on. The last stage collects the output, and every stage gives
//! access to it through the stages behind it.

use vstd::prelude::*;

verus! {

/// A stage of the pipeline, through which the output of the last stage can
/// be reached.
pub trait Stage {
    /// What the pipeline puts out.
    type Output: ?Sized;

    /// The output of the pipeline so far.
    fn output(&self) -> &Self::Output;
}

impl<C: Stage> Stage for &mut C {
    type Output = C::Output;

    fn output(&self) -> (out: &Self::Output)
        ensures call_ensures(C::output, (&*old(*self),), out),
    {
        (**self).output()
    }
}
impl<S: Stage + ?Sized> Stage for Box<S> {
    type Output = S::Output;
    fn output(&self) -> (out: &Self::Output)
        ensures call_ensures(S::output, (&**self,), out),
    {
        (**self).output()
    }
}
/// A stage that takes audio samples.
pub trait AudioConsumer<T = i16>: Stage {
    /// Forgets what was taken so far.
    fn reset(&mut self);

    /// Takes the next samples of the stream.
    fn consume(&mut self, data: &[T]);

    /// Works off what is still held back at the end of the stream.
    fn flush(&mut self);
}
impl<T, C: AudioConsumer<T> + ?Sized> AudioConsumer<T> for Box<C> {
    fn reset(&mut self) {
        (**self).reset();
    }

    fn consume(&mut self, data: &[T]) {
        (**self).consume(data);
    }

    fn flush(&mut self) {
        (**self).flush();
    }
}

} // verus!
