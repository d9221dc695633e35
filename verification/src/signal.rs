//! Abstract descriptors of what is known about a channel when a network is
//! analysed at one frequency.

use vstd::prelude::*;
use crate::sample::Sample;

verus! {

/// Identifies a parameter of a unit.
pub type Tag = i64;

/// What is known about the content of one channel.
#[derive(Clone, Copy, Debug, PartialEq)]
pub enum Signal<R> {
    /// Nothing is known: the channel may carry anything.
    Unknown,
    /// The channel carries this constant.
    Value(R),
}

/// The descriptor of a silent channel.
pub open spec fn silent_signal<R: Sample>() -> Signal<R> {
    Signal::Value(R::zero_spec())
}

/// Create a frame of `size` channels about which nothing is known.
pub fn new_signal_frame<R: Sample>(size: usize) -> (frame: Vec<Signal<R>>)
    ensures
        frame@ == Seq::new(size as nat, |c: int| Signal::<R>::Unknown),
{
    let mut frame: Vec<Signal<R>> = Vec::new();
    let mut c: usize = 0;
    while c < size
        invariant
            c <= size,
            frame@ == Seq::new(c as nat, |k: int| Signal::<R>::Unknown),
        decreases size - c,
    {
        frame.push(Signal::Unknown);
        c += 1;
        assert(frame@ =~= Seq::new(c as nat, |k: int| Signal::<R>::Unknown));
    }
    frame
}

} // verus!
