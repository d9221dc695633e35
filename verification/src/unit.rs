//! The capability every processing unit offers to a network, and the two
//! units the network itself needs.

use vstd::prelude::*;
use crate::sample::Sample;
use crate::signal::{Signal, Tag, silent_signal};

verus! {

/// Number of samples each channel of a block buffer holds.
pub const MAX_BUFFER_SIZE: usize = 64;

/// Sample `j` of every channel of a block.
pub open spec fn frame<T>(block: Seq<Vec<T>>, j: int) -> Seq<T> {
    Seq::new(block.len(), |c: int| block[c]@[j])
}

/// The first `n` samples of a block, as one frame per sample.
pub open spec fn frames<T>(block: Seq<Vec<T>>, n: nat) -> Seq<Seq<T>> {
    Seq::new(n, |j: int| frame(block, j))
}

/// Every channel of the block holds at least `size` samples.
pub open spec fn holds<T>(block: Seq<Vec<T>>, size: nat) -> bool {
    forall|c: int| 0 <= c < block.len() ==> (#[trigger] block[c]).len() >= size
}

/// The two blocks have the same channels of the same lengths.
pub open spec fn same_shape<T>(a: Seq<Vec<T>>, b: Seq<Vec<T>>) -> bool {
    &&& a.len() == b.len()
    &&& forall|c: int| 0 <= c < a.len() ==> (#[trigger] a[c]).len() == b[c].len()
}

/// A processing unit with a fixed number of input and output channels.
///
/// A unit is described by its response: the frame it puts out for the last
/// frame of a history of input frames that it is fed from its present
/// state on. Running the unit moves its state along the history.
///
/// The functions that describe a unit have bodies that say nothing, so
/// that a unit written in plain Rust need not state them. Such a unit is
/// taken on trust to behave as some response would have it: the same
/// state and the same inputs give the same outputs.
pub trait AudioUnit48<T: Sample, R: Sample> {
    /// The unit is fit to run. A unit that never says otherwise always is.
    open spec fn valid(&self) -> bool {
        true
    }

    /// Number of input channels.
    open spec fn inputs_spec(&self) -> nat {
        arbitrary()
    }

    /// Number of output channels.
    open spec fn outputs_spec(&self) -> nat {
        arbitrary()
    }

    /// The output frame for the last frame of `history`.
    open spec fn response(&self, history: Seq<Seq<T>>) -> Seq<T> {
        arbitrary()
    }

    /// The response the unit has once it has been reset.
    open spec fn response_after_reset(&self, sample_rate: Option<R>, history: Seq<Seq<T>>) -> Seq<T> {
        arbitrary()
    }

    /// The response the unit has once the parameter has been set.
    open spec fn response_after_set(&self, parameter: Tag, value: R, history: Seq<Seq<T>>) -> Seq<T> {
        arbitrary()
    }

    /// The value of a parameter, where the unit has it.
    open spec fn param(&self, parameter: Tag) -> Option<R> {
        arbitrary()
    }

    /// The descriptors of the outputs, given those of the inputs.
    open spec fn route_spec(&self, input: Seq<Signal<R>>, frequency: R) -> Seq<Signal<R>> {
        arbitrary()
    }

    fn inputs(&self) -> (n: usize)
        requires
            self.valid(),
        ensures
            n == self.inputs_spec(),
    ;

    fn outputs(&self) -> (n: usize)
        requires
            self.valid(),
        ensures
            n == self.outputs_spec(),
    ;

    /// Return to the initial state, optionally with a new sample rate.
    fn reset(&mut self, sample_rate: Option<R>)
        requires
            old(self).valid(),
        ensures
            final(self).valid(),
            final(self).inputs_spec() == old(self).inputs_spec(),
            final(self).outputs_spec() == old(self).outputs_spec(),
            forall|h: Seq<Seq<T>>|
                h.len() > 0 ==> #[trigger] final(self).response(h) == old(
                    self,
                ).response_after_reset(sample_rate, h),
    ;

    /// Process one sample.
    fn tick(&mut self, input: &Vec<T>, output: &mut Vec<T>)
        requires
            old(self).valid(),
            input.len() == old(self).inputs_spec(),
            old(output).len() == old(self).outputs_spec(),
        ensures
            final(self).valid(),
            final(self).inputs_spec() == old(self).inputs_spec(),
            final(self).outputs_spec() == old(self).outputs_spec(),
            final(output)@ == old(self).response(seq![input@]),
            final(output).len() == old(output).len(),
            forall|h: Seq<Seq<T>>|
                h.len() > 0 ==> #[trigger] final(self).response(h) == old(self).response(
                    seq![input@] + h,
                ),
    ;

    /// Process the first `size` samples of a block.
    fn process(&mut self, size: usize, input: &Vec<Vec<T>>, output: &mut Vec<Vec<T>>)
        requires
            old(self).valid(),
            size <= MAX_BUFFER_SIZE,
            input.len() == old(self).inputs_spec(),
            old(output).len() == old(self).outputs_spec(),
            holds(input@, size as nat),
            holds(old(output)@, size as nat),
        ensures
            final(self).valid(),
            final(self).inputs_spec() == old(self).inputs_spec(),
            final(self).outputs_spec() == old(self).outputs_spec(),
            same_shape(final(output)@, old(output)@),
            forall|j: int|
                0 <= j < size ==> #[trigger] frame(final(output)@, j) == old(self).response(
                    frames(input@, (j + 1) as nat),
                ),
            forall|h: Seq<Seq<T>>|
                h.len() > 0 ==> #[trigger] final(self).response(h) == old(self).response(
                    frames(input@, size as nat) + h,
                ),
    ;

    /// Describe the outputs at one frequency, given descriptors of the inputs.
    fn route(&self, input: &Vec<Signal<R>>, frequency: R) -> (output: Vec<Signal<R>>)
        requires
            self.valid(),
            input.len() == self.inputs_spec(),
        ensures
            output@ == self.route_spec(input@, frequency),
            output.len() == self.outputs_spec(),
    ;

    /// Set a parameter. A unit ignores a parameter it does not have.
    fn set(&mut self, parameter: Tag, value: R)
        requires
            old(self).valid(),
        ensures
            final(self).valid(),
            final(self).inputs_spec() == old(self).inputs_spec(),
            final(self).outputs_spec() == old(self).outputs_spec(),
            forall|h: Seq<Seq<T>>|
                h.len() > 0 ==> #[trigger] final(self).response(h) == old(
                    self,
                ).response_after_set(parameter, value, h),
    ;

    /// Read a parameter.
    fn get(&self, parameter: Tag) -> (value: Option<R>)
        requires
            self.valid(),
        ensures
            value == self.param(parameter),
    ;
}

/// Holds a unit that a vertex owns.
///
/// A boxed unit that is moved into a field or an argument of its own type
/// passes a conversion, after which Verus no longer knows it for the same
/// unit. Inside this wrapper it is moved as it is.
pub struct Owned<U>(pub U);

/// Copy the first `size` samples of `source` into `target`.
pub fn copy_block<T: Copy>(target: &mut Vec<T>, source: &Vec<T>, size: usize)
    requires
        old(target).len() >= size,
        source.len() >= size,
    ensures
        final(target).len() == old(target).len(),
        forall|j: int| 0 <= j < size ==> final(target)@[j] == source@[j],
        forall|j: int| size <= j < old(target).len() ==> final(target)@[j] == old(target)@[j],
{
    let mut j: usize = 0;
    while j < size
        invariant
            j <= size,
            target.len() == old(target).len(),
            target.len() >= size,
            source.len() >= size,
            forall|k: int| 0 <= k < j ==> target@[k] == source@[k],
            forall|k: int| j <= k < target.len() ==> target@[k] == old(target)@[k],
        decreases size - j,
    {
        target[j] = source[j];
        j += 1;
    }
}

/// Set the first `size` samples of `target` to `value`.
pub fn fill_block<T: Copy>(target: &mut Vec<T>, value: T, size: usize)
    requires
        old(target).len() >= size,
    ensures
        final(target).len() == old(target).len(),
        forall|j: int| 0 <= j < size ==> final(target)@[j] == value,
        forall|j: int| size <= j < old(target).len() ==> final(target)@[j] == old(target)@[j],
{
    let mut j: usize = 0;
    while j < size
        invariant
            j <= size,
            target.len() == old(target).len(),
            target.len() >= size,
            forall|k: int| 0 <= k < j ==> target@[k] == value,
            forall|k: int| j <= k < target.len() ==> target@[k] == old(target)@[k],
        decreases size - j,
    {
        target[j] = value;
        j += 1;
    }
}

/// Create a frame of `channels` silent samples.
pub fn new_frame<T: Sample>(channels: usize) -> (samples: Vec<T>)
    ensures
        samples@ == Seq::new(channels as nat, |c: int| T::zero_spec()),
{
    let mut samples: Vec<T> = Vec::new();
    let mut c: usize = 0;
    while c < channels
        invariant
            c <= channels,
            samples@ == Seq::new(c as nat, |k: int| T::zero_spec()),
        decreases channels - c,
    {
        samples.push(T::zero());
        c += 1;
        assert(samples@ =~= Seq::new(c as nat, |k: int| T::zero_spec()));
    }
    samples
}

/// Create a silent block of `channels` channels of `MAX_BUFFER_SIZE` samples.
pub fn new_block<T: Sample>(channels: usize) -> (block: Vec<Vec<T>>)
    ensures
        block.len() == channels,
        forall|c: int|
            0 <= c < channels ==> (#[trigger] block@[c])@ == Seq::new(
                MAX_BUFFER_SIZE as nat,
                |j: int| T::zero_spec(),
            ),
{
    let mut block: Vec<Vec<T>> = Vec::new();
    let mut c: usize = 0;
    while c < channels
        invariant
            c <= channels,
            block.len() == c,
            forall|k: int|
                0 <= k < c ==> (#[trigger] block@[k])@ == Seq::new(
                    MAX_BUFFER_SIZE as nat,
                    |j: int| T::zero_spec(),
                ),
        decreases channels - c,
    {
        block.push(new_frame(MAX_BUFFER_SIZE));
        c += 1;
    }
    block
}

/// A unit that hands each input channel on unchanged.
pub struct Pass {
    pub channels: usize,
}

/// Create a unit that passes one channel through.
pub fn pass() -> (unit: Pass)
    ensures
        unit.channels == 1,
{
    Pass { channels: 1 }
}

/// Create a unit that passes `channels` channels through.
pub fn multipass(channels: usize) -> (unit: Pass)
    ensures
        unit.channels == channels,
{
    Pass { channels }
}

impl<T: Sample, R: Sample> AudioUnit48<T, R> for Pass {
    open spec fn inputs_spec(&self) -> nat {
        self.channels as nat
    }

    open spec fn outputs_spec(&self) -> nat {
        self.channels as nat
    }

    open spec fn response(&self, history: Seq<Seq<T>>) -> Seq<T> {
        history.last()
    }

    open spec fn response_after_reset(&self, sample_rate: Option<R>, history: Seq<Seq<T>>) -> Seq<
        T,
    > {
        history.last()
    }

    open spec fn response_after_set(&self, parameter: Tag, value: R, history: Seq<Seq<T>>) -> Seq<
        T,
    > {
        history.last()
    }

    open spec fn param(&self, parameter: Tag) -> Option<R> {
        None
    }

    open spec fn route_spec(&self, input: Seq<Signal<R>>, frequency: R) -> Seq<Signal<R>> {
        input
    }

    fn inputs(&self) -> (n: usize) {
        self.channels
    }

    fn outputs(&self) -> (n: usize) {
        self.channels
    }

    fn reset(&mut self, sample_rate: Option<R>) {
    }

    fn tick(&mut self, input: &Vec<T>, output: &mut Vec<T>) {
        let n = self.channels;
        copy_block(output, input, n);
        assert(output@ =~= input@);
        assert(seq![input@].last() == input@);
        assert forall|h: Seq<Seq<T>>| h.len() > 0 implies (seq![input@] + h).last() == h.last() by {}
    }

    fn process(&mut self, size: usize, input: &Vec<Vec<T>>, output: &mut Vec<Vec<T>>) {
        let mut c: usize = 0;
        while c < self.channels
            invariant
                c <= self.channels,
                input.len() == self.channels,
                output.len() == self.channels,
                holds(input@, size as nat),
                same_shape(output@, old(output)@),
                holds(old(output)@, size as nat),
                forall|k: int, j: int|
                    0 <= k < c && 0 <= j < size ==> #[trigger] output@[k]@[j] == input@[k]@[j],
            decreases self.channels - c,
        {
            let ghost before = output@;
            copy_block(&mut output[c], &input[c], size);
            assert(forall|k: int| 0 <= k < output.len() && k != c ==> output@[k] == before[k]);
            c += 1;
        }
        assert forall|j: int| 0 <= j < size implies #[trigger] frame(output@, j) == frames(
            input@,
            (j + 1) as nat,
        ).last() by {
            assert(frame(output@, j) =~= frame(input@, j));
        }
        assert forall|h: Seq<Seq<T>>| h.len() > 0 implies (frames(input@, size as nat) + h).last()
            == h.last() by {}
    }

    fn route(&self, input: &Vec<Signal<R>>, frequency: R) -> (output: Vec<Signal<R>>) {
        let mut output: Vec<Signal<R>> = Vec::new();
        let mut c: usize = 0;
        while c < input.len()
            invariant
                c <= input.len(),
                input.len() == self.channels,
                output@ == input@.take(c as int),
            decreases input.len() - c,
        {
            output.push(input[c]);
            c += 1;
            assert(output@ =~= input@.take(c as int));
        }
        assert(input@.take(c as int) =~= input@);
        output
    }

    fn set(&mut self, parameter: Tag, value: R) {
    }

    fn get(&self, parameter: Tag) -> (value: Option<R>) {
        None
    }
}

/// A unit that swallows its inputs and puts out silence.
pub struct Silence {
    pub inputs: usize,
    pub outputs: usize,
}

impl<T: Sample, R: Sample> AudioUnit48<T, R> for Silence {
    open spec fn inputs_spec(&self) -> nat {
        self.inputs as nat
    }

    open spec fn outputs_spec(&self) -> nat {
        self.outputs as nat
    }

    open spec fn response(&self, history: Seq<Seq<T>>) -> Seq<T> {
        Seq::new(self.outputs as nat, |c: int| T::zero_spec())
    }

    open spec fn response_after_reset(&self, sample_rate: Option<R>, history: Seq<Seq<T>>) -> Seq<
        T,
    > {
        Seq::new(self.outputs as nat, |c: int| T::zero_spec())
    }

    open spec fn response_after_set(&self, parameter: Tag, value: R, history: Seq<Seq<T>>) -> Seq<
        T,
    > {
        Seq::new(self.outputs as nat, |c: int| T::zero_spec())
    }

    open spec fn param(&self, parameter: Tag) -> Option<R> {
        None
    }

    open spec fn route_spec(&self, input: Seq<Signal<R>>, frequency: R) -> Seq<Signal<R>> {
        Seq::new(self.outputs as nat, |c: int| silent_signal::<R>())
    }

    fn inputs(&self) -> (n: usize) {
        self.inputs
    }

    fn outputs(&self) -> (n: usize) {
        self.outputs
    }

    fn reset(&mut self, sample_rate: Option<R>) {
    }

    fn tick(&mut self, input: &Vec<T>, output: &mut Vec<T>) {
        let n = self.outputs;
        fill_block(output, T::zero(), n);
        assert(output@ =~= Seq::new(self.outputs as nat, |c: int| T::zero_spec()));
    }

    fn process(&mut self, size: usize, input: &Vec<Vec<T>>, output: &mut Vec<Vec<T>>) {
        let mut c: usize = 0;
        while c < self.outputs
            invariant
                c <= self.outputs,
                output.len() == self.outputs,
                same_shape(output@, old(output)@),
                holds(old(output)@, size as nat),
                forall|k: int, j: int|
                    0 <= k < c && 0 <= j < size ==> #[trigger] output@[k]@[j] == T::zero_spec(),
            decreases self.outputs - c,
        {
            let ghost before = output@;
            fill_block(&mut output[c], T::zero(), size);
            assert(forall|k: int| 0 <= k < output.len() && k != c ==> output@[k] == before[k]);
            c += 1;
        }
        assert forall|j: int| 0 <= j < size implies #[trigger] frame(output@, j) == Seq::new(
            self.outputs as nat,
            |c: int| T::zero_spec(),
        ) by {
            assert(frame(output@, j) =~= Seq::new(self.outputs as nat, |c: int| T::zero_spec()));
        }
    }

    fn route(&self, input: &Vec<Signal<R>>, frequency: R) -> (output: Vec<Signal<R>>) {
        let mut output: Vec<Signal<R>> = Vec::new();
        let mut c: usize = 0;
        while c < self.outputs
            invariant
                c <= self.outputs,
                output@ == Seq::new(c as nat, |k: int| silent_signal::<R>()),
            decreases self.outputs - c,
        {
            output.push(Signal::Value(R::zero()));
            c += 1;
            assert(output@ =~= Seq::new(c as nat, |k: int| silent_signal::<R>()));
        }
        output
    }

    fn set(&mut self, parameter: Tag, value: R) {
    }

    fn get(&self, parameter: Tag) -> (value: Option<R>) {
        None
    }
}

} // verus!
