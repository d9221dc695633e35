use audionet::net::{Net48, NetError, Vertex48};
use audionet::port::{edge, Edge, Port};
use audionet::sample::Sample;
use audionet::signal::{new_signal_frame, Signal, Tag};
use audionet::unit::{
    copy_block, fill_block, multipass, new_block, new_frame, pass, AudioUnit48, Pass, Silence,
    MAX_BUFFER_SIZE,
};

#[derive(Clone, Copy, Debug, PartialEq)]
struct F32(f32);

impl Sample for F32 {
    fn zero() -> Self {
        F32(0.0)
    }
}

#[derive(Clone, Copy, Debug, PartialEq)]
struct F64(f64);

impl Sample for F64 {
    fn zero() -> Self {
        F64(0.0)
    }
}

const GAIN: Tag = 1;
const LEVEL: Tag = 2;

/// Multiplies one channel by a factor, which is its parameter `GAIN`.
struct Gain {
    factor: f32,
}

impl AudioUnit48<F32, F64> for Gain {
    fn inputs(&self) -> usize {
        1
    }

    fn outputs(&self) -> usize {
        1
    }

    fn reset(&mut self, _sample_rate: Option<F64>) {}

    fn tick(&mut self, input: &Vec<F32>, output: &mut Vec<F32>) {
        output[0] = F32(input[0].0 * self.factor);
    }

    fn process(&mut self, size: usize, input: &Vec<Vec<F32>>, output: &mut Vec<Vec<F32>>) {
        for j in 0..size {
            output[0][j] = F32(input[0][j].0 * self.factor);
        }
    }

    fn route(&self, input: &Vec<Signal<F64>>, _frequency: F64) -> Vec<Signal<F64>> {
        match input[0] {
            Signal::Value(x) => vec![Signal::Value(F64(x.0 * self.factor as f64))],
            Signal::Unknown => vec![Signal::Unknown],
        }
    }

    fn set(&mut self, parameter: Tag, value: F64) {
        if parameter == GAIN {
            self.factor = value.0 as f32;
        }
    }

    fn get(&self, parameter: Tag) -> Option<F64> {
        if parameter == GAIN {
            Some(F64(self.factor as f64))
        } else {
            None
        }
    }
}

/// Puts out the sum of all it has been fed, which is its parameter `LEVEL`.
struct Accumulator {
    total: f32,
}

impl AudioUnit48<F32, F64> for Accumulator {
    fn inputs(&self) -> usize {
        1
    }

    fn outputs(&self) -> usize {
        1
    }

    fn reset(&mut self, _sample_rate: Option<F64>) {
        self.total = 0.0;
    }

    fn tick(&mut self, input: &Vec<F32>, output: &mut Vec<F32>) {
        self.total += input[0].0;
        output[0] = F32(self.total);
    }

    fn process(&mut self, size: usize, input: &Vec<Vec<F32>>, output: &mut Vec<Vec<F32>>) {
        for j in 0..size {
            self.total += input[0][j].0;
            output[0][j] = F32(self.total);
        }
    }

    fn route(&self, _input: &Vec<Signal<F64>>, _frequency: F64) -> Vec<Signal<F64>> {
        vec![Signal::Unknown]
    }

    fn set(&mut self, parameter: Tag, value: F64) {
        if parameter == LEVEL {
            self.total = value.0 as f32;
        }
    }

    fn get(&self, parameter: Tag) -> Option<F64> {
        if parameter == LEVEL {
            Some(F64(self.total as f64))
        } else {
            None
        }
    }
}

/// Adds two channels into one.
struct Mix;

impl AudioUnit48<F32, F64> for Mix {
    fn inputs(&self) -> usize {
        2
    }

    fn outputs(&self) -> usize {
        1
    }

    fn reset(&mut self, _sample_rate: Option<F64>) {}

    fn tick(&mut self, input: &Vec<F32>, output: &mut Vec<F32>) {
        output[0] = F32(input[0].0 + input[1].0);
    }

    fn process(&mut self, size: usize, input: &Vec<Vec<F32>>, output: &mut Vec<Vec<F32>>) {
        for j in 0..size {
            output[0][j] = F32(input[0][j].0 + input[1][j].0);
        }
    }

    fn route(&self, input: &Vec<Signal<F64>>, _frequency: F64) -> Vec<Signal<F64>> {
        match (input[0], input[1]) {
            (Signal::Value(a), Signal::Value(b)) => vec![Signal::Value(F64(a.0 + b.0))],
            _ => vec![Signal::Unknown],
        }
    }

    fn set(&mut self, _parameter: Tag, _value: F64) {}

    fn get(&self, _parameter: Tag) -> Option<F64> {
        None
    }
}

fn block_of(channels: &[Vec<f32>]) -> Vec<Vec<F32>> {
    channels
        .iter()
        .map(|channel| {
            let mut samples: Vec<F32> = channel.iter().map(|x| F32(*x)).collect();
            samples.resize(MAX_BUFFER_SIZE, F32(0.0));
            samples
        })
        .collect()
}

/// Input 0 feeds a gain of 2 and an accumulator; the output is their sum.
fn patch() -> Net48<F32, F64> {
    let mut net: Net48<F32, F64> = Net48::new(1, 1);
    let mix = net.add(Box::new(Mix));
    let gain = net.add(Box::new(Gain { factor: 2.0 }));
    let sum = net.add(Box::new(Accumulator { total: 0.0 }));
    net.connect_input(0, gain, 0);
    net.connect_input(0, sum, 0);
    net.connect(gain, 0, mix, 0);
    net.connect(sum, 0, mix, 1);
    net.connect_output(mix, 0, 0);
    net
}

#[test]
fn ticks_agree_with_one_block() {
    let samples = vec![1.0, -2.0, 0.5, 4.0, 3.0];
    let mut by_tick = patch();
    let mut ticked = Vec::new();
    for x in &samples {
        let mut output = vec![F32(0.0)];
        assert_eq!(by_tick.tick(&vec![F32(*x)], &mut output), Ok(()));
        ticked.push(output[0]);
    }
    let mut by_block = patch();
    let input = block_of(&[samples.clone()]);
    let mut output = block_of(&[vec![]]);
    assert_eq!(by_block.process(samples.len(), &input, &mut output), Ok(()));
    assert_eq!(&output[0][..samples.len()], &ticked[..]);
    assert_eq!(ticked, vec![F32(3.0), F32(-5.0), F32(0.5), F32(11.5), F32(12.5)]);
    // Both networks go on alike.
    let mut a = vec![F32(0.0)];
    let mut b = vec![F32(0.0)];
    assert_eq!(by_tick.tick(&vec![F32(1.0)], &mut a), Ok(()));
    assert_eq!(by_block.tick(&vec![F32(1.0)], &mut b), Ok(()));
    assert_eq!(a, b);
    assert_eq!(a, vec![F32(9.5)]);
}

#[test]
fn full_block_agrees_with_ticks() {
    let samples: Vec<f32> = (0..MAX_BUFFER_SIZE).map(|j| j as f32).collect();
    let mut by_tick = patch();
    let mut by_block = patch();
    let input = block_of(&[samples.clone()]);
    let mut output = block_of(&[vec![]]);
    assert_eq!(by_block.process(MAX_BUFFER_SIZE, &input, &mut output), Ok(()));
    for (j, x) in samples.iter().enumerate() {
        let mut frame = vec![F32(0.0)];
        assert_eq!(by_tick.tick(&vec![F32(*x)], &mut frame), Ok(()));
        assert_eq!(frame[0], output[0][j]);
    }
}

#[test]
fn empty_block_changes_nothing() {
    let mut net = patch();
    let input = block_of(&[vec![5.0]]);
    let mut output = block_of(&[vec![7.0, 7.0]]);
    assert_eq!(net.process(0, &input, &mut output), Ok(()));
    assert_eq!(output[0][0], F32(7.0));
    assert_eq!(net.get(LEVEL), Some(F64(0.0)));
}

#[test]
fn block_leaves_later_samples_alone() {
    let mut net: Net48<F32, F64> = Net48::new(1, 3);
    let gain = net.add(Box::new(Gain { factor: 3.0 }));
    net.pipe_input(gain);
    net.connect_output(gain, 0, 0);
    net.join(edge(Port::Global(0), Port::Global(1)));
    let input = block_of(&[vec![1.0, 2.0, 3.0]]);
    let mut output = block_of(&[vec![9.0; 4], vec![9.0; 4], vec![9.0; 4]]);
    assert_eq!(net.process(2, &input, &mut output), Ok(()));
    assert_eq!(&output[0][..4], &[F32(3.0), F32(6.0), F32(9.0), F32(9.0)]);
    assert_eq!(&output[1][..4], &[F32(1.0), F32(2.0), F32(9.0), F32(9.0)]);
    assert_eq!(&output[2][..4], &[F32(0.0), F32(0.0), F32(9.0), F32(9.0)]);
}

#[test]
fn block_on_a_cycle_fails() {
    let mut net: Net48<F32, F64> = Net48::new(1, 1);
    let a = net.add(Box::new(Gain { factor: 1.0 }));
    net.connect(a, 0, a, 0);
    net.pipe_output(a);
    let input = block_of(&[vec![1.0]]);
    let mut output = block_of(&[vec![4.0]]);
    assert_eq!(net.process(1, &input, &mut output), Err(NetError::Cycle));
    assert_eq!(output[0][0], F32(4.0));
    assert_eq!(net.route(&vec![Signal::Unknown], F64(1.0)), Err(NetError::Cycle));
}

#[test]
fn rewiring_breaks_a_cycle() {
    let mut net: Net48<F32, F64> = Net48::new(1, 1);
    let a = net.add(Box::new(Gain { factor: 2.0 }));
    let b = net.add(Box::new(Gain { factor: 5.0 }));
    net.pipe(a, b);
    net.pipe(b, a);
    net.pipe_output(b);
    let mut output = vec![F32(0.0)];
    assert_eq!(net.tick(&vec![F32(1.0)], &mut output), Err(NetError::Cycle));
    net.pipe_input(a);
    assert_eq!(net.tick(&vec![F32(1.0)], &mut output), Ok(()));
    assert_eq!(output, vec![F32(10.0)]);
}

#[test]
fn gain_routes_a_constant() {
    let gain = Gain { factor: 3.0 };
    assert_eq!(gain.route(&vec![Signal::Value(F64(2.0))], F64(440.0)), vec![Signal::Value(F64(6.0))]);
    assert_eq!(gain.route(&vec![Signal::Value(F64(2.0))], F64(0.0)), vec![Signal::Value(F64(6.0))]);
}

#[test]
fn network_routes_through_its_units() {
    let mut net: Net48<F32, F64> = Net48::new(1, 3);
    let first = net.add(Box::new(Gain { factor: 3.0 }));
    let second = net.add(Box::new(Gain { factor: 0.5 }));
    let sum = net.add(Box::new(Accumulator { total: 0.0 }));
    net.pipe_input(first);
    net.pipe(first, second);
    net.pipe(second, sum);
    net.connect_output(second, 0, 0);
    net.connect_output(sum, 0, 1);
    let known = net.route(&vec![Signal::Value(F64(2.0))], F64(100.0));
    assert_eq!(known, Ok(vec![Signal::Value(F64(3.0)), Signal::Unknown, Signal::Value(F64(0.0))]));
    let unknown = net.route(&vec![Signal::Unknown], F64(100.0));
    assert_eq!(unknown, Ok(vec![Signal::Unknown, Signal::Unknown, Signal::Value(F64(0.0))]));
    // Routing runs no unit and leaves no trace.
    assert_eq!(net.get(LEVEL), Some(F64(0.0)));
}

#[test]
fn route_reads_silence_as_constant_zero() {
    let mut net: Net48<F32, F64> = Net48::new(0, 1);
    let mix = net.add(Box::new(Mix));
    net.pipe_output(mix);
    assert_eq!(net.route(&vec![], F64(1.0)), Ok(vec![Signal::Value(F64(0.0))]));
}

#[test]
fn get_answers_from_the_first_unit_that_knows() {
    let mut net: Net48<F32, F64> = Net48::new(1, 1);
    assert_eq!(net.get(GAIN), None);
    net.add(Box::new(Accumulator { total: 4.0 }));
    net.add(Box::new(Gain { factor: 2.0 }));
    net.add(Box::new(Gain { factor: 3.0 }));
    assert_eq!(net.get(GAIN), Some(F64(2.0)));
    assert_eq!(net.get(LEVEL), Some(F64(4.0)));
    assert_eq!(net.get(77), None);
}

#[test]
fn set_reaches_every_unit() {
    let mut net: Net48<F32, F64> = Net48::new(1, 2);
    let a = net.add(Box::new(Gain { factor: 2.0 }));
    let b = net.add(Box::new(Gain { factor: 3.0 }));
    let c = net.add(Box::new(Accumulator { total: 1.0 }));
    net.pipe_input(a);
    net.pipe(a, b);
    net.pipe_input(c);
    net.connect_output(b, 0, 0);
    net.connect_output(c, 0, 1);
    net.set(GAIN, F64(10.0));
    let mut output = vec![F32(0.0), F32(0.0)];
    assert_eq!(net.tick(&vec![F32(1.0)], &mut output), Ok(()));
    assert_eq!(output, vec![F32(100.0), F32(2.0)]);
    net.set(77, F64(5.0));
    assert_eq!(net.tick(&vec![F32(1.0)], &mut output), Ok(()));
    assert_eq!(output, vec![F32(100.0), F32(3.0)]);
}

#[test]
fn reset_reaches_every_unit() {
    let mut net: Net48<F32, F64> = Net48::new(1, 1);
    let sum = net.add(Box::new(Accumulator { total: 0.0 }));
    net.pipe_input(sum);
    net.pipe_output(sum);
    let mut output = vec![F32(0.0)];
    assert_eq!(net.tick(&vec![F32(2.0)], &mut output), Ok(()));
    assert_eq!(net.tick(&vec![F32(2.0)], &mut output), Ok(()));
    assert_eq!(output, vec![F32(4.0)]);
    net.reset(Some(F64(48000.0)));
    assert_eq!(net.tick(&vec![F32(2.0)], &mut output), Ok(()));
    assert_eq!(output, vec![F32(2.0)]);
    net.reset(None);
    assert_eq!(net.get(LEVEL), Some(F64(0.0)));
}

#[test]
fn chain_is_add_and_connect() {
    let mut chained: Net48<F32, F64> = Net48::new(1, 1);
    chained.chain(Box::new(Gain { factor: 2.0 }));
    chained.chain(Box::new(Accumulator { total: 0.0 }));
    chained.chain(Box::new(Gain { factor: -1.0 }));

    let mut manual: Net48<F32, F64> = Net48::new(1, 1);
    let a = manual.add(Box::new(Gain { factor: 2.0 }));
    manual.connect_output(a, 0, 0);
    manual.connect_input(0, a, 0);
    let b = manual.add(Box::new(Accumulator { total: 0.0 }));
    manual.connect_output(b, 0, 0);
    manual.connect(a, 0, b, 0);
    let c = manual.add(Box::new(Gain { factor: -1.0 }));
    manual.connect_output(c, 0, 0);
    manual.connect(b, 0, c, 0);

    let mut first = Vec::new();
    let mut second = Vec::new();
    assert!(chained.determine_order_in(&mut first));
    assert!(manual.determine_order_in(&mut second));
    assert_eq!(first, second);
    assert_eq!(first, vec![0, 1, 2]);
    for x in [1.0, 2.0, 3.0] {
        let mut left = vec![F32(0.0)];
        let mut right = vec![F32(0.0)];
        assert_eq!(chained.tick(&vec![F32(x)], &mut left), Ok(()));
        assert_eq!(manual.tick(&vec![F32(x)], &mut right), Ok(()));
        assert_eq!(left, right);
    }
    let mut last = vec![F32(0.0)];
    assert_eq!(chained.tick(&vec![F32(0.0)], &mut last), Ok(()));
    assert_eq!(last, vec![F32(-12.0)]);
}

#[test]
fn pipe_composes_as_outside_the_network() {
    let mut net: Net48<F32, F64> = Net48::new(1, 1);
    let a = net.add(Box::new(Gain { factor: 2.0 }));
    let b = net.add(Box::new(Accumulator { total: 1.0 }));
    net.pipe_input(a);
    net.pipe(a, b);
    net.pipe_output(b);
    let mut first = Gain { factor: 2.0 };
    let mut second = Accumulator { total: 1.0 };
    for x in [0.5, 4.0, -3.0] {
        let mut inside = vec![F32(0.0)];
        assert_eq!(net.tick(&vec![F32(x)], &mut inside), Ok(()));
        let mut between = vec![F32(0.0)];
        let mut outside = vec![F32(0.0)];
        first.tick(&vec![F32(x)], &mut between);
        second.tick(&between, &mut outside);
        assert_eq!(inside, outside);
    }
}

#[test]
fn join_goes_by_the_target() {
    let mut net: Net48<F32, F64> = Net48::new(2, 2);
    let gain = net.add(Box::new(Gain { factor: 2.0 }));
    net.join(edge(Port::Global(1), Port::Local(gain, 0)));
    net.join(edge(Port::Local(gain, 0), Port::Global(1)));
    net.join(edge(Port::Global(0), Port::Zero));
    let mut output = vec![F32(9.0), F32(9.0)];
    assert_eq!(net.tick(&vec![F32(1.0), F32(5.0)], &mut output), Ok(()));
    assert_eq!(output, vec![F32(0.0), F32(10.0)]);
    net.join(edge(Port::Zero, Port::Local(gain, 0)));
    assert_eq!(net.tick(&vec![F32(1.0), F32(5.0)], &mut output), Ok(()));
    assert_eq!(output, vec![F32(0.0), F32(0.0)]);
}

#[test]
fn outputs_can_read_inputs() {
    let mut net: Net48<F32, F64> = Net48::new(2, 2);
    net.join(edge(Port::Global(1), Port::Global(0)));
    net.join(edge(Port::Global(0), Port::Global(1)));
    let mut output = vec![F32(0.0), F32(0.0)];
    assert_eq!(net.tick(&vec![F32(1.0), F32(2.0)], &mut output), Ok(()));
    assert_eq!(output, vec![F32(2.0), F32(1.0)]);
}

#[test]
fn order_waits_for_every_input() {
    // 1 reads 0 and 2, 2 reads 3, 3 reads 0: an input already ticked off
    // must not count twice.
    let mut net: Net48<F32, F64> = Net48::new(0, 1);
    net.add(Box::new(Silence { inputs: 0, outputs: 1 }));
    net.add(Box::new(Mix));
    net.add(Box::new(Gain { factor: 1.0 }));
    net.add(Box::new(Gain { factor: 1.0 }));
    net.connect(0, 0, 1, 0);
    net.connect(2, 0, 1, 1);
    net.connect(3, 0, 2, 0);
    net.connect(0, 0, 3, 0);
    let mut order = Vec::new();
    assert!(net.determine_order_in(&mut order));
    assert_eq!(order, vec![0, 3, 2, 1]);
    assert!(net.determine_order());
}

#[test]
fn order_takes_idle_vertices_first() {
    // 0 reads 1; 1 has one unconnected input; 2 has no inputs.
    let mut net: Net48<F32, F64> = Net48::new(1, 1);
    net.add(Box::new(Gain { factor: 1.0 }));
    net.add(Box::new(Gain { factor: 1.0 }));
    net.add(Box::new(Silence { inputs: 0, outputs: 1 }));
    net.connect(1, 0, 0, 0);
    let mut order = Vec::new();
    assert!(net.determine_order_in(&mut order));
    assert_eq!(order, vec![2, 1, 0]);
}

#[test]
fn empty_network_is_silent() {
    let mut net: Net48<F32, F64> = Net48::new(2, 2);
    let mut order = vec![1];
    assert!(net.determine_order_in(&mut order));
    assert!(order.is_empty());
    let mut output = vec![F32(1.0), F32(1.0)];
    assert_eq!(net.tick(&vec![F32(3.0), F32(4.0)], &mut output), Ok(()));
    assert_eq!(output, vec![F32(0.0), F32(0.0)]);
}

#[test]
fn self_loop_is_a_cycle() {
    let mut net: Net48<F32, F64> = Net48::new(1, 1);
    let a = net.add(Box::new(Mix));
    net.connect_input(0, a, 0);
    net.connect(a, 0, a, 1);
    let mut order = Vec::new();
    assert!(!net.determine_order_in(&mut order));
    assert!(!net.determine_order());
}

#[test]
fn vertex_reports_its_sizes() {
    let vertex: Vertex48<F32, F64> = Vertex48::new(4, 2, 3);
    assert_eq!(vertex.id, 4);
    assert_eq!(vertex.inputs(), 2);
    assert_eq!(vertex.outputs(), 3);
    assert_eq!(vertex.unit.0.inputs(), 2);
    assert_eq!(vertex.unit.0.outputs(), 3);
    assert_eq!(vertex.tick_input, vec![F32(0.0); 2]);
    assert_eq!(vertex.tick_output, vec![F32(0.0); 3]);
    assert_eq!(vertex.input[1].len(), MAX_BUFFER_SIZE);
    assert_eq!(vertex.output[2][MAX_BUFFER_SIZE - 1], F32(0.0));
    let expected: Vec<Edge> = vec![edge(Port::Zero, Port::Local(4, 0)), edge(Port::Zero, Port::Local(4, 1))];
    assert_eq!(vertex.source, expected);
}

#[test]
fn silence_swallows_and_puts_out_zero() {
    let mut unit = Silence { inputs: 1, outputs: 2 };
    let mut output = vec![7i32, 7];
    AudioUnit48::<i32, i32>::tick(&mut unit, &vec![5], &mut output);
    assert_eq!(output, vec![0, 0]);
    let described = AudioUnit48::<i32, i32>::route(&unit, &vec![Signal::Unknown], 1);
    assert_eq!(described, vec![Signal::Value(0), Signal::Value(0)]);
    let mut block = vec![vec![3i32; MAX_BUFFER_SIZE]; 2];
    AudioUnit48::<i32, i32>::process(&mut unit, 2, &vec![vec![1; MAX_BUFFER_SIZE]], &mut block);
    assert_eq!(&block[1][..3], &[0, 0, 3]);
    assert_eq!(AudioUnit48::<i32, i32>::get(&unit, 0), None);
}

#[test]
fn pass_hands_every_channel_on() {
    let mut unit: Pass = multipass(2);
    assert_eq!(AudioUnit48::<i64, i64>::inputs(&unit), 2);
    assert_eq!(AudioUnit48::<i64, i64>::outputs(&unit), 2);
    let mut output = vec![0i64, 0];
    AudioUnit48::<i64, i64>::tick(&mut unit, &vec![4, -5], &mut output);
    assert_eq!(output, vec![4, -5]);
    let input = vec![vec![1i64; MAX_BUFFER_SIZE], vec![2i64; MAX_BUFFER_SIZE]];
    let mut block = vec![vec![0i64; MAX_BUFFER_SIZE]; 2];
    AudioUnit48::<i64, i64>::process(&mut unit, 3, &input, &mut block);
    assert_eq!(&block[0][..4], &[1, 1, 1, 0]);
    assert_eq!(&block[1][..4], &[2, 2, 2, 0]);
    let described = AudioUnit48::<i64, i64>::route(&unit, &vec![Signal::Value(3), Signal::Unknown], 9);
    assert_eq!(described, vec![Signal::Value(3), Signal::Unknown]);
    assert_eq!(AudioUnit48::<i64, i64>::inputs(&pass()), 1);
}

#[test]
fn integer_network_runs() {
    let mut net: Net48<i64, i64> = Net48::new(2, 3);
    let id = net.add(Box::new(multipass(2)));
    net.pipe_input(id);
    net.connect_output(id, 1, 0);
    net.connect_output(id, 0, 2);
    let mut output = vec![9i64, 9, 9];
    assert_eq!(net.tick(&vec![4, 5], &mut output), Ok(()));
    assert_eq!(output, vec![5, 0, 4]);
}

#[test]
fn zero_of_integers_is_zero() {
    assert_eq!(<i16 as Sample>::zero(), 0);
    assert_eq!(<i32 as Sample>::zero(), 0);
    assert_eq!(<i64 as Sample>::zero(), 0);
}

#[test]
fn buffers_start_silent() {
    let frame: Vec<i32> = new_frame(3);
    assert_eq!(frame, vec![0, 0, 0]);
    let block: Vec<Vec<i32>> = new_block(2);
    assert_eq!(block, vec![vec![0; MAX_BUFFER_SIZE]; 2]);
    let signals: Vec<Signal<i32>> = new_signal_frame(2);
    assert_eq!(signals, vec![Signal::Unknown, Signal::Unknown]);
    assert_eq!(MAX_BUFFER_SIZE, 64);
}

#[test]
fn blocks_are_copied_and_filled_up_to_the_size() {
    let mut target = vec![1, 2, 3, 4];
    copy_block(&mut target, &vec![7, 8, 9], 2);
    assert_eq!(target, vec![7, 8, 3, 4]);
    fill_block(&mut target, 0, 3);
    assert_eq!(target, vec![0, 0, 0, 4]);
}

#[test]
fn networks_nest() {
    let mut inner: Net48<F32, F64> = Net48::new(1, 1);
    inner.chain(Box::new(Gain { factor: 2.0 }));
    inner.chain(Box::new(Accumulator { total: 0.0 }));
    let mut outer: Net48<F32, F64> = Net48::new(1, 1);
    let nested = outer.add(Box::new(inner));
    let gain = outer.add(Box::new(Gain { factor: 10.0 }));
    outer.pipe_input(nested);
    outer.pipe(nested, gain);
    outer.pipe_output(gain);
    assert_eq!(outer.inputs_of(nested), 1);
    assert_eq!(outer.outputs_of(nested), 1);

    let mut flat: Net48<F32, F64> = Net48::new(1, 1);
    flat.chain(Box::new(Gain { factor: 2.0 }));
    flat.chain(Box::new(Accumulator { total: 0.0 }));
    flat.chain(Box::new(Gain { factor: 10.0 }));

    for x in [1.0, 2.0, 3.0] {
        let mut left = vec![F32(0.0)];
        let mut right = vec![F32(0.0)];
        assert_eq!(outer.tick(&vec![F32(x)], &mut left), Ok(()));
        assert_eq!(flat.tick(&vec![F32(x)], &mut right), Ok(()));
        assert_eq!(left, right);
    }
    let input = block_of(&[vec![1.0, 1.0]]);
    let mut output = block_of(&[vec![]]);
    assert_eq!(outer.process(2, &input, &mut output), Ok(()));
    assert_eq!(&output[0][..2], &[F32(140.0), F32(160.0)]);
    assert_eq!(outer.get(LEVEL), Some(F64(16.0)));
    assert_eq!(outer.get(GAIN), Some(F64(2.0)));
    outer.set(GAIN, F64(1.0));
    outer.reset(None);
    let mut last = vec![F32(0.0)];
    assert_eq!(outer.tick(&vec![F32(5.0)], &mut last), Ok(()));
    assert_eq!(last, vec![F32(5.0)]);
    assert_eq!(
        outer.route(&vec![Signal::Value(F64(1.0))], F64(10.0)),
        Ok(vec![Signal::Unknown])
    );
}

#[test]
fn network_runs_as_a_unit() {
    let mut net: Net48<F32, F64> = Net48::new(1, 2);
    let gain = net.add(Box::new(Gain { factor: 3.0 }));
    net.pipe_input(gain);
    net.connect_output(gain, 0, 1);
    let mut unit: Box<dyn AudioUnit48<F32, F64>> = Box::new(net);
    assert_eq!(unit.inputs(), 1);
    assert_eq!(unit.outputs(), 2);
    let mut output = vec![F32(9.0), F32(9.0)];
    unit.tick(&vec![F32(2.0)], &mut output);
    assert_eq!(output, vec![F32(0.0), F32(6.0)]);
    assert_eq!(
        unit.route(&vec![Signal::Value(F64(2.0))], F64(1.0)),
        vec![Signal::Value(F64(0.0)), Signal::Value(F64(6.0))]
    );
    unit.set(GAIN, F64(4.0));
    assert_eq!(unit.get(GAIN), Some(F64(4.0)));
    let input = block_of(&[vec![1.0, 2.0]]);
    let mut block = block_of(&[vec![], vec![]]);
    unit.process(2, &input, &mut block);
    assert_eq!(&block[1][..2], &[F32(4.0), F32(8.0)]);
    unit.reset(Some(F64(44100.0)));
}
