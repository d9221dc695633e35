use audionet::net::{Net48, NetError};
use audionet::sample::Sample;
use audionet::signal::{Signal, Tag};
use audionet::unit::{pass, AudioUnit48};

#[derive(Clone, Copy, Debug, PartialEq)]
struct F64(f64);

impl Sample for F64 {
    fn zero() -> Self {
        F64(0.0)
    }
}

/// Puts out one constant channel.
struct Dc {
    value: f64,
}

impl AudioUnit48<F64, F64> for Dc {
    fn inputs(&self) -> usize {
        0
    }

    fn outputs(&self) -> usize {
        1
    }

    fn reset(&mut self, _sample_rate: Option<F64>) {}

    fn tick(&mut self, _input: &Vec<F64>, output: &mut Vec<F64>) {
        output[0] = F64(self.value);
    }

    fn process(&mut self, size: usize, _input: &Vec<Vec<F64>>, output: &mut Vec<Vec<F64>>) {
        for j in 0..size {
            output[0][j] = F64(self.value);
        }
    }

    fn route(&self, _input: &Vec<Signal<F64>>, _frequency: F64) -> Vec<Signal<F64>> {
        vec![Signal::Value(F64(self.value))]
    }

    fn set(&mut self, _parameter: Tag, _value: F64) {}

    fn get(&self, _parameter: Tag) -> Option<F64> {
        None
    }
}

/// Adds two channels into one.
struct Sum;

impl AudioUnit48<F64, F64> for Sum {
    fn inputs(&self) -> usize {
        2
    }

    fn outputs(&self) -> usize {
        1
    }

    fn reset(&mut self, _sample_rate: Option<F64>) {}

    fn tick(&mut self, input: &Vec<F64>, output: &mut Vec<F64>) {
        output[0] = F64(input[0].0 + input[1].0);
    }

    fn process(&mut self, size: usize, input: &Vec<Vec<F64>>, output: &mut Vec<Vec<F64>>) {
        for j in 0..size {
            output[0][j] = F64(input[0][j].0 + input[1][j].0);
        }
    }

    fn route(&self, input: &Vec<Signal<F64>>, _frequency: F64) -> Vec<Signal<F64>> {
        match (input[0], input[1]) {
            (Signal::Value(a), Signal::Value(b)) => vec![Signal::Value(F64(a.0 + b.0))],
            _ => vec![Signal::Unknown],
        }
    }

    fn set(&mut self, _parameter: Tag, _value: F64) {}

    fn get(&self, _parameter: Tag) -> Option<F64> {
        None
    }
}

#[test]
fn passthrough_hands_the_input_on() {
    let mut net: Net48<F64, F64> = Net48::new(1, 1);
    let id = net.add(Box::new(pass()));
    net.pipe_input(id);
    net.pipe_output(id);
    let mut output = vec![F64(0.0)];
    assert_eq!(net.tick(&vec![F64(5.0)], &mut output), Ok(()));
    assert_eq!(output, vec![F64(5.0)]);
}

#[test]
fn two_constants_are_summed() {
    let mut net: Net48<F64, F64> = Net48::new(0, 1);
    let a = net.add(Box::new(Dc { value: 2.0 }));
    let b = net.add(Box::new(Dc { value: 3.0 }));
    let c = net.add(Box::new(Sum));
    net.connect(a, 0, c, 0);
    net.connect(b, 0, c, 1);
    net.pipe_output(c);
    let mut output = vec![F64(0.0)];
    assert_eq!(net.tick(&vec![], &mut output), Ok(()));
    assert_eq!(output, vec![F64(5.0)]);
}

#[test]
fn sum_placed_before_its_sources_still_waits_for_them() {
    let mut net: Net48<F64, F64> = Net48::new(0, 1);
    let c = net.add(Box::new(Sum));
    let a = net.add(Box::new(Dc { value: 2.0 }));
    let b = net.add(Box::new(Dc { value: 3.0 }));
    net.connect(a, 0, c, 0);
    net.connect(b, 0, c, 1);
    net.pipe_output(c);
    let mut output = vec![F64(0.0)];
    assert_eq!(net.tick(&vec![], &mut output), Ok(()));
    assert_eq!(output, vec![F64(5.0)]);
}

#[test]
fn cycle_of_three_fails() {
    let mut net: Net48<F64, F64> = Net48::new(1, 1);
    let a = net.add(Box::new(pass()));
    let b = net.add(Box::new(pass()));
    let c = net.add(Box::new(pass()));
    net.connect(a, 0, b, 0);
    net.connect(b, 0, c, 0);
    net.connect(c, 0, a, 0);
    net.pipe_output(c);
    let mut output = vec![F64(7.0)];
    assert_eq!(net.tick(&vec![F64(1.0)], &mut output), Err(NetError::Cycle));
    assert_eq!(output, vec![F64(7.0)]);
    let mut order = Vec::new();
    assert!(!net.determine_order_in(&mut order));
}

#[test]
fn order_puts_producers_first() {
    // 0 reads 3, 3 reads 1, 1 reads the network, 2 reads 0 and 1.
    let mut net: Net48<F64, F64> = Net48::new(1, 1);
    for _ in 0..2 {
        net.add(Box::new(pass()));
    }
    net.add(Box::new(Sum));
    net.add(Box::new(pass()));
    net.connect(3, 0, 0, 0);
    net.connect(1, 0, 3, 0);
    net.connect_input(0, 1, 0);
    net.connect(0, 0, 2, 0);
    net.connect(1, 0, 2, 1);
    let mut order = vec![9, 9];
    assert!(net.determine_order_in(&mut order));
    assert_eq!(order, vec![1, 3, 0, 2]);
}

#[test]
fn unconnected_input_reads_zero() {
    let mut net: Net48<F64, F64> = Net48::new(1, 2);
    let sum = net.add(Box::new(Sum));
    net.connect_input(0, sum, 1);
    net.connect_output(sum, 0, 0);
    let mut output = vec![F64(9.0), F64(9.0)];
    assert_eq!(net.tick(&vec![F64(4.0)], &mut output), Ok(()));
    assert_eq!(output, vec![F64(4.0), F64(0.0)]);
}
