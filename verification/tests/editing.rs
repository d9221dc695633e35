use audionet::net::Net48;
use audionet::port::{edge, Port};
use audionet::signal::{Signal, Tag};
use audionet::unit::{multipass, pass, AudioUnit48};

struct Constant {
    value: i64,
}

impl AudioUnit48<i64, i64> for Constant {
    fn inputs(&self) -> usize {
        0
    }

    fn outputs(&self) -> usize {
        1
    }

    fn reset(&mut self, _sample_rate: Option<i64>) {}

    fn tick(&mut self, _input: &Vec<i64>, output: &mut Vec<i64>) {
        output[0] = self.value;
    }

    fn process(&mut self, size: usize, _input: &Vec<Vec<i64>>, output: &mut Vec<Vec<i64>>) {
        for j in 0..size {
            output[0][j] = self.value;
        }
    }

    fn route(&self, _input: &Vec<Signal<i64>>, _frequency: i64) -> Vec<Signal<i64>> {
        vec![Signal::Value(self.value)]
    }

    fn set(&mut self, _parameter: Tag, value: i64) {
        self.value = value;
    }

    fn get(&self, _parameter: Tag) -> Option<i64> {
        Some(self.value)
    }
}

#[test]
fn add_returns_consecutive_indices() {
    let mut net: Net48<i64, i64> = Net48::new(1, 1);
    assert_eq!(net.add(Box::new(pass())), 0);
    assert_eq!(net.add(Box::new(Constant { value: 2 })), 1);
    assert_eq!(net.add(Box::new(multipass(3))), 2);
    assert_eq!(net.inputs(), 1);
    assert_eq!(net.outputs(), 1);
}

#[test]
fn edge_keeps_its_ends() {
    let e = edge(Port::Global(1), Port::Local(2, 3));
    assert_eq!(e.source, Port::Global(1));
    assert_eq!(e.target, Port::Local(2, 3));
}
