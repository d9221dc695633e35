//! Networks as units of other networks.

use vstd::prelude::*;
use crate::flow::{
    heard_in, lemma_response_alike, lemma_response_of, lemma_shift, lemma_solves_beginning,
    moved_on, net_response, solves,
};
use crate::laws::lemma_route_determined;
use crate::net::Net48;
use crate::sample::Sample;
use crate::schedule::lemma_acyclic_scheduled;
use crate::signal::{Signal, Tag, new_signal_frame};
use crate::unit::{AudioUnit48, frame, frames};

verus! {

/// A network is a unit itself, so that networks nest. As a unit it has to
/// be runnable: its wiring must have no cycle. What it answers to a
/// history is what its outputs read once every vertex has answered to what
/// it reads.
impl<T: Sample, R: Sample> AudioUnit48<T, R> for Net48<T, R> {
    open spec fn valid(&self) -> bool {
        self.runnable()
    }

    open spec fn inputs_spec(&self) -> nat {
        self.graph().inputs
    }

    open spec fn outputs_spec(&self) -> nat {
        self.graph().outputs
    }

    open spec fn response(&self, history: Seq<Seq<T>>) -> Seq<T> {
        net_response(self.graph(), self.responses(), history, T::zero_spec())
    }

    open spec fn response_after_reset(&self, sample_rate: Option<R>, history: Seq<Seq<T>>) -> Seq<
        T,
    > {
        net_response(
            self.graph(),
            self.responses_after_reset(sample_rate),
            history,
            T::zero_spec(),
        )
    }

    open spec fn response_after_set(&self, parameter: Tag, value: R, history: Seq<Seq<T>>) -> Seq<
        T,
    > {
        net_response(
            self.graph(),
            self.responses_after_set(parameter, value),
            history,
            T::zero_spec(),
        )
    }

    open spec fn param(&self, parameter: Tag) -> Option<R> {
        if exists|v: int| self.first_with(parameter, v) {
            self.unit(choose|v: int| self.first_with(parameter, v)).0.param(parameter)
        } else {
            None
        }
    }

    open spec fn route_spec(&self, input: Seq<Signal<R>>, frequency: R) -> Seq<Signal<R>> {
        if exists|found: (Seq<Seq<Signal<R>>>, Seq<Signal<R>>)|
            self.routed(input, frequency, found.0, found.1) {
            (choose|found: (Seq<Seq<Signal<R>>>, Seq<Signal<R>>)|
                self.routed(input, frequency, found.0, found.1)).1
        } else {
            Seq::empty()
        }
    }

    fn inputs(&self) -> (n: usize) {
        Net48::inputs(self)
    }

    fn outputs(&self) -> (n: usize) {
        Net48::outputs(self)
    }

    fn reset(&mut self, sample_rate: Option<R>) {
        let ghost order;
        proof {
            self.lemma_wf();
            order = lemma_acyclic_scheduled(self.graph());
        }
        Net48::reset(self, sample_rate);
        proof {
            let g = self.graph();
            self.lemma_wf();
            assert forall|h: Seq<Seq<T>>| h.len() > 0 implies #[trigger] AudioUnit48::<
                T,
                R,
            >::response(self, h) == AudioUnit48::<T, R>::response_after_reset(
                old(self),
                sample_rate,
                h,
            ) by {
                lemma_response_alike(
                    g,
                    order,
                    self.responses(),
                    old(self).responses_after_reset(sample_rate),
                    h,
                    T::zero_spec(),
                );
            }
        }
    }

    fn tick(&mut self, input: &Vec<T>, output: &mut Vec<T>) {
        let ghost order;
        proof {
            self.lemma_wf();
            order = lemma_acyclic_scheduled(self.graph());
        }
        let _ = Net48::tick(self, input, output);
        proof {
            let g = self.graph();
            let zero = T::zero_spec();
            let fed = seq![input@];
            let trace = seq![self.latest()];
            self.lemma_wf();
            assert forall|j: int, v: int| 0 <= j < fed.len() && 0 <= v < g.len() implies #[trigger] trace[j][v]
                == old(self).responses()(v, heard_in(g, fed, zero, trace, v, (j + 1) as nat)) by {
                assert(self.stepped(old(self), input@, v));
                assert(heard_in(g, fed, zero, trace, v, 1) =~= seq![
                    self.frame_into(v, self.latest(), input@),
                ]);
            }
            assert(solves(g, old(self).responses(), fed, zero, trace));
            lemma_response_of(g, order, old(self).responses(), fed, zero, trace);
            assert forall|v: int, h: Seq<Seq<T>>| 0 <= v < g.len() && h.len() > 0 implies #[trigger] self.responses()(
                v,
                h,
            ) == old(self).responses()(v, heard_in(g, fed, zero, trace, v, fed.len()) + h) by {
                assert(self.stepped(old(self), input@, v));
                assert(heard_in(g, fed, zero, trace, v, 1) =~= seq![
                    self.frame_into(v, self.latest(), input@),
                ]);
            }
            assert(moved_on(g, old(self).responses(), self.responses(), fed, zero, trace));
            assert forall|h: Seq<Seq<T>>| h.len() > 0 implies #[trigger] AudioUnit48::<
                T,
                R,
            >::response(self, h) == AudioUnit48::<T, R>::response(old(self), seq![input@] + h) by {
                lemma_shift(
                    g,
                    order,
                    old(self).responses(),
                    self.responses(),
                    fed,
                    zero,
                    trace,
                    h,
                );
            }
        }
    }

    fn process(&mut self, size: usize, input: &Vec<Vec<T>>, output: &mut Vec<Vec<T>>) {
        let ghost order;
        proof {
            self.lemma_wf();
            order = lemma_acyclic_scheduled(self.graph());
        }
        let _ = Net48::process(self, size, input, output);
        proof {
            let g = self.graph();
            let zero = T::zero_spec();
            let fed = frames(input@, size as nat);
            let trace = Seq::new(size as nat, |j: int| self.block_frame(j));
            self.lemma_wf();
            assert forall|v: int| 0 <= v < g.len() implies heard_in(
                g,
                fed,
                zero,
                trace,
                v,
                size as nat,
            ) == #[trigger] self.heard(v, size as nat, fed) by {
                assert(heard_in(g, fed, zero, trace, v, size as nat) =~= self.heard(
                    v,
                    size as nat,
                    fed,
                ));
            }
            assert forall|j: int, v: int| 0 <= j < fed.len() && 0 <= v < g.len() implies #[trigger] trace[j][v]
                == old(self).responses()(v, heard_in(g, fed, zero, trace, v, (j + 1) as nat)) by {
                assert(self.stepped_block(old(self), size as nat, fed, v));
                assert(self.block_frame(j)[v] == old(self).unit(v).0.response(
                    self.heard(v, size as nat, fed).take(j + 1),
                ));
                assert(heard_in(g, fed, zero, trace, v, (j + 1) as nat) =~= self.heard(
                    v,
                    size as nat,
                    fed,
                ).take(j + 1));
            }
            assert(solves(g, old(self).responses(), fed, zero, trace));
            assert forall|j: int| 0 <= j < size implies #[trigger] frame(output@, j)
                == AudioUnit48::<T, R>::response(old(self), frames(input@, (j + 1) as nat)) by {
                lemma_solves_beginning(g, old(self).responses(), fed, zero, trace, j + 1);
                assert(fed.take(j + 1) =~= frames(input@, (j + 1) as nat));
                lemma_response_of(
                    g,
                    order,
                    old(self).responses(),
                    fed.take(j + 1),
                    zero,
                    trace.take(j + 1),
                );
                assert(frames(output@, size as nat)[j] == frame(output@, j));
            }
            assert forall|v: int, h: Seq<Seq<T>>| 0 <= v < g.len() && h.len() > 0 implies #[trigger] self.responses()(
                v,
                h,
            ) == old(self).responses()(v, heard_in(g, fed, zero, trace, v, fed.len()) + h) by {
                assert(self.stepped_block(old(self), size as nat, fed, v));
            }
            assert(moved_on(g, old(self).responses(), self.responses(), fed, zero, trace));
            assert forall|h: Seq<Seq<T>>| h.len() > 0 implies #[trigger] AudioUnit48::<
                T,
                R,
            >::response(self, h) == AudioUnit48::<T, R>::response(
                old(self),
                frames(input@, size as nat) + h,
            ) by {
                lemma_shift(
                    g,
                    order,
                    old(self).responses(),
                    self.responses(),
                    fed,
                    zero,
                    trace,
                    h,
                );
            }
        }
    }

    fn route(&self, input: &Vec<Signal<R>>, frequency: R) -> (output: Vec<Signal<R>>) {
        proof {
            self.lemma_wf();
        }
        match Net48::route(self, input, frequency) {
            Ok(output) => {
                proof {
                    let inner = choose|inner: Seq<Seq<Signal<R>>>| #[trigger]
                        self.routed(input@, frequency, inner, output@);
                    let here = (inner, output@);
                    assert(self.routed(input@, frequency, here.0, here.1));
                    let found = choose|found: (Seq<Seq<Signal<R>>>, Seq<Signal<R>>)|
                        self.routed(input@, frequency, found.0, found.1);
                    lemma_route_determined(
                        self,
                        input@,
                        frequency,
                        inner,
                        output@,
                        found.0,
                        found.1,
                    );
                }
                output
            },
            Err(_) => new_signal_frame(0),
        }
    }

    fn set(&mut self, parameter: Tag, value: R) {
        let ghost order;
        proof {
            self.lemma_wf();
            order = lemma_acyclic_scheduled(self.graph());
        }
        Net48::set(self, parameter, value);
        proof {
            let g = self.graph();
            self.lemma_wf();
            assert forall|h: Seq<Seq<T>>| h.len() > 0 implies #[trigger] AudioUnit48::<
                T,
                R,
            >::response(self, h) == AudioUnit48::<T, R>::response_after_set(
                old(self),
                parameter,
                value,
                h,
            ) by {
                lemma_response_alike(
                    g,
                    order,
                    self.responses(),
                    old(self).responses_after_set(parameter, value),
                    h,
                    T::zero_spec(),
                );
            }
        }
    }

    fn get(&self, parameter: Tag) -> (value: Option<R>) {
        let value = Net48::get(self, parameter);
        proof {
            if let Some(x) = value {
                let v = choose|v: int|
                    #[trigger] self.first_with(parameter, v) && self.unit(v).0.param(parameter)
                        == Some(x);
                let first = choose|v: int| self.first_with(parameter, v);
                assert(first == v) by {
                    if first < v {
                        assert(self.unit(first).0.param(parameter) is None);
                    }
                    if v < first {
                        assert(self.unit(v).0.param(parameter) is None);
                    }
                }
            }
        }
        value
    }
}

} // verus!
