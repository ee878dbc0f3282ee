//! The runner: one module, its state vector, and the three operations on it.
use vstd::prelude::*;

use crate::eval::{cell_is_runnable, cell_runnable, cell_step, eval_cell, gate_kind, GateKind};
use crate::netlist::{bus_bound, lemma_nets_bound, nets_bound, ports_bound, Module, Netname};
use crate::schedule::{lemma_schedule_within, schedule_of, RunError};
use crate::signal::{decoded, Signal};

verus! {

impl Module {
    /// Every cell can be evaluated over a state of `n` positions.
    pub open spec fn runnable(&self, n: nat) -> bool {
        forall|i: int| 0 <= i < self.cells@.len() ==> cell_runnable(#[trigger] self.cells@[i].1, n)
    }

    /// Whether every cell can be evaluated over a state of `n` positions.
    pub fn is_runnable(&self, n: usize) -> (r: bool)
        ensures
            r == self.runnable(n as nat),
    {
        let mut i: usize = 0;
        while i < self.cells.len()
            invariant
                i <= self.cells@.len(),
                forall|j: int| 0 <= j < i ==> cell_runnable(#[trigger] self.cells@[j].1, n as nat),
            decreases self.cells@.len() - i,
        {
            if !cell_is_runnable(&self.cells[i].1, n) {
                return false;
            }
            i = i + 1;
        }
        true
    }
}

/// The state after evaluating the cells of `order`, in order.
pub open spec fn run_cells(m: Module, order: Seq<usize>, s: Seq<bool>) -> Seq<bool>
    decreases order.len(),
{
    if order.len() == 0 {
        s
    } else {
        cell_step(m.cells@[order.last() as int].1, run_cells(m, order.drop_last(), s))
    }
}

/// The names of the cells of `order` whose type is not supported, in order.
pub open spec fn skipped(m: Module, order: Seq<usize>) -> Seq<String>
    decreases order.len(),
{
    if order.len() == 0 {
        Seq::empty()
    } else {
        let c = m.cells@[order.last() as int];
        if gate_kind(c.1.type_@) == GateKind::Unsupported {
            skipped(m, order.drop_last()).push(c.0)
        } else {
            skipped(m, order.drop_last())
        }
    }
}

/// The nets whose names a user gave.
pub open spec fn visible_nets(nets: Seq<(String, Netname)>) -> Seq<(String, Netname)> {
    nets.filter(|n: (String, Netname)| n.1.hide_name == 0)
}

/// The name and the values of one net in state `s`.
pub open spec fn net_output(n: (String, Netname), s: Seq<bool>) -> (Seq<char>, Seq<bool>) {
    (n.0@, n.1.bits@.map_values(|b: usize| s[b as int]))
}

/// The visible nets of `m`, in net order, each with its values in state `s`.
pub open spec fn outputs_of(m: Module, s: Seq<bool>) -> Seq<(Seq<char>, Seq<bool>)> {
    visible_nets(m.netnames@).map_values(|n: (String, Netname)| net_output(n, s))
}

/// What a list of named signal buses stands for.
pub open spec fn decoded_outputs<T: Signal>(r: Seq<(String, Vec<T>)>) -> Seq<(Seq<char>, Seq<bool>)> {
    r.map_values(|o: (String, Vec<T>)| (o.0@, decoded(o.1@)))
}

proof fn lemma_visible_step(nets: Seq<(String, Netname)>, i: int)
    requires
        0 <= i < nets.len(),
    ensures
        visible_nets(nets.subrange(0, i + 1)) == if nets[i].1.hide_name == 0 {
            visible_nets(nets.subrange(0, i)).push(nets[i])
        } else {
            visible_nets(nets.subrange(0, i))
        },
{
    let t = nets.subrange(0, i + 1);
    let pred = |n: (String, Netname)| n.1.hide_name == 0;
    assert(t.drop_last() == nets.subrange(0, i));
    assert(t.last() == nets[i]);
    assert(visible_nets(t) == t.filter(pred));
    assert(visible_nets(nets.subrange(0, i)) == nets.subrange(0, i).filter(pred));
    reveal(Seq::filter);
    assert(t.filter(pred) == if pred(t.last()) {
        t.drop_last().filter(pred).push(t.last())
    } else {
        t.drop_last().filter(pred)
    });
}

/// `s` followed by zeros up to length `n`.
pub open spec fn padded(s: Seq<bool>, n: nat) -> Seq<bool> {
    if s.len() >= n {
        s
    } else {
        s + Seq::new((n - s.len()) as nat, |i: int| false)
    }
}

/// What a fresh runner on `m` reports after `init(input)` and `run()`: the
/// visible nets with their values, or why the module cannot be scheduled.
pub open spec fn evaluation(m: Module, input: Seq<bool>) -> Result<
    Seq<(Seq<char>, Seq<bool>)>,
    RunError,
> {
    match schedule_of(m) {
        Err(e) => Err(e),
        Ok(order) => Ok(outputs_of(m, run_cells(m, order, padded(input, m.state_size())))),
    }
}

/// `r` is what evaluating `m` on `input` gives, read through `decode`.
pub open spec fn evaluated<T: Signal>(
    m: Module,
    input: Seq<T>,
    r: Result<Vec<(String, Vec<T>)>, RunError>,
) -> bool {
    match r {
        Ok(v) => evaluation(m, decoded(input)) == Ok::<_, RunError>(decoded_outputs(v@)),
        Err(e) => evaluation(m, decoded(input)) == Err::<Seq<(Seq<char>, Seq<bool>)>, _>(e),
    }
}

/// Runs `module` once on `input` in a fresh runner and reads its visible nets.
pub fn evaluate<T: Signal>(module: Module, input: Vec<T>) -> (r: Result<
    Vec<(String, Vec<T>)>,
    RunError,
>)
    requires
        input@.len() >= 1,
        module.indices_fit(),
        module.runnable(padded(decoded(input@), module.state_size()).len()),
    ensures
        evaluated(module, input@, r),
{
    let mut runner: Runner<T> = Runner::new(module);
    runner.init(input);
    match runner.run() {
        Err(e) => Err(e),
        Ok(()) => Ok(runner.print_bits()),
    }
}

/// Evaluates one module over signals of type `T`.
pub struct Runner<T: Signal> {
    pub module: Module,
    /// The value of every wire, indexed by bit index.
    pub bits: Vec<T>,
    /// The names of the cells that the last run skipped, their type being
    /// none of the four supported gates.
    pub notices: Vec<String>,
}

impl<T: Signal> Runner<T> {
    /// A runner with an empty state; `init` sizes it.
    pub fn new(module: Module) -> (r: Self)
        ensures
            r.module == module,
            r.bits@.len() == 0,
            r.notices@.len() == 0,
    {
        Runner { module, bits: Vec::new(), notices: Vec::new() }
    }

    /// Makes `input` the state, padded with zeros up to the module's state size.
    /// The zero is the first value combined with itself by `xor`.
    pub fn init(&mut self, input: Vec<T>)
        requires
            input@.len() >= 1,
            old(self).module.indices_fit(),
        ensures
            final(self).module == old(self).module,
            final(self).notices == old(self).notices,
            final(self).bits@.len() == if input@.len() > old(self).module.state_size() {
                input@.len()
            } else {
                old(self).module.state_size()
            },
            final(self).bits@.subrange(0, input@.len() as int) == input@,
            forall|i: int|
                input@.len() <= i < final(self).bits@.len() ==> !final(self).bits@[i].decode(),
            decoded(final(self).bits@) == padded(decoded(input@), old(self).module.state_size()),
    {
        let size = self.state_size();
        let zero = input[0].xor(&input[0]);
        let mut bits = input;
        let ghost given = bits@;
        while bits.len() < size
            invariant
                size == self.module.state_size(),
                given.len() <= bits@.len(),
                bits@.len() <= size || bits@.len() == given.len(),
                bits@.subrange(0, given.len() as int) == given,
                !zero.decode(),
                forall|i: int| given.len() <= i < bits@.len() ==> !bits@[i].decode(),
            decreases size - bits@.len(),
        {
            let z = zero.duplicate();
            let ghost before = bits@;
            bits.push(z);
            assert(bits@.subrange(0, given.len() as int) == before.subrange(0, given.len() as int));
        }
        proof {
            assert(decoded(bits@) =~= padded(decoded(given), size as nat));
        }
        self.bits = bits;
    }

    /// Evaluates the module's schedule on the state, cell by cell, and
    /// records the names of the cells it skipped. Where the module cannot be
    /// scheduled, returns why and changes nothing.
    pub fn run(&mut self) -> (r: Result<(), RunError>)
        requires
            old(self).module.runnable(old(self).bits@.len()),
        ensures
            final(self).module == old(self).module,
            final(self).bits@.len() == old(self).bits@.len(),
            match schedule_of(old(self).module) {
                Err(e) => r == Err::<(), RunError>(e) && final(self).bits == old(self).bits
                    && final(self).notices == old(self).notices,
                Ok(order) => r is Ok && decoded(final(self).bits@) == run_cells(
                    old(self).module,
                    order,
                    decoded(old(self).bits@),
                ) && final(self).notices@ == skipped(old(self).module, order),
            },
    {
        let order = match self.module.schedule() {
            Err(e) => {
                return Err(e);
            },
            Ok(order) => order,
        };
        proof {
            lemma_schedule_within(self.module, order@);
        }
        let ghost s0 = decoded(self.bits@);
        let mut notices: Vec<String> = Vec::new();
        let mut k: usize = 0;
        while k < order.len()
            invariant
                self.module == old(self).module,
                self.notices == old(self).notices,
                self.bits@.len() == old(self).bits@.len(),
                self.module.runnable(self.bits@.len()),
                schedule_of(self.module) == Ok::<_, RunError>(order@),
                forall|j: int| 0 <= j < order@.len() ==> order@[j] < self.module.cells@.len(),
                k <= order@.len(),
                decoded(self.bits@) == run_cells(self.module, order@.subrange(0, k as int), s0),
                notices@ == skipped(self.module, order@.subrange(0, k as int)),
            decreases order@.len() - k,
        {
            let idx = order[k];
            proof {
                assert(order@.subrange(0, k + 1).drop_last() == order@.subrange(0, k as int));
                assert(cell_runnable(self.module.cells@[idx as int].1, self.bits@.len()));
            }
            let supported = eval_cell(&mut self.bits, &self.module.cells[idx].1);
            if !supported {
                notices.push(self.module.cells[idx].0.clone());
            }
            k = k + 1;
        }
        proof {
            assert(order@.subrange(0, k as int) == order@);
        }
        self.notices = notices;
        Ok(())
    }

    /// The visible nets, in net order, each with a copy of its values.
    pub fn print_bits(&self) -> (r: Vec<(String, Vec<T>)>)
        requires
            self.bits@.len() >= nets_bound(self.module.netnames@),
        ensures
            decoded_outputs(r@) == outputs_of(self.module, decoded(self.bits@)),
    {
        proof {
            lemma_nets_bound(self.module.netnames@);
        }
        let ghost s = decoded(self.bits@);
        let ghost nets = self.module.netnames@;
        let mut res: Vec<(String, Vec<T>)> = Vec::new();
        let mut i: usize = 0;
        while i < self.module.netnames.len()
            invariant
                nets == self.module.netnames@,
                s == decoded(self.bits@),
                i <= nets.len(),
                forall|a: int, j: int|
                    0 <= a < nets.len() && 0 <= j < nets[a].1.bits@.len() ==> nets[a].1.bits@[j]
                        < self.bits@.len(),
                decoded_outputs(res@) == visible_nets(nets.subrange(0, i as int)).map_values(
                    |n: (String, Netname)| net_output(n, s),
                ),
            decreases nets.len() - i,
        {
            let net = &self.module.netnames[i];
            proof {
                assert(nets.subrange(0, i + 1).drop_last() == nets.subrange(0, i as int));
                assert(nets.subrange(0, i + 1).last() == *net);
            }
            if net.1.hide_name == 0 {
                let mut values: Vec<T> = Vec::new();
                let mut j: usize = 0;
                while j < net.1.bits.len()
                    invariant
                        i < nets.len(),
                        s == decoded(self.bits@),
                        *net == nets[i as int],
                        j <= net.1.bits@.len(),
                        forall|q: int| 0 <= q < net.1.bits@.len() ==> net.1.bits@[q] < self.bits@.len(),
                        decoded(values@) == net.1.bits@.subrange(0, j as int).map_values(
                            |b: usize| s[b as int],
                        ),
                    decreases net.1.bits@.len() - j,
                {
                    let v = self.bits[net.1.bits[j]].duplicate();
                    let ghost before = values@;
                    values.push(v);
                    proof {
                        assert(s[net.1.bits@[j as int] as int] == self.bits@[net.1.bits@[j as int] as int].decode());
                        assert(decoded(values@) =~= decoded(before).push(v.decode()));
                        assert(decoded(values@) =~= net.1.bits@.subrange(0, j + 1).map_values(
                            |b: usize| s[b as int],
                        ));
                    }
                    j = j + 1;
                }
                proof {
                    assert(net.1.bits@.subrange(0, j as int) == net.1.bits@);
                }
                let ghost before = res@;
                res.push((net.0.clone(), values));
                proof {
                    assert(decoded_outputs(res@) =~= decoded_outputs(before).push(
                        net_output(*net, s),
                    ));
                    lemma_visible_step(nets, i as int);
                    assert(visible_nets(nets.subrange(0, i + 1)).map_values(
                        |n: (String, Netname)| net_output(n, s),
                    ) =~= visible_nets(nets.subrange(0, i as int)).map_values(
                        |n: (String, Netname)| net_output(n, s),
                    ).push(net_output(*net, s)));
                }
            } else {
                proof {
                    lemma_visible_step(nets, i as int);
                }
            }
            i = i + 1;
        }
        proof {
            assert(nets.subrange(0, i as int) == nets);
        }
        res
    }

    /// The module's state size, computed over its ports and nets.
    fn state_size(&self) -> (r: usize)
        requires
            self.module.indices_fit(),
        ensures
            r == self.module.state_size(),
    {
        let mut m: usize = 1;
        let mut i: usize = 0;
        while i < self.module.ports.len()
            invariant
                self.module.indices_fit(),
                i <= self.module.ports@.len(),
                m == if ports_bound(self.module.ports@.subrange(0, i as int)) > 1 {
                    ports_bound(self.module.ports@.subrange(0, i as int))
                } else {
                    1
                },
            decreases self.module.ports@.len() - i,
        {
            let b = bus_max(&self.module.ports[i].1.bits);
            proof {
                assert(self.module.ports@.subrange(0, i + 1).drop_last()
                    == self.module.ports@.subrange(0, i as int));
            }
            if b > m {
                m = b;
            }
            i = i + 1;
        }
        proof {
            assert(self.module.ports@.subrange(0, i as int) == self.module.ports@);
        }
        let ghost pm = m;
        assert(pm == (if ports_bound(self.module.ports@) > 1 {
            ports_bound(self.module.ports@)
        } else {
            1
        }));
        let mut i: usize = 0;
        while i < self.module.netnames.len()
            invariant
                self.module.indices_fit(),
                i <= self.module.netnames@.len(),
                m == if nets_bound(self.module.netnames@.subrange(0, i as int)) > pm {
                    nets_bound(self.module.netnames@.subrange(0, i as int))
                } else {
                    pm as nat
                },
            decreases self.module.netnames@.len() - i,
        {
            let b = bus_max(&self.module.netnames[i].1.bits);
            proof {
                assert(self.module.netnames@.subrange(0, i + 1).drop_last()
                    == self.module.netnames@.subrange(0, i as int));
            }
            if b > m {
                m = b;
            }
            i = i + 1;
        }
        proof {
            assert(self.module.netnames@.subrange(0, i as int) == self.module.netnames@);
        }
        m
    }
}

/// One more than the largest index on the bus; zero for an empty bus.
fn bus_max(bits: &Vec<usize>) -> (r: usize)
    requires
        forall|j: int| 0 <= j < bits@.len() ==> bits@[j] < usize::MAX,
    ensures
        r == bus_bound(bits@),
{
    let mut m: usize = 0;
    let mut j: usize = 0;
    while j < bits.len()
        invariant
            j <= bits@.len(),
            forall|k: int| 0 <= k < bits@.len() ==> bits@[k] < usize::MAX,
            m == bus_bound(bits@.subrange(0, j as int)),
        decreases bits@.len() - j,
    {
        proof {
            assert(bits@.subrange(0, j + 1).drop_last() == bits@.subrange(0, j as int));
        }
        if bits[j] + 1 > m {
            m = bits[j] + 1;
        }
        j = j + 1;
    }
    proof {
        assert(bits@.subrange(0, j as int) == bits@);
    }
    m
}

} // verus!
