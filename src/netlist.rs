//! The netlist data model: ports, cells and nets wired by global bit indices.
//!
//! Maps of the exchange format are held as vectors of `(name, value)` pairs
//! in document order, with unique names.
use vstd::prelude::*;

verus! {

/// The boundary direction of a port, or of a cell's connection.
#[derive(Clone, Copy, Debug, PartialEq, Eq, Structural)]
pub enum Direction {
    Input,
    Output,
    Inout,
}

/// A module port: a bus and its direction.
#[derive(Clone, Debug)]
pub struct Port {
    pub direction: Direction,
    pub bits: Vec<usize>,
}

/// A gate instance.
#[derive(Clone, Debug)]
pub struct Cell {
    pub hide_name: usize,
    /// The type tag, such as `$and`.
    pub type_: String,
    pub parameters: Vec<(String, String)>,
    pub attributes: Vec<(String, String)>,
    pub port_directions: Vec<(String, Direction)>,
    pub connections: Vec<(String, Vec<usize>)>,
}

/// A named net. A nonzero `hide_name` marks a name that the synthesizer made up.
#[derive(Clone, Debug)]
pub struct Netname {
    pub hide_name: usize,
    pub bits: Vec<usize>,
    pub attributes: Vec<(String, String)>,
}

/// The unit of evaluation.
#[derive(Clone, Debug)]
pub struct Module {
    pub attributes: Vec<(String, String)>,
    pub ports: Vec<(String, Port)>,
    pub cells: Vec<(String, Cell)>,
    pub netnames: Vec<(String, Netname)>,
}

/// One more than the largest index on a bus; zero for an empty bus.
pub open spec fn bus_bound(bits: Seq<usize>) -> nat
    decreases bits.len(),
{
    if bits.len() == 0 {
        0
    } else {
        let rest = bus_bound(bits.drop_last());
        if rest > bits.last() + 1 {
            rest
        } else {
            (bits.last() + 1) as nat
        }
    }
}

/// One more than the largest index on any port's bus.
pub open spec fn ports_bound(ports: Seq<(String, Port)>) -> nat
    decreases ports.len(),
{
    if ports.len() == 0 {
        0
    } else {
        let rest = ports_bound(ports.drop_last());
        let last = bus_bound(ports.last().1.bits@);
        if rest > last {
            rest
        } else {
            last
        }
    }
}

/// One more than the largest index on any net's bus.
pub open spec fn nets_bound(nets: Seq<(String, Netname)>) -> nat
    decreases nets.len(),
{
    if nets.len() == 0 {
        0
    } else {
        let rest = nets_bound(nets.drop_last());
        let last = bus_bound(nets.last().1.bits@);
        if rest > last {
            rest
        } else {
            last
        }
    }
}

impl Module {
    /// No port or net references the largest `usize`, so the state size fits
    /// in a `usize`.
    pub open spec fn indices_fit(&self) -> bool {
        &&& forall|i: int, j: int|
            0 <= i < self.ports@.len() && 0 <= j < self.ports@[i].1.bits@.len()
                ==> self.ports@[i].1.bits@[j] < usize::MAX
        &&& forall|i: int, j: int|
            0 <= i < self.netnames@.len() && 0 <= j < self.netnames@[i].1.bits@.len()
                ==> self.netnames@[i].1.bits@[j] < usize::MAX
    }

    /// The number of state positions that the ports and nets need: one more
    /// than the largest bit index they reference, and at least one.
    pub open spec fn state_size(&self) -> nat {
        let p = ports_bound(self.ports@);
        let n = nets_bound(self.netnames@);
        let m = if p > n {
            p
        } else {
            n
        };
        if m > 1 {
            m
        } else {
            1
        }
    }
}

/// Every index on the bus lies below its bound.
pub proof fn lemma_bus_bound(bits: Seq<usize>)
    ensures
        forall|j: int| 0 <= j < bits.len() ==> bits[j] < bus_bound(bits),
    decreases bits.len(),
{
    if bits.len() > 0 {
        lemma_bus_bound(bits.drop_last());
        assert forall|j: int| 0 <= j < bits.len() implies bits[j] < bus_bound(bits) by {
            if j < bits.len() - 1 {
                assert(bits.drop_last()[j] == bits[j]);
            }
        }
    }
}

/// Every index on a net's bus lies below the nets' bound.
pub proof fn lemma_nets_bound(nets: Seq<(String, Netname)>)
    ensures
        forall|i: int, j: int|
            0 <= i < nets.len() && 0 <= j < nets[i].1.bits@.len() ==> nets[i].1.bits@[j]
                < nets_bound(nets),
    decreases nets.len(),
{
    if nets.len() > 0 {
        lemma_nets_bound(nets.drop_last());
        lemma_bus_bound(nets.last().1.bits@);
        assert forall|i: int, j: int|
            0 <= i < nets.len() && 0 <= j < nets[i].1.bits@.len() implies nets[i].1.bits@[j]
                < nets_bound(nets) by {
            if i < nets.len() - 1 {
                assert(nets.drop_last()[i] == nets[i]);
            }
        }
    }
}

/// A named collection of modules.
#[derive(Clone, Debug)]
pub struct Circuit {
    pub creator: String,
    pub modules: Vec<(String, Module)>,
}

impl Circuit {
    /// The index of the first module named `name`.
    pub fn find_module(&self, name: &String) -> (r: Option<usize>)
        ensures
            match r {
                Some(i) => i < self.modules@.len() && self.modules@[i as int].0@ == name@
                    && forall|j: int| 0 <= j < i ==> self.modules@[j].0@ != name@,
                None => forall|j: int| 0 <= j < self.modules@.len() ==> self.modules@[j].0@ != name@,
            },
    {
        let mut i: usize = 0;
        while i < self.modules.len()
            invariant
                i <= self.modules@.len(),
                forall|j: int| 0 <= j < i ==> self.modules@[j].0@ != name@,
            decreases self.modules@.len() - i,
        {
            if self.modules[i].0 == *name {
                return Some(i);
            }
            i = i + 1;
        }
        None
    }
}

} // verus!
