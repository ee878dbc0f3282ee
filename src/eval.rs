//! Evaluation of one cell, lane by lane, over the state vector.
use vstd::prelude::*;

use crate::netlist::{Cell, Direction};
use crate::signal::{decoded, Signal};

verus! {

/// The operator that a cell's type tag names.
#[derive(Clone, Copy, Debug, PartialEq, Eq, Structural)]
pub enum GateKind {
    And,
    Or,
    Xor,
    Not,
    /// Any other type tag: the cell is skipped.
    Unsupported,
}

pub open spec fn gate_kind(t: Seq<char>) -> GateKind {
    if t == seq!['$', 'a', 'n', 'd'] {
        GateKind::And
    } else if t == seq!['$', 'o', 'r'] {
        GateKind::Or
    } else if t == seq!['$', 'x', 'o', 'r'] {
        GateKind::Xor
    } else if t == seq!['$', 'n', 'o', 't'] {
        GateKind::Not
    } else {
        GateKind::Unsupported
    }
}

/// How many input buses an operator reads.
pub open spec fn arity(k: GateKind) -> nat {
    match k {
        GateKind::Not => 1,
        GateKind::Unsupported => 0,
        _ => 2,
    }
}

/// What an operator computes on one lane; `b` is ignored by `Not`.
pub open spec fn gate_value(k: GateKind, a: bool, b: bool) -> bool {
    match k {
        GateKind::And => a && b,
        GateKind::Or => a || b,
        GateKind::Xor => a != b,
        GateKind::Not => !a,
        GateKind::Unsupported => a,
    }
}

/// The index of the first connection named `name`.
pub open spec fn conn_index(conns: Seq<(String, Vec<usize>)>, name: Seq<char>) -> Option<usize>
    decreases conns.len(),
{
    if conns.len() == 0 {
        None
    } else {
        match conn_index(conns.drop_last(), name) {
            Some(i) => Some(i),
            None => if conns.last().0@ == name {
                Some((conns.len() - 1) as usize)
            } else {
                None
            },
        }
    }
}

/// The connections of the first `n` ports that are inputs, in port order;
/// `None` where one of them has no connection.
pub open spec fn inputs_upto(c: Cell, n: int) -> Option<Seq<usize>>
    decreases n,
{
    if n <= 0 {
        Some(Seq::empty())
    } else {
        match inputs_upto(c, n - 1) {
            None => None,
            Some(ins) => {
                let p = c.port_directions@[n - 1];
                if p.1 == Direction::Input {
                    match conn_index(c.connections@, p.0@) {
                        None => None,
                        Some(j) => Some(ins.push(j)),
                    }
                } else {
                    Some(ins)
                }
            },
        }
    }
}

pub open spec fn input_conns(c: Cell) -> Option<Seq<usize>> {
    inputs_upto(c, c.port_directions@.len() as int)
}

/// The name of the last port that is an output.
pub open spec fn last_output(pd: Seq<(String, Direction)>) -> Option<Seq<char>>
    decreases pd.len(),
{
    if pd.len() == 0 {
        None
    } else if pd.last().1 == Direction::Output {
        Some(pd.last().0@)
    } else {
        last_output(pd.drop_last())
    }
}

/// The connection of the cell's output port.
pub open spec fn output_conn(c: Cell) -> Option<usize> {
    match last_output(c.port_directions@) {
        None => None,
        Some(p) => conn_index(c.connections@, p),
    }
}

/// The bus of connection `j`.
pub open spec fn bus(c: Cell, j: usize) -> Seq<usize> {
    c.connections@[j as int].1@
}

/// Every index on the bus lies below `n`.
pub open spec fn bus_within(b: Seq<usize>, n: nat) -> bool {
    forall|i: int| 0 <= i < b.len() ==> b[i] < n
}

/// The cell can be evaluated over a state of `n` positions: each input port
/// and the output port have a connection, and a supported gate has its input
/// buses, at least as long as its output bus, all within the state.
pub open spec fn cell_runnable(c: Cell, n: nat) -> bool {
    &&& input_conns(c) is Some
    &&& output_conn(c) is Some
    &&& gate_kind(c.type_@) != GateKind::Unsupported ==> {
        let ins = input_conns(c)->0;
        let out = bus(c, output_conn(c)->0);
        &&& ins.len() >= arity(gate_kind(c.type_@))
        &&& bus_within(out, n)
        &&& forall|k: int|
            0 <= k < arity(gate_kind(c.type_@)) ==> bus(c, #[trigger] ins[k]).len() >= out.len()
                && bus_within(bus(c, ins[k]), n)
    }
}

/// The first `n` lanes of a gate, each written before the next is read.
pub open spec fn apply_lanes(
    k: GateKind,
    a: Seq<usize>,
    b: Seq<usize>,
    out: Seq<usize>,
    s: Seq<bool>,
    n: int,
) -> Seq<bool>
    decreases n,
{
    if n <= 0 {
        s
    } else {
        let t = apply_lanes(k, a, b, out, s, n - 1);
        t.update(out[n - 1] as int, gate_value(k, t[a[n - 1] as int], t[b[n - 1] as int]))
    }
}

/// The state after evaluating cell `c` on state `s`.
pub open spec fn cell_step(c: Cell, s: Seq<bool>) -> Seq<bool> {
    let k = gate_kind(c.type_@);
    if k == GateKind::Unsupported {
        s
    } else {
        let ins = input_conns(c)->0;
        let a = bus(c, ins[0]);
        let b = if k == GateKind::Not {
            a
        } else {
            bus(c, ins[1])
        };
        let out = bus(c, output_conn(c)->0);
        apply_lanes(k, a, b, out, s, out.len() as int)
    }
}

/// The operator that the type tag names.
pub fn gate_kind_of(t: &String) -> (r: GateKind)
    ensures
        r == gate_kind(t@),
{
    proof {
        reveal_strlit("$and");
        reveal_strlit("$or");
        reveal_strlit("$xor");
        reveal_strlit("$not");
        assert("$and"@ =~= seq!['$', 'a', 'n', 'd']);
        assert("$or"@ =~= seq!['$', 'o', 'r']);
        assert("$xor"@ =~= seq!['$', 'x', 'o', 'r']);
        assert("$not"@ =~= seq!['$', 'n', 'o', 't']);
    }
    if *t == String::from_str("$and") {
        GateKind::And
    } else if *t == String::from_str("$or") {
        GateKind::Or
    } else if *t == String::from_str("$xor") {
        GateKind::Xor
    } else if *t == String::from_str("$not") {
        GateKind::Not
    } else {
        GateKind::Unsupported
    }
}

proof fn lemma_conn_index_extend(conns: Seq<(String, Vec<usize>)>, name: Seq<char>, k: int)
    requires
        0 <= k <= conns.len(),
        conn_index(conns.subrange(0, k), name) is Some,
    ensures
        conn_index(conns, name) == conn_index(conns.subrange(0, k), name),
    decreases conns.len() - k,
{
    if k < conns.len() {
        assert(conns.subrange(0, k + 1).drop_last() == conns.subrange(0, k));
        lemma_conn_index_extend(conns, name, k + 1);
    } else {
        assert(conns.subrange(0, k) == conns);
    }
}

/// The index of the first connection named `name`.
fn find_connection(conns: &Vec<(String, Vec<usize>)>, name: &String) -> (r: Option<usize>)
    ensures
        r == conn_index(conns@, name@),
        r matches Some(j) ==> j < conns@.len(),
{
    let mut i: usize = 0;
    while i < conns.len()
        invariant
            i <= conns@.len(),
            conn_index(conns@.subrange(0, i as int), name@) is None,
        decreases conns@.len() - i,
    {
        proof {
            assert(conns@.subrange(0, i + 1).drop_last() == conns@.subrange(0, i as int));
        }
        if conns[i].0 == *name {
            proof {
                lemma_conn_index_extend(conns@, name@, i + 1);
            }
            return Some(i);
        }
        i = i + 1;
    }
    assert(conns@.subrange(0, i as int) == conns@);
    None
}

proof fn lemma_inputs_fail(c: Cell, k: int, n: int)
    requires
        0 <= k <= n,
        inputs_upto(c, k) is None,
    ensures
        inputs_upto(c, n) is None,
    decreases n - k,
{
    if k < n {
        lemma_inputs_fail(c, k, n - 1);
    }
}

/// The connections of the cell's input ports, in port order.
fn input_connections(c: &Cell) -> (r: Option<Vec<usize>>)
    ensures
        match r {
            Some(v) => input_conns(*c) == Some(v@) && forall|j: int|
                0 <= j < v@.len() ==> v@[j] < c.connections@.len(),
            None => input_conns(*c) is None,
        },
{
    let mut ins: Vec<usize> = Vec::new();
    let mut i: usize = 0;
    while i < c.port_directions.len()
        invariant
            i <= c.port_directions@.len(),
            inputs_upto(*c, i as int) == Some(ins@),
            forall|j: int| 0 <= j < ins@.len() ==> ins@[j] < c.connections@.len(),
        decreases c.port_directions@.len() - i,
    {
        if c.port_directions[i].1 == Direction::Input {
            match find_connection(&c.connections, &c.port_directions[i].0) {
                None => {
                    proof {
                        lemma_inputs_fail(*c, i + 1, c.port_directions@.len() as int);
                    }
                    return None;
                },
                Some(j) => {
                    ins.push(j);
                },
            }
        }
        i = i + 1;
    }
    Some(ins)
}

/// The connection of the cell's last output port.
fn output_connection(c: &Cell) -> (r: Option<usize>)
    ensures
        r == output_conn(*c),
{
    let mut i: usize = c.port_directions.len();
    assert(c.port_directions@.subrange(0, i as int) == c.port_directions@);
    while i > 0
        invariant
            i <= c.port_directions@.len(),
            last_output(c.port_directions@) == last_output(
                c.port_directions@.subrange(0, i as int),
            ),
        decreases i,
    {
        proof {
            assert(c.port_directions@.subrange(0, i as int).drop_last()
                == c.port_directions@.subrange(0, i - 1));
        }
        if c.port_directions[i - 1].1 == Direction::Output {
            return find_connection(&c.connections, &c.port_directions[i - 1].0);
        }
        i = i - 1;
    }
    proof {
        assert(c.port_directions@.subrange(0, 0) == Seq::<(String, Direction)>::empty());
    }
    None
}

proof fn lemma_conn_index_bound(conns: Seq<(String, Vec<usize>)>, name: Seq<char>)
    ensures
        conn_index(conns, name) matches Some(j) ==> j < conns.len(),
    decreases conns.len(),
{
    if conns.len() > 0 {
        lemma_conn_index_bound(conns.drop_last(), name);
    }
}

/// Whether every index on the bus lies below `n`.
fn all_below(b: &Vec<usize>, n: usize) -> (r: bool)
    ensures
        r == bus_within(b@, n as nat),
{
    let mut i: usize = 0;
    while i < b.len()
        invariant
            i <= b@.len(),
            forall|j: int| 0 <= j < i ==> b@[j] < n,
        decreases b@.len() - i,
    {
        if b[i] >= n {
            return false;
        }
        i = i + 1;
    }
    true
}

/// Whether the cell can be evaluated over a state of `n` positions.
pub fn cell_is_runnable(c: &Cell, n: usize) -> (r: bool)
    ensures
        r == cell_runnable(*c, n as nat),
{
    let ins = match input_connections(c) {
        None => {
            return false;
        },
        Some(v) => v,
    };
    let o = match output_connection(c) {
        None => {
            return false;
        },
        Some(o) => o,
    };
    let k = gate_kind_of(&c.type_);
    if k == GateKind::Unsupported {
        return true;
    }
    let ar: usize = if k == GateKind::Not {
        1
    } else {
        2
    };
    if ins.len() < ar {
        return false;
    }
    proof {
        lemma_conn_index_bound(c.connections@, last_output(c.port_directions@)->0);
    }
    let out = &c.connections[o].1;
    if !all_below(out, n) {
        return false;
    }
    let mut q: usize = 0;
    while q < ar
        invariant
            ar == arity(k),
            k == gate_kind(c.type_@),
            ins@ == input_conns(*c)->0,
            forall|j: int| 0 <= j < ins@.len() ==> ins@[j] < c.connections@.len(),
            ins@.len() >= ar,
            out@ == bus(*c, o),
            output_conn(*c) == Some(o),
            q <= ar,
            forall|j: int|
                0 <= j < q ==> bus(*c, #[trigger] ins@[j]).len() >= out@.len() && bus_within(
                    bus(*c, ins@[j]),
                    n as nat,
                ),
        decreases ar - q,
    {
        let bq = &c.connections[ins[q]].1;
        if bq.len() < out.len() || !all_below(bq, n) {
            proof {
                assert(bus(*c, ins@[q as int]) == bq@);
            }
            return false;
        }
        q = q + 1;
    }
    true
}

/// Evaluates cell `c` on `bits`; returns whether its type is supported.
pub fn eval_cell<T: Signal>(bits: &mut Vec<T>, c: &Cell) -> (supported: bool)
    requires
        cell_runnable(*c, old(bits)@.len()),
    ensures
        final(bits)@.len() == old(bits)@.len(),
        decoded(final(bits)@) == cell_step(*c, decoded(old(bits)@)),
        supported == (gate_kind(c.type_@) != GateKind::Unsupported),
{
    let k = gate_kind_of(&c.type_);
    if k == GateKind::Unsupported {
        return false;
    }
    let ins = match input_connections(c) {
        Some(v) => v,
        None => {
            return false;
        },
    };
    let o = match output_connection(c) {
        Some(o) => o,
        None => {
            return false;
        },
    };
    proof {
        lemma_conn_index_bound(c.connections@, last_output(c.port_directions@)->0);
        assert(bus(*c, ins@[0]).len() >= bus(*c, o).len());
        if k != GateKind::Not {
            assert(bus(*c, ins@[1]).len() >= bus(*c, o).len());
        }
    }
    let ghost s0 = decoded(bits@);
    let a = &c.connections[ins[0]].1;
    let b = if k == GateKind::Not {
        a
    } else {
        &c.connections[ins[1]].1
    };
    let out = &c.connections[o].1;
    let mut i: usize = 0;
    while i < out.len()
        invariant
            i <= out@.len(),
            out@ == bus(*c, o),
            a@.len() >= out@.len(),
            b@.len() >= out@.len(),
            bus_within(a@, bits@.len()),
            bus_within(b@, bits@.len()),
            bus_within(out@, bits@.len()),
            bits@.len() == old(bits)@.len(),
            k == gate_kind(c.type_@),
            k != GateKind::Unsupported,
            decoded(bits@) == apply_lanes(k, a@, b@, out@, s0, i as int),
        decreases out@.len() - i,
    {
        let x = {
            let va = &bits[a[i]];
            let vb = &bits[b[i]];
            match k {
                GateKind::And => va.and(vb),
                GateKind::Or => va.or(vb),
                GateKind::Xor => va.xor(vb),
                _ => va.not(),
            }
        };
        let ghost before = bits@;
        proof {
            let t = decoded(before);
            assert(t[a@[i as int] as int] == before[a@[i as int] as int].decode());
            assert(t[b@[i as int] as int] == before[b@[i as int] as int].decode());
            assert(x.decode() == gate_value(k, t[a@[i as int] as int], t[b@[i as int] as int]));
        }
        bits.set(out[i], x);
        proof {
            assert(decoded(bits@) =~= decoded(before).update(out@[i as int] as int, x.decode()));
        }
        i = i + 1;
    }
    true
}

} // verus!
