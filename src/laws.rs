//! What holds of the evaluator across calls and across inputs.
use vstd::prelude::*;
use vstd::seq_lib::*;

use crate::eval::{
    apply_lanes, bus, cell_runnable, cell_step, gate_kind, gate_value, input_conns, output_conn,
    GateKind,
};
use crate::netlist::{Cell, Module, Netname};
use crate::runner::{decoded_outputs, evaluated, outputs_of, visible_nets};
use crate::schedule::{
    entries_upto, first_owner, insert_pos, order_key, runs_before, schedule_of, sorted_entries,
    Entry, RunError,
};
use crate::signal::{decoded, Signal};

verus! {

/// The outputs are exactly the nets with no hidden name, in net order, each
/// with as many values as its bus has bit indices.
pub proof fn lemma_outputs_are_visible_nets(m: Module, s: Seq<bool>)
    ensures
        outputs_of(m, s).len() == visible_nets(m.netnames@).len(),
        forall|k: int|
            0 <= k < outputs_of(m, s).len() ==> {
                let n = #[trigger] visible_nets(m.netnames@)[k];
                &&& n.1.hide_name == 0
                &&& outputs_of(m, s)[k].0 == n.0@
                &&& outputs_of(m, s)[k].1.len() == n.1.bits@.len()
            },
        forall|i: int|
            0 <= i < m.netnames@.len() && m.netnames@[i].1.hide_name == 0
                ==> visible_nets(m.netnames@).contains(#[trigger] m.netnames@[i]),
{
    let nets = m.netnames@;
    let pred = |n: (String, Netname)| n.1.hide_name == 0;
    assert(visible_nets(nets) == nets.filter(pred));
    assert forall|k: int| 0 <= k < outputs_of(m, s).len() implies {
        let n = #[trigger] visible_nets(m.netnames@)[k];
        &&& n.1.hide_name == 0
        &&& outputs_of(m, s)[k].0 == n.0@
        &&& outputs_of(m, s)[k].1.len() == n.1.bits@.len()
    } by {
        nets.lemma_filter_pred(pred, k);
    }
    assert forall|i: int|
        0 <= i < nets.len() && nets[i].1.hide_name == 0 implies visible_nets(nets).contains(
        #[trigger] nets[i],
    ) by {
        nets.lemma_filter_contains(pred, i);
    }
}

/// Two evaluations of one module on one input agree: both fail with the same
/// error, or both succeed with outputs that stand for the same values.
pub proof fn lemma_deterministic<T: Signal>(
    m: Module,
    input: Seq<T>,
    r1: Result<Vec<(String, Vec<T>)>, RunError>,
    r2: Result<Vec<(String, Vec<T>)>, RunError>,
)
    requires
        evaluated(m, input, r1),
        evaluated(m, input, r2),
    ensures
        r1 is Ok <==> r2 is Ok,
        r1 matches Ok(v1) ==> r2 matches Ok(v2) && decoded_outputs(v1@) == decoded_outputs(v2@),
        r1 matches Err(e1) ==> r2 matches Err(e2) && e1 == e2,
{
}

/// A boolean stands for itself.
pub proof fn lemma_decoded_bool(s: Seq<bool>)
    ensures
        decoded(s) == s,
{
    assert(decoded(s) =~= s);
}

/// Evaluating over any signal type gives, under `decode`, the very booleans
/// that evaluating the decoded input over `bool` gives; and the same error
/// where there is one.
pub proof fn lemma_representation_equivalence<T: Signal>(
    m: Module,
    x: Seq<T>,
    b: Seq<bool>,
    rx: Result<Vec<(String, Vec<T>)>, RunError>,
    rb: Result<Vec<(String, Vec<bool>)>, RunError>,
)
    requires
        decoded(x) == b,
        evaluated(m, x, rx),
        evaluated(m, b, rb),
    ensures
        rx is Ok <==> rb is Ok,
        rx matches Ok(vx) ==> rb matches Ok(vb) && vx@.len() == vb@.len() && forall|k: int|
            0 <= k < vx@.len() ==> (#[trigger] vx@[k]).0@ == vb@[k].0@ && decoded(vx@[k].1@)
                == vb@[k].1@,
        rx matches Err(ex) ==> rb matches Err(eb) && ex == eb,
{
    lemma_decoded_bool(b);
    if let Ok(vx) = rx {
        if let Ok(vb) = rb {
            assert(decoded_outputs(vx@) == decoded_outputs(vb@));
            assert(decoded_outputs(vx@).len() == vx@.len());
            assert(decoded_outputs(vb@).len() == vb@.len());
            assert forall|k: int| 0 <= k < vx@.len() implies (#[trigger] vx@[k]).0@ == vb@[k].0@
                && decoded(vx@[k].1@) == vb@[k].1@ by {
                assert(decoded_outputs(vx@)[k] == (vx@[k].0@, decoded(vx@[k].1@)));
                assert(decoded_outputs(vb@)[k] == (vb@[k].0@, decoded(vb@[k].1@)));
                lemma_decoded_bool(vb@[k].1@);
            }
        }
    }
}

/// The bus `out` holds distinct indices, none of which is read on
/// its first `n` lanes.
pub open spec fn lanes_apart(a: Seq<usize>, b: Seq<usize>, out: Seq<usize>, n: int) -> bool {
    &&& forall|i: int, j: int| 0 <= i < j < n ==> out[i] != out[j]
    &&& forall|i: int, j: int| 0 <= i < n && 0 <= j < n ==> out[i] != a[j] && out[i] != b[j]
}

/// A gate whose output bus is apart from its inputs computes each lane from
/// the same lane of its inputs, across the whole bus, and writes nothing else.
pub proof fn lemma_gate_lanes(
    k: GateKind,
    a: Seq<usize>,
    b: Seq<usize>,
    out: Seq<usize>,
    s: Seq<bool>,
    n: int,
)
    requires
        0 <= n <= out.len(),
        a.len() >= out.len(),
        b.len() >= out.len(),
        forall|i: int| 0 <= i < out.len() ==> a[i] < s.len() && b[i] < s.len() && out[i] < s.len(),
        lanes_apart(a, b, out, out.len() as int),
    ensures
        apply_lanes(k, a, b, out, s, n).len() == s.len(),
        forall|i: int|
            0 <= i < n ==> apply_lanes(k, a, b, out, s, n)[#[trigger] out[i] as int] == gate_value(
                k,
                s[a[i] as int],
                s[b[i] as int],
            ),
        forall|p: int|
            0 <= p < s.len() && (forall|i: int| 0 <= i < n ==> out[i] != p) ==> #[trigger] apply_lanes(
                k,
                a,
                b,
                out,
                s,
                n,
            )[p] == s[p],
    decreases n,
{
    if n > 0 {
        lemma_gate_lanes(k, a, b, out, s, n - 1);
        let t = apply_lanes(k, a, b, out, s, n - 1);
        assert(forall|i: int| 0 <= i < n - 1 ==> out[i] != a[n - 1] && out[i] != b[n - 1]);
        assert(t[a[n - 1] as int] == s[a[n - 1] as int]);
        assert(t[b[n - 1] as int] == s[b[n - 1] as int]);
        let r = apply_lanes(k, a, b, out, s, n);
        assert forall|i: int| 0 <= i < n implies r[#[trigger] out[i] as int] == gate_value(
            k,
            s[a[i] as int],
            s[b[i] as int],
        ) by {
            if i < n - 1 {
                assert(out[i] != out[n - 1]);
            }
        }
        assert forall|p: int|
            0 <= p < s.len() && (forall|i: int| 0 <= i < n ==> out[i] != p) implies #[trigger] r[p]
            == s[p] by {
            assert(out[n - 1] != p);
        }
    }
}

/// For a supported cell whose output bus is apart from its inputs: output lane
/// `i` is the operator applied to lane `i` of the first input (and of the second,
/// for a binary gate), and every other position keeps its value.
pub proof fn lemma_cell_lanes(c: Cell, s: Seq<bool>)
    requires
        cell_runnable(c, s.len()),
        gate_kind(c.type_@) != GateKind::Unsupported,
        ({
            let ins = input_conns(c)->0;
            let a = bus(c, ins[0]);
            let b = if gate_kind(c.type_@) == GateKind::Not {
                a
            } else {
                bus(c, ins[1])
            };
            let out = bus(c, output_conn(c)->0);
            lanes_apart(a, b, out, out.len() as int)
        }),
    ensures
        ({
            let k = gate_kind(c.type_@);
            let ins = input_conns(c)->0;
            let a = bus(c, ins[0]);
            let b = if k == GateKind::Not {
                a
            } else {
                bus(c, ins[1])
            };
            let out = bus(c, output_conn(c)->0);
            &&& cell_step(c, s).len() == s.len()
            &&& forall|i: int|
                0 <= i < out.len() ==> cell_step(c, s)[#[trigger] out[i] as int] == gate_value(
                    k,
                    s[a[i] as int],
                    s[b[i] as int],
                )
            &&& forall|p: int|
                0 <= p < s.len() && !out.contains(p as usize) ==> #[trigger] cell_step(c, s)[p]
                    == s[p]
        }),
{
    let k = gate_kind(c.type_@);
    let ins = input_conns(c)->0;
    let a = bus(c, ins[0]);
    let b = if k == GateKind::Not {
        a
    } else {
        bus(c, ins[1])
    };
    let out = bus(c, output_conn(c)->0);
    assert(bus(c, ins[0]).len() >= out.len());
    if k != GateKind::Not {
        assert(bus(c, ins[1]).len() >= out.len());
    }
    lemma_gate_lanes(k, a, b, out, s, out.len() as int);
    assert forall|p: int| 0 <= p < s.len() && !out.contains(p as usize) implies #[trigger] cell_step(
        c,
        s,
    )[p] == s[p] by {
        assert forall|i: int| 0 <= i < out.len() implies out[i] != p by {
            if out[i] == p {
                assert(out.contains(p as usize));
            }
        }
    }
}

/// The entries are in the order `runs_before` gives.
pub open spec fn in_run_order(s: Seq<Entry>) -> bool {
    forall|i: int, j: int| 0 <= i < j < s.len() ==> runs_before(s[i], s[j])
}

/// No two entries come from the same net.
pub open spec fn distinct_nets(s: Seq<Entry>) -> bool {
    forall|i: int, j: int| 0 <= i < j < s.len() ==> s[i].1 != s[j].1
}

proof fn lemma_insert_pos(t: Seq<Entry>, e: Entry)
    ensures
        0 <= insert_pos(t, e) <= t.len(),
        forall|j: int| 0 <= j < insert_pos(t, e) ==> !runs_before(e, #[trigger] t[j]),
        insert_pos(t, e) < t.len() ==> runs_before(e, t[insert_pos(t, e)]),
    decreases t.len(),
{
    if t.len() > 0 && !runs_before(e, t[0]) {
        lemma_insert_pos(t.drop_first(), e);
        assert forall|j: int| 0 <= j < insert_pos(t, e) implies !runs_before(e, #[trigger] t[j]) by {
            if j > 0 {
                assert(t[j] == t.drop_first()[j - 1]);
            }
        }
    }
}

/// The schedule's sort keeps every entry, and puts entries from distinct
/// nets in ascending order of key, entries of equal key in net order.
pub proof fn lemma_sorted_entries(s: Seq<Entry>)
    ensures
        sorted_entries(s).to_multiset() == s.to_multiset(),
        distinct_nets(s) ==> in_run_order(sorted_entries(s)),
    decreases s.len(),
{
    broadcast use group_to_multiset_ensures;

    if s.len() > 0 {
        let rest = s.drop_last();
        let e = s.last();
        let t = sorted_entries(rest);
        lemma_sorted_entries(rest);
        lemma_insert_pos(t, e);
        let p = insert_pos(t, e);
        to_multiset_insert(t, p, e);
        assert(s == rest.push(e));
        if distinct_nets(s) {
            assert(distinct_nets(rest));
            assert forall|j: int| 0 <= j < t.len() implies (#[trigger] t[j]).1 != e.1 by {
                assert(t.to_multiset().count(t[j]) > 0);
                assert(rest.to_multiset().count(t[j]) > 0);
                assert(rest.contains(t[j]));
                let q = choose|q: int| 0 <= q < rest.len() && rest[q] == t[j];
                assert(s[q] == t[j]);
            }
            let r = sorted_entries(s);
            assert forall|i: int, j: int| 0 <= i < j < r.len() implies runs_before(r[i], r[j]) by {
                if j < p {
                    assert(r[i] == t[i] && r[j] == t[j]);
                } else if j == p {
                    assert(r[i] == t[i]);
                    assert(!runs_before(e, t[i]));
                } else if i < p {
                    assert(r[i] == t[i] && r[j] == t[j - 1]);
                    assert(!runs_before(e, t[i]));
                    assert(runs_before(e, t[p]));
                    if p < j - 1 {
                        assert(runs_before(t[p], t[j - 1]));
                    }
                } else if i == p {
                    assert(r[j] == t[j - 1]);
                    if p < j - 1 {
                        assert(runs_before(t[p], t[j - 1]));
                    }
                } else {
                    assert(r[i] == t[i - 1] && r[j] == t[j - 1]);
                }
            }
        }
    }
}

proof fn lemma_entries_nets(m: Module, n: int)
    requires
        n <= m.netnames@.len() <= usize::MAX,
    ensures
        entries_upto(m, n) matches Ok(es) ==> (forall|j: int|
            0 <= j < es.len() ==> (#[trigger] es[j]).1 < n) && (forall|i: int, j: int|
            0 <= i < j < es.len() ==> es[i].1 < es[j].1),
    decreases n,
{
    if n > 0 {
        lemma_entries_nets(m, n - 1);
        if let Ok(es) = entries_upto(m, n) {
            if let Ok(prev) = entries_upto(m, n - 1) {
                if es != prev {
                    let net = m.netnames@[n - 1];
                    let c = first_owner(m.cells@, net.0@)->0;
                    let k = order_key(m.cells@[c].0@)->0;
                    assert(es == prev.push((k as usize, (n - 1) as usize, c as usize)));
                    assert forall|j: int| 0 <= j < es.len() implies (#[trigger] es[j]).1 < n by {
                        if j < prev.len() {
                            assert(es[j] == prev[j]);
                        }
                    }
                    assert forall|i: int, j: int| 0 <= i < j < es.len() implies es[i].1
                        < es[j].1 by {
                        assert(es[i] == prev[i]);
                        assert(prev[i].1 < n - 1);
                        if j < prev.len() {
                            assert(es[j] == prev[j]);
                        } else {
                            assert(es[j].1 == n - 1);
                        }
                    }
                }
            }
        }
    }
}

/// The schedule evaluates one cell for each hidden net, ordered by the cells'
/// numbers, and among equal numbers in the order of the nets.
pub proof fn lemma_schedule_order(m: Module)
    requires
        m.netnames@.len() <= usize::MAX,
    ensures
        entries_upto(m, m.netnames@.len() as int) matches Ok(es) ==> {
            let sorted = sorted_entries(es);
            &&& sorted.to_multiset() == es.to_multiset()
            &&& in_run_order(sorted)
            &&& schedule_of(m) == Ok::<_, RunError>(sorted.map_values(|e: Entry| e.2))
        },
{
    let n = m.netnames@.len() as int;
    lemma_entries_nets(m, n);
    if let Ok(es) = entries_upto(m, n) {
        assert(distinct_nets(es));
        lemma_sorted_entries(es);
    }
}

} // verus!
