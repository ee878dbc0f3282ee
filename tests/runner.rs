use yorunner::eval::gate_kind_of;
use yorunner::schedule::{has_prefix, parse_decimal};
use yorunner::{evaluate, Cell, Circuit, Direction, GateKind, Module, Netname, Port, RunError, Runner, Signal};

fn bus(from: usize, len: usize) -> Vec<usize> {
    (from..from + len).collect()
}

fn port(direction: Direction, bits: Vec<usize>) -> Port {
    Port { direction, bits }
}

fn net(hidden: bool, bits: Vec<usize>) -> Netname {
    Netname { hide_name: if hidden { 1 } else { 0 }, bits, attributes: vec![] }
}

fn gate(type_: &str, inputs: Vec<(&str, Vec<usize>)>, output: (&str, Vec<usize>)) -> Cell {
    let mut port_directions = vec![];
    let mut connections = vec![];
    for (name, bits) in inputs {
        port_directions.push((name.to_string(), Direction::Input));
        connections.push((name.to_string(), bits));
    }
    port_directions.push((output.0.to_string(), Direction::Output));
    connections.push((output.0.to_string(), output.1));
    Cell {
        hide_name: 1,
        type_: type_.to_string(),
        parameters: vec![],
        attributes: vec![],
        port_directions,
        connections,
    }
}

/// Two operand buses A and B of `width` bits after two padding bits, and an
/// output bus OUT driven by one gate of type `type_`.
fn binary_module(type_: &str, width: usize) -> Module {
    let a = bus(2, width);
    let b = bus(2 + width, width);
    let out = bus(2 + 2 * width, width);
    let cell_name = format!("{}$top.v:4$1", type_);
    Module {
        attributes: vec![],
        ports: vec![
            ("A".to_string(), port(Direction::Input, a.clone())),
            ("B".to_string(), port(Direction::Input, b.clone())),
            ("OUT".to_string(), port(Direction::Output, out.clone())),
        ],
        cells: vec![(
            cell_name.clone(),
            gate(type_, vec![("A", a.clone()), ("B", b.clone())], ("Y", out.clone())),
        )],
        netnames: vec![
            (format!("{}_Y", cell_name), net(true, out.clone())),
            ("A".to_string(), net(false, a)),
            ("B".to_string(), net(false, b)),
            ("OUT".to_string(), net(false, out)),
        ],
    }
}

fn not_module(width: usize) -> Module {
    let a = bus(2, width);
    let out = bus(2 + width, width);
    Module {
        attributes: vec![],
        ports: vec![
            ("A".to_string(), port(Direction::Input, a.clone())),
            ("OUT".to_string(), port(Direction::Output, out.clone())),
        ],
        cells: vec![("$not$top.v:3$1".to_string(), gate("$not", vec![("A", a.clone())], ("Y", out.clone())))],
        netnames: vec![
            ("$not$top.v:3$1_Y".to_string(), net(true, out.clone())),
            ("A".to_string(), net(false, a)),
            ("OUT".to_string(), net(false, out)),
        ],
    }
}

fn bits_of(x: u8, width: usize) -> Vec<bool> {
    (0..width).map(|i| (x >> i) & 1 == 1).collect()
}

fn run_binary(type_: &str, a: &[bool], b: &[bool]) -> Vec<bool> {
    let width = a.len();
    let mut input = vec![false, true];
    input.extend_from_slice(a);
    input.extend_from_slice(b);
    let mut runner = Runner::new(binary_module(type_, width));
    runner.init(input);
    assert!(runner.run().is_ok());
    let outputs = runner.print_bits();
    outputs.into_iter().find(|o| o.0 == "OUT").unwrap().1
}

fn run_not(a: &[bool]) -> Vec<bool> {
    let mut input = vec![false, true];
    input.extend_from_slice(a);
    let mut runner = Runner::new(not_module(a.len()));
    runner.init(input);
    assert!(runner.run().is_ok());
    runner.print_bits().into_iter().find(|o| o.0 == "OUT").unwrap().1
}

#[test]
fn bool_signal_truth_tables() {
    for x in [false, true] {
        for y in [false, true] {
            assert_eq!(x.and(&y), x && y);
            assert_eq!(x.or(&y), x || y);
            assert_eq!(x.xor(&y), x != y);
        }
        assert_eq!(x.not(), !x);
        assert_eq!(x.duplicate(), x);
    }
    assert_eq!(true.render(), "true");
    assert_eq!(false.render(), "false");
}

#[test]
fn one_bit_gates_follow_truth_tables() {
    assert_eq!(run_binary("$and", &[true], &[true]), vec![true]);
    assert_eq!(run_binary("$and", &[true], &[false]), vec![false]);
    assert_eq!(run_binary("$and", &[false], &[false]), vec![false]);
    assert_eq!(run_binary("$or", &[true], &[false]), vec![true]);
    assert_eq!(run_binary("$or", &[false], &[false]), vec![false]);
    assert_eq!(run_binary("$xor", &[true], &[true]), vec![false]);
    assert_eq!(run_binary("$xor", &[false], &[true]), vec![true]);
    assert_eq!(run_not(&[true]), vec![false]);
    assert_eq!(run_not(&[false]), vec![true]);
}

#[test]
fn gates_hold_across_full_bus_width() {
    let a = bits_of(0b1011_0110, 8);
    let b = bits_of(0b0110_1100, 8);
    assert_eq!(run_binary("$or", &a, &b), bits_of(0b1111_1110, 8));
    assert_eq!(run_binary("$xor", &a, &b), bits_of(0b1101_1010, 8));
    assert_eq!(run_not(&a), bits_of(0b0100_1001, 8));
}

#[test]
fn eight_bit_and_end_to_end() {
    let a = vec![true, true, false, true, true, false, false, true];
    let b = vec![false, false, true, true, false, true, false, false];
    let mut input = vec![false, false];
    input.extend_from_slice(&a);
    input.extend_from_slice(&b);
    let mut runner = Runner::new(binary_module("$and", 8));
    runner.init(input);
    assert!(runner.run().is_ok());
    let outputs = runner.print_bits();
    let out = &outputs.iter().find(|o| o.0 == "OUT").expect("OUT is visible").1;
    for i in 0..8 {
        assert_eq!(out[i], a[i] & b[i]);
    }
    assert_eq!(out, &vec![false, false, false, true, false, false, false, false]);
}

#[test]
fn outputs_are_exactly_the_visible_nets() {
    let mut runner = Runner::new(binary_module("$xor", 3));
    runner.init(vec![false, true, true, false, true, true, true, false]);
    assert!(runner.run().is_ok());
    let outputs = runner.print_bits();
    let names: Vec<&str> = outputs.iter().map(|o| o.0.as_str()).collect();
    assert_eq!(names, vec!["A", "B", "OUT"]);
    for o in &outputs {
        assert_eq!(o.1.len(), 3);
    }
    assert_eq!(outputs[0].1, vec![true, false, true]);
    assert_eq!(outputs[1].1, vec![true, true, false]);
    assert_eq!(outputs[2].1, vec![false, true, true]);
}

#[test]
fn init_pads_with_zeros() {
    let mut runner: Runner<bool> = Runner::new(binary_module("$and", 4));
    runner.init(vec![true, true, true]);
    assert_eq!(runner.bits.len(), 14);
    assert_eq!(&runner.bits[..3], &[true, true, true]);
    assert!(runner.bits[3..].iter().all(|b| !*b));
}

#[test]
fn init_keeps_a_longer_input() {
    let mut runner: Runner<bool> = Runner::new(not_module(1));
    runner.init(vec![true; 6]);
    assert_eq!(runner.bits, vec![true; 6]);
}

#[test]
fn init_on_an_empty_module_gives_one_position() {
    let module = Module { attributes: vec![], ports: vec![], cells: vec![], netnames: vec![] };
    let mut runner: Runner<bool> = Runner::new(module);
    runner.init(vec![true]);
    assert_eq!(runner.bits, vec![true]);
}

#[test]
fn unsupported_gate_is_skipped_with_a_notice() {
    let mut module = binary_module("$and", 2);
    module.cells[0].1.type_ = "$dff".to_string();
    module.cells[0].0 = "$dff$top.v:4$1".to_string();
    module.netnames[0].0 = "$dff$top.v:4$1_Y".to_string();
    let mut runner = Runner::new(module);
    runner.init(vec![false, false, true, true, true, true, true, false]);
    assert!(runner.run().is_ok());
    assert_eq!(runner.bits[6..8].to_vec(), vec![true, false]);
    assert_eq!(runner.notices, vec!["$dff$top.v:4$1".to_string()]);
}

/// OUT = !(A & B): the NOT cell is listed first, but its number is larger.
fn chained_module() -> Module {
    let (a, b, t, out) = (vec![2], vec![3], vec![4], vec![5]);
    Module {
        attributes: vec![],
        ports: vec![
            ("A".to_string(), port(Direction::Input, a.clone())),
            ("B".to_string(), port(Direction::Input, b.clone())),
            ("OUT".to_string(), port(Direction::Output, out.clone())),
        ],
        cells: vec![
            ("$not$top.v:6$7".to_string(), gate("$not", vec![("A", t.clone())], ("Y", out.clone()))),
            ("$and$top.v:5$3".to_string(), gate("$and", vec![("A", a.clone()), ("B", b.clone())], ("Y", t.clone()))),
        ],
        netnames: vec![
            ("$not$top.v:6$7_Y".to_string(), net(true, out.clone())),
            ("$and$top.v:5$3_Y".to_string(), net(true, t)),
            ("A".to_string(), net(false, a)),
            ("B".to_string(), net(false, b)),
            ("OUT".to_string(), net(false, out)),
        ],
    }
}

#[test]
fn schedule_follows_trailing_numbers() {
    assert_eq!(chained_module().schedule().ok(), Some(vec![1, 0]));
    let mut runner = Runner::new(chained_module());
    runner.init(vec![false, false, true, true]);
    assert!(runner.run().is_ok());
    assert_eq!(runner.bits, vec![false, false, true, true, true, false]);
    assert!(runner.notices.is_empty());
}

#[test]
fn schedule_keeps_net_order_for_equal_keys() {
    let mut module = chained_module();
    module.cells[1].0 = "$and$top.v:5$7".to_string();
    module.netnames[1].0 = "$and$top.v:5$7_Y".to_string();
    assert_eq!(module.schedule().ok(), Some(vec![0, 1]));
}

#[test]
fn hidden_net_without_cell_fails() {
    let mut module = chained_module();
    module.netnames[1].0 = "$or$top.v:5$3_Y".to_string();
    let mut runner = Runner::new(module);
    runner.init(vec![false, false, true, true]);
    match runner.run() {
        Err(RunError::NoCell(name)) => assert_eq!(name, "$or$top.v:5$3_Y"),
        other => panic!("unexpected {:?}", other),
    }
    assert_eq!(runner.bits, vec![false, false, true, true, false, false]);
}

#[test]
fn cell_without_number_fails() {
    let mut module = chained_module();
    module.cells[0].0 = "$not$top.v:6$x".to_string();
    module.netnames[0].0 = "$not$top.v:6$x_Y".to_string();
    match module.schedule() {
        Err(RunError::NoOrderKey(name)) => assert_eq!(name, "$not$top.v:6$x"),
        other => panic!("unexpected {:?}", other),
    }
}

#[test]
fn cell_number_too_large_fails() {
    let mut module = chained_module();
    module.cells[0].0 = "$not$99999999999999999999999".to_string();
    module.netnames[0].0 = "$not$99999999999999999999999_Y".to_string();
    assert!(matches!(module.schedule(), Err(RunError::NoOrderKey(_))));
}

#[test]
fn two_fresh_runners_agree() {
    let input = vec![false, true, true, false, true, true, true, false];
    let first = evaluate(binary_module("$and", 3), input.clone()).unwrap();
    let second = evaluate(binary_module("$and", 3), input).unwrap();
    assert_eq!(first, second);
}

/// A bit stored inverted: a stand-in for an encoding that the evaluator cannot read.
#[derive(Clone, Debug, PartialEq)]
struct Inverted(bool);

impl Signal for Inverted {
    fn decode(&self) -> bool {
        !self.0
    }
    fn and(&self, other: &Self) -> Self {
        Inverted(self.0 || other.0)
    }
    fn or(&self, other: &Self) -> Self {
        Inverted(self.0 && other.0)
    }
    fn xor(&self, other: &Self) -> Self {
        Inverted(self.0 == other.0)
    }
    fn not(&self) -> Self {
        Inverted(!self.0)
    }
    fn duplicate(&self) -> Self {
        self.clone()
    }
    fn render(&self) -> String {
        format!("~{}", self.0)
    }
}

#[test]
fn other_representations_decode_to_the_same_values() {
    let plain = vec![false, true, true, false, true, false, true, true, false, true, true];
    let encoded: Vec<Inverted> = plain.iter().map(|b| Inverted(!*b)).collect();
    for type_ in ["$and", "$or", "$xor"] {
        let expected = evaluate(binary_module(type_, 3), plain.clone()).unwrap();
        let got = evaluate(binary_module(type_, 3), encoded.clone()).unwrap();
        assert_eq!(expected.len(), got.len());
        for (e, g) in expected.iter().zip(got.iter()) {
            assert_eq!(e.0, g.0);
            let decoded: Vec<bool> = g.1.iter().map(|x| !x.0).collect();
            assert_eq!(e.1, decoded);
        }
    }
}

#[test]
fn wiring_check() {
    let module = binary_module("$and", 2);
    assert!(module.is_runnable(8));
    assert!(!module.is_runnable(7));
    let mut broken = binary_module("$and", 2);
    broken.cells[0].1.connections.remove(1);
    assert!(!broken.is_runnable(8));
    let mut dff = binary_module("$and", 2);
    dff.cells[0].1.type_ = "$dff".to_string();
    dff.cells[0].1.connections[2].1 = vec![100];
    assert!(dff.is_runnable(8));
}

#[test]
fn string_helpers() {
    assert!(has_prefix("$and$a.v:1$2_Y", "$and$a.v:1$2"));
    assert!(!has_prefix("$and", "$and$a"));
    assert!(has_prefix("x", ""));
    assert_eq!(parse_decimal("0042"), Some(42));
    assert_eq!(parse_decimal(""), Some(0));
    assert_eq!(parse_decimal("18446744073709551615"), Some(usize::MAX));
    assert_eq!(parse_decimal("18446744073709551616"), None);
    assert_eq!(gate_kind_of(&"$and".to_string()), GateKind::And);
    assert_eq!(gate_kind_of(&"$or".to_string()), GateKind::Or);
    assert_eq!(gate_kind_of(&"$xor".to_string()), GateKind::Xor);
    assert_eq!(gate_kind_of(&"$not".to_string()), GateKind::Not);
    assert_eq!(gate_kind_of(&"$dff".to_string()), GateKind::Unsupported);
    assert_eq!(gate_kind_of(&"$andx".to_string()), GateKind::Unsupported);
}

#[test]
fn modules_are_found_by_name() {
    let circuit = Circuit {
        creator: "synth".to_string(),
        modules: vec![
            ("first".to_string(), not_module(1)),
            ("TFHE_TEST".to_string(), binary_module("$and", 8)),
            ("TFHE_TEST".to_string(), not_module(2)),
        ],
    };
    assert_eq!(circuit.find_module(&"TFHE_TEST".to_string()), Some(1));
    assert_eq!(circuit.find_module(&"first".to_string()), Some(0));
    assert_eq!(circuit.find_module(&"missing".to_string()), None);
}

#[test]
fn padding_uses_the_first_value_xor_itself() {
    let mut runner: Runner<Inverted> = Runner::new(binary_module("$and", 2));
    runner.init(vec![Inverted(false), Inverted(true)]);
    assert_eq!(runner.bits.len(), 8);
    assert_eq!(runner.bits[..2].to_vec(), vec![Inverted(false), Inverted(true)]);
    for b in &runner.bits[2..] {
        assert_eq!(b, &Inverted(true));
        assert!(!b.decode());
    }
}

#[test]
fn evaluate_reports_a_scheduling_failure() {
    let mut module = chained_module();
    module.netnames[0].0 = "$mux$top.v:6$7_Y".to_string();
    match evaluate(module, vec![false, false, true, true]) {
        Err(RunError::NoCell(name)) => assert_eq!(name, "$mux$top.v:6$7_Y"),
        other => panic!("unexpected {:?}", other),
    }
}
