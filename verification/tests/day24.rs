use advent_puzzles::day24::{
    binary_from_wires, build_input_vector, find_wire, make_wire, match_operator, part_one,
    part_two, simulate_circuit, solve_gates, validate_bit, Gate, Operator, Wires,
};

const SMALL: &str = "x00: 1
x01: 1
x02: 1
y00: 0
y01: 1
y02: 0

x00 AND y00 -> z00
x01 XOR y01 -> z01
x02 OR y02 -> z02
";

#[test]
fn day24_small_circuit() {
    assert_eq!(part_one(SMALL), Some(4));
}

#[test]
fn day24_gates_wait_for_their_inputs() {
    let text = "a: 1\nb: 1\n\nc XOR a -> z00\na AND b -> c\nz00 OR c -> z01\n";
    // c = 1, z00 = 0, z01 = 1
    assert_eq!(part_one(text), Some(2));
}

#[test]
fn day24_malformed() {
    assert_eq!(part_one("x00: 1\n"), None);
    assert_eq!(part_one("x00 1\n\nx00 AND x00 -> z00\n"), None);
    assert_eq!(part_one("x00: 1\n\nx00 NAND x00 -> z00\n"), None);
    assert_eq!(part_one("x00: 1\n\nx00 AND x00\n"), None);
    assert_eq!(part_one("x00: 256\n\nx00 AND x00 -> z00\n"), None);
}

#[test]
fn day24_values_that_are_no_bits() {
    // the digits of the values are read as binary digits: 10 is two of them
    assert_eq!(part_one("z01: 10\nz00: 1\n\n"), Some(0b101));
    assert_eq!(part_one("z01: 2\nz00: 1\n\n"), Some(0));
    assert_eq!(part_one("a: 1\n\n"), Some(0));
}

#[test]
fn day24_match_operator() {
    assert_eq!(match_operator(Operator::And, 1, 0), 0);
    assert_eq!(match_operator(Operator::Or, 1, 0), 1);
    assert_eq!(match_operator(Operator::Xor, 1, 1), 0);
    assert_eq!(match_operator(Operator::Xor, 6, 3), 5);
}

#[test]
fn day24_solve_and_read_out() {
    let (gates, wires) = solve_gates(SMALL.as_bytes()).unwrap();
    assert_eq!(gates.len(), 3);
    assert_eq!(gates[0].wires, (b"x00".to_vec(), b"y00".to_vec()));
    assert_eq!(gates[0].output_wire, b"z00".to_vec());
    assert_eq!(gates[0].output_value, Some(0));
    assert_eq!(gates[1].output_wire, b"z01".to_vec());
    assert_eq!(gates[1].output_value, Some(0));
    assert_eq!(gates[2].output_wire, b"z02".to_vec());
    assert_eq!(gates[2].output_value, Some(1));
    assert_eq!(wires.get(b"z02"), Some(1));
    assert_eq!(wires.get(b"z01"), Some(0));
    assert_eq!(wires.get(b"nope"), None);
    let (keys, bits) = binary_from_wires(&wires, b'z');
    assert_eq!(keys, vec![b"z02".to_vec(), b"z01".to_vec(), b"z00".to_vec()]);
    assert_eq!(bits, b"100".to_vec());
    let (keys, bits) = binary_from_wires(&wires, b'x');
    assert_eq!(keys.len(), 3);
    assert_eq!(bits, b"111".to_vec());
}

#[test]
fn day24_wire_names() {
    assert_eq!(make_wire(b'x', 0), b"x00".to_vec());
    assert_eq!(make_wire(b'y', 7), b"y07".to_vec());
    assert_eq!(make_wire(b'z', 44), b"z44".to_vec());
    assert_eq!(make_wire(b'x', -1), b"x-1".to_vec());
    assert_eq!(make_wire(b'x', 123), b"x123".to_vec());
}

#[test]
fn day24_input_vectors() {
    let v = build_input_vector(0, 1, 1);
    assert_eq!(v.len(), 45);
    assert_eq!(v[0], 1);
    assert!(v[1..].iter().all(|b| *b == 0));
    let v = build_input_vector(7, 1, 1);
    assert_eq!(v[7], 1);
    assert_eq!(v[6], 1);
    assert_eq!(v.iter().filter(|b| **b == 1).count(), 2);
    let v = build_input_vector(44, 0, 1);
    assert_eq!(v[44], 0);
    assert_eq!(v[43], 1);
}

fn gate(in1: &str, op: Operator, in2: &str, out: &str) -> Gate {
    Gate {
        in1: in1.as_bytes().to_vec(),
        in2: in2.as_bytes().to_vec(),
        operator: op,
        out: out.as_bytes().to_vec(),
    }
}

/// A ripple-carry adder of 45 bits.
fn adder() -> Vec<Gate> {
    let mut gates = Vec::new();
    gates.push(gate("x00", Operator::Xor, "y00", "z00"));
    gates.push(gate("x00", Operator::And, "y00", "c00"));
    for n in 1..45 {
        let x = format!("x{:02}", n);
        let y = format!("y{:02}", n);
        let s = format!("s{:02}", n);
        let a = format!("a{:02}", n);
        let b = format!("b{:02}", n);
        let c_in = format!("c{:02}", n - 1);
        let c_out = if n == 44 { "z45".to_string() } else { format!("c{:02}", n) };
        let z = format!("z{:02}", n);
        gates.push(gate(&x, Operator::Xor, &y, &s));
        gates.push(gate(&x, Operator::And, &y, &a));
        gates.push(gate(&s, Operator::Xor, &c_in, &z));
        gates.push(gate(&s, Operator::And, &c_in, &b));
        gates.push(gate(&a, Operator::Or, &b, &c_out));
    }
    gates
}

fn text_of(gates: &Vec<Gate>) -> String {
    let mut s = String::new();
    for n in 0..45 {
        s.push_str(&format!("x{:02}: 1\n", n));
        s.push_str(&format!("y{:02}: 0\n", n));
    }
    s.push('\n');
    for g in gates {
        let op = match g.operator {
            Operator::And => "AND",
            Operator::Or => "OR",
            Operator::Xor => "XOR",
        };
        s.push_str(&format!(
            "{} {} {} -> {}\n",
            std::str::from_utf8(&g.in1).unwrap(),
            op,
            std::str::from_utf8(&g.in2).unwrap(),
            std::str::from_utf8(&g.out).unwrap()
        ));
    }
    s
}

#[test]
fn day24_sound_adder_validates() {
    let gates = adder();
    for n in 0..45 {
        assert_eq!(validate_bit(n, &gates), Some(true));
    }
    assert_eq!(validate_bit(45, &gates), None);
    assert_eq!(part_two(&text_of(&gates)), Some(String::new()));
    // the x wires all 1, the y wires all 0: the sum is 2^45 - 1
    assert_eq!(part_one(&text_of(&gates)), Some((1u128 << 45) - 1));
}

#[test]
fn day24_swapped_outputs_are_found() {
    let mut gates = adder();
    // swap z07 with the carry out of bit 7
    let mut zi = 0;
    let mut ci = 0;
    for (i, g) in gates.iter().enumerate() {
        if g.out == b"z07" {
            zi = i;
        }
        if g.out == b"c07" {
            ci = i;
        }
    }
    gates[zi].out = b"c07".to_vec();
    gates[ci].out = b"z07".to_vec();
    assert_eq!(validate_bit(6, &gates), Some(true));
    assert_eq!(validate_bit(7, &gates), Some(false));
    assert_eq!(part_two(&text_of(&gates)), Some("c07,z07".to_string()));
}

#[test]
fn day24_missing_wire() {
    let gates = vec![gate("x00", Operator::Xor, "q", "z00")];
    assert_eq!(validate_bit(0, &gates), None);
    let gates = vec![gate("x00", Operator::Xor, "z00", "z00")];
    assert_eq!(validate_bit(0, &gates), None);
}

#[test]
fn day24_simulate() {
    let gates = vec![gate("x00", Operator::Xor, "y00", "z00"), gate("z00", Operator::Or, "x00", "w")];
    let mut inputs = Wires::new();
    inputs.insert(b"x00", 1);
    inputs.insert(b"y00", 1);
    assert_eq!(simulate_circuit(&gates, &inputs), Some(vec![0, 1]));
    assert_eq!(find_wire(&gates, Some(Operator::Or), Some(b"x00"), None), Some(1));
    assert_eq!(find_wire(&gates, Some(Operator::And), None, None), None);
    assert_eq!(find_wire(&gates, None, Some(b"y00"), Some(b"x00")), Some(0));
}

const LARGER: &str = "x00: 1
x01: 0
x02: 1
x03: 1
x04: 0
y00: 1
y01: 1
y02: 1
y03: 1
y04: 1

ntg XOR fgs -> mjb
y02 OR x01 -> tnw
kwq OR kpj -> z05
x00 OR x03 -> fst
tgd XOR rvg -> z01
vdt OR tnw -> bfw
bfw AND frj -> z10
ffh OR nrd -> bqk
y00 AND y03 -> djm
y03 OR y00 -> psh
bqk OR frj -> z08
tnw OR fst -> frj
gnj AND tgd -> z11
bfw XOR mjb -> z00
x03 OR x00 -> vdt
gnj AND wpb -> z02
x04 AND y00 -> kjc
djm OR pbm -> qhw
nrd AND vdt -> hwm
kjc AND fst -> rvg
y04 OR y02 -> fgs
y01 AND x02 -> pbm
ntg OR kjc -> kwq
psh XOR fgs -> tgd
qhw XOR tgd -> z09
pbm OR djm -> kpj
x03 XOR y03 -> ffh
x00 XOR y04 -> ntg
bfw OR bqk -> z06
nrd XOR fgs -> wpb
frj XOR qhw -> z04
bqk OR frj -> z07
y03 OR x01 -> nrd
hwm AND bqk -> z03
tgd XOR rvg -> z12
tnw OR pbm -> gnj
";

#[test]
fn day24_test_part_one() {
    let result = part_one(LARGER);
    assert_eq!(result, Some(2024));
}

#[test]
fn day24_test_part_two() {
    let result = part_two(LARGER);
    assert_eq!(result, Some("".to_string()));
}

#[test]
fn day24_gate_that_never_fires() {
    let text = b"a: 1\nb: 0\n\nc AND a -> d\na XOR b -> c\nq OR a -> r\n";
    let (gates, wires) = solve_gates(text).unwrap();
    // the gates stand in the order of the text
    assert_eq!(gates.len(), 3);
    assert_eq!(gates[0].output_wire, b"d".to_vec());
    assert_eq!(gates[1].output_wire, b"c".to_vec());
    assert_eq!(gates[2].output_wire, b"r".to_vec());
    // the first fires in the second pass, the last never
    assert_eq!(gates[0].output_value, Some(1));
    assert_eq!(gates[1].output_value, Some(1));
    assert_eq!(gates[2].output_value, None);
    assert_eq!(wires.get(b"d"), Some(1));
    assert_eq!(wires.get(b"c"), Some(1));
    assert_eq!(wires.get(b"r"), None);
    assert_eq!(wires.get(b"a"), Some(1));
    assert_eq!(wires.get(b"b"), Some(0));
}
