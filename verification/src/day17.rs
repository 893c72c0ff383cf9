//! A small computer with three registers runs a program of numbers from 0
//! to 7, two to an instruction. The first part gives what the program puts
//! out; the second looks for the value of the first register with which the
//! program puts out itself.
//!
//! A run that has not come to an end after as many steps as a machine word
//! can count is given up.
use vstd::prelude::*;
use vstd::string::StringSliceAdditionalSpecFns;
use vstd::utf8::encode_utf8;
use crate::text::{
    views, lines_of, lines, split_seq, split, split_once_seq, split_once, trimmed, trim, as_u64,
    parse_u64, decimal_digits, format_u128, same_bytes, to_text, lemma_ascii_is_utf8,
    is_ascii_bytes, lemma_digits_round_trip,
};

verus! {

/// The number of steps after which a run is given up.
pub const PATIENCE: u64 = 0xffff_ffff_ffff_ffff;

/// The computer between two instructions: its registers, the place in the
/// program of the next instruction, and what it has put out so far.
pub struct Machine {
    pub ra: u64,
    pub rb: u64,
    pub rc: u64,
    pub ip: usize,
    pub output: Seq<u8>,
}

/// What stands behind the first colon and space of a line.
pub open spec fn after_colon(line: Seq<u8>) -> Option<Seq<u8>> {
    let f = split_seq(line, seq![58u8, 32u8]);
    if f.len() < 2 {
        None
    } else {
        Some(f[1])
    }
}

/// The value of the register that line `i` of the first section gives.
pub open spec fn register_of(ls: Seq<Seq<u8>>, i: int) -> Option<u64> {
    if 0 <= i < ls.len() {
        match after_colon(ls[i]) {
            Some(t) => as_u64(t),
            None => None,
        }
    } else {
        None
    }
}

/// The numbers between the commas, from the `i`-th on.
pub open spec fn numbers_of(pieces: Seq<Seq<u8>>, i: int) -> Option<Seq<u64>>
    decreases pieces.len() - i,
{
    if 0 <= i < pieces.len() {
        match (as_u64(trimmed(pieces[i])), numbers_of(pieces, i + 1)) {
            (Some(n), Some(rest)) => Some(seq![n] + rest),
            _ => None,
        }
    } else {
        Some(seq![])
    }
}

/// The program that the second section gives.
pub open spec fn program_of(section: Seq<u8>) -> Option<Seq<u64>> {
    match after_colon(section) {
        Some(t) => numbers_of(split_seq(t, seq![44u8]), 0),
        None => None,
    }
}

/// The value that an operand stands for: itself, or from 4 to 6 a register.
pub open spec fn combo(m: Machine, operand: u64) -> u64 {
    if operand == 4 {
        m.ra
    } else if operand == 5 {
        m.rb
    } else if operand == 6 {
        m.rc
    } else {
        operand
    }
}

/// The computer after its next instruction. `None` where the instruction
/// has no operand, or is none, or shifts by 64 places or more.
pub open spec fn step(program: Seq<u64>, m: Machine) -> Option<Machine> {
    if m.ip + 1 >= program.len() {
        None
    } else {
        let opcode = program[m.ip as int];
        let operand = program[m.ip + 1];
        let c = combo(m, operand);
        let next = (m.ip + 2) as usize;
        if opcode == 0 {
            if c >= 64 {
                None
            } else {
                Some(Machine { ra: m.ra >> c, rb: m.rb, rc: m.rc, ip: next, output: m.output })
            }
        } else if opcode == 1 {
            Some(Machine { ra: m.ra, rb: m.rb ^ operand, rc: m.rc, ip: next, output: m.output })
        } else if opcode == 2 {
            Some(Machine { ra: m.ra, rb: c & 7, rc: m.rc, ip: next, output: m.output })
        } else if opcode == 3 {
            Some(
                Machine {
                    ra: m.ra,
                    rb: m.rb,
                    rc: m.rc,
                    ip: if m.ra != 0 {
                        operand as usize
                    } else {
                        next
                    },
                    output: m.output,
                },
            )
        } else if opcode == 4 {
            Some(Machine { ra: m.ra, rb: m.rb ^ m.rc, rc: m.rc, ip: next, output: m.output })
        } else if opcode == 5 {
            Some(
                Machine {
                    ra: m.ra,
                    rb: m.rb,
                    rc: m.rc,
                    ip: next,
                    output: m.output + decimal_digits((c & 7) as nat) + seq![44u8],
                },
            )
        } else if opcode == 6 {
            if c >= 64 {
                None
            } else {
                Some(Machine { ra: m.ra, rb: m.ra >> c, rc: m.rc, ip: next, output: m.output })
            }
        } else if opcode == 7 {
            if c >= 64 {
                None
            } else {
                Some(Machine { ra: m.ra, rb: m.rb, rc: m.ra >> c, ip: next, output: m.output })
            }
        } else {
            None
        }
    }
}

/// The computer when the program has come to an end, if it does so within
/// `patience` steps.
pub open spec fn run(program: Seq<u64>, m: Machine, patience: nat) -> Option<Machine>
    decreases patience,
{
    if m.ip >= program.len() {
        Some(m)
    } else if patience == 0 {
        None
    } else {
        match step(program, m) {
            None => None,
            Some(next) => run(program, next, (patience - 1) as nat),
        }
    }
}

/// What was put out, without the comma at its end.
pub open spec fn tidy(output: Seq<u8>) -> Seq<u8> {
    if output.len() > 0 && output.last() == 44 {
        output.drop_last()
    } else {
        output
    }
}

/// What the program puts out when run with these registers.
pub open spec fn output_of(program: Seq<u64>, ra: u64, rb: u64, rc: u64) -> Option<Seq<u8>> {
    match run(program, Machine { ra, rb, rc, ip: 0, output: seq![] }, PATIENCE as nat) {
        Some(m) => Some(tidy(m.output)),
        None => None,
    }
}

/// The answer to the first part for the text `s`, as bytes.
pub open spec fn answer_one(s: Seq<u8>) -> Option<Seq<u8>> {
    match split_once_seq(s, seq![10u8, 10u8]) {
        None => None,
        Some(halves) => {
            let ls = lines_of(halves.0);
            match (
                register_of(ls, 0),
                register_of(ls, 1),
                register_of(ls, 2),
                program_of(halves.1),
            ) {
                (Some(ra), Some(rb), Some(rc), Some(program)) => output_of(program, ra, rb, rc),
                _ => None,
            }
        },
    }
}

/// 8 to the power of `k`.
pub open spec fn pow8(k: nat) -> nat
    decreases k,
{
    if k == 0 {
        1
    } else {
        8 * pow8((k - 1) as nat)
    }
}

/// How many of the last entries of `a` and `b`, from the `j`-th last on
/// backwards, are the same one by one.
pub open spec fn same_at_end(a: Seq<Seq<u8>>, b: Seq<Seq<u8>>, j: int) -> nat
    decreases a.len() - j,
{
    if 0 <= j < a.len() && j < b.len() && a[a.len() - 1 - j] == b[b.len() - 1 - j] {
        1 + same_at_end(a, b, j + 1)
    } else {
        0
    }
}

/// The search for the value of the first register: the value `8^pc +
/// adjustment` is tried; where what is put out is as long as what is
/// expected, the adjustment grows by 8 to the power of `pc` less the number
/// of entries that are right at the end, else `pc` grows by one. `None`
/// where a number of the search does not fit in its 64 or 32 bits, or a run
/// of the program fails.
pub open spec fn searched(
    program: Seq<u64>,
    rb: u64,
    rc: u64,
    expected: Seq<u8>,
    pc: nat,
    adjustment: u64,
) -> Option<u64>
    decreases 22 - pc, u64::MAX - adjustment,
{
    if pc > 21 || pow8(pc) + adjustment > u64::MAX {
        None
    } else {
        let ra = (pow8(pc) + adjustment) as u64;
        match output_of(program, ra, rb, rc) {
            None => None,
            Some(output) => if output.len() == expected.len() {
                let got = split_seq(output, seq![44u8]);
                let count = same_at_end(got, split_seq(expected, seq![44u8]), 0);
                if got.len() == count {
                    Some(ra)
                } else if count > pc || pow8((pc - count) as nat) < 1 || adjustment + pow8(
                    (pc - count) as nat,
                ) > u64::MAX {
                    None
                } else {
                    searched(
                        program,
                        rb,
                        rc,
                        expected,
                        pc,
                        (adjustment + pow8((pc - count) as nat)) as u64,
                    )
                }
            } else {
                searched(program, rb, rc, expected, pc + 1, adjustment)
            },
        }
    }
}

/// The answer to the second part for the text `s`.
pub open spec fn answer_two(s: Seq<u8>) -> Option<u64> {
    match split_once_seq(s, seq![10u8, 10u8]) {
        None => None,
        Some(halves) => {
            let ls = lines_of(halves.0);
            match (program_of(halves.1), after_colon(halves.1), register_of(ls, 1), register_of(ls, 2)) {
                (Some(program), Some(expected), Some(rb), Some(rc)) => searched(
                    program,
                    rb,
                    rc,
                    expected,
                    1,
                    0,
                ),
                _ => None,
            }
        },
    }
}

fn read_after_colon(line: &[u8]) -> (out: Option<Vec<u8>>)
    ensures
        match after_colon(line@) {
            Some(t) => out is Some && out->0@ == t,
            None => out is None,
        },
{
    let sep: Vec<u8> = vec![58u8, 32u8];
    assert(sep@ =~= seq![58u8, 32u8]);
    let mut f = split(line, sep.as_slice());
    assert(views(f@).len() == f@.len());
    if f.len() < 2 {
        return None;
    }
    assert(views(f@)[1] == f@[1]@);
    let t = crate::text::copy_range(f[1].as_slice(), 0, f[1].len());
    assert(t@ =~= f@[1]@);
    Some(t)
}

fn read_register(ls: &Vec<Vec<u8>>, i: usize) -> (out: Option<u64>)
    ensures
        out == register_of(views(ls@), i as int),
{
    if i >= ls.len() {
        return None;
    }
    assert(views(ls@)[i as int] == ls@[i as int]@);
    match read_after_colon(ls[i].as_slice()) {
        Some(t) => parse_u64(t.as_slice()),
        None => None,
    }
}

#[verifier::loop_isolation(false)]
fn read_program(section: &[u8]) -> (out: Option<(Vec<u64>, Vec<u8>)>)
    ensures
        match (program_of(section@), out) {
            (Some(p), Some(o)) => o.0@ == p && after_colon(section@) == Some(o.1@),
            (None, None) => true,
            _ => false,
        },
{
    let text = match read_after_colon(section) {
        Some(t) => t,
        None => {
            return None;
        },
    };
    let comma: Vec<u8> = vec![44u8];
    assert(comma@ =~= seq![44u8]);
    let pieces = split(text.as_slice(), comma.as_slice());
    let ghost all = views(pieces@);
    let mut program: Vec<u64> = Vec::new();
    let mut i: usize = 0;
    while i < pieces.len()
        invariant
            0 <= i <= pieces@.len(),
            match numbers_of(all, i as int) {
                Some(rest) => numbers_of(all, 0) == Some(program@ + rest),
                None => numbers_of(all, 0) is None,
            },
        decreases pieces@.len() - i,
    {
        assert(all[i as int] == pieces@[i as int]@);
        let t = trim(pieces[i].as_slice());
        match parse_u64(t.as_slice()) {
            None => {
                return None;
            },
            Some(n) => {
                proof {
                    match numbers_of(all, i + 1) {
                        Some(rest) => {
                            assert(program@.push(n) + rest =~= program@ + (seq![n] + rest));
                        },
                        None => {},
                    }
                }
                program.push(n);
            },
        }
        i += 1;
    }
    assert(program@ + Seq::<u64>::empty() =~= program@);
    Some((program, text))
}

/// Runs the program and gives what it puts out.
#[verifier::loop_isolation(false)]
pub fn execute(program: &Vec<u64>, ra: u64, rb: u64, rc: u64) -> (out: Option<Vec<u8>>)
    ensures
        match output_of(program@, ra, rb, rc) {
            Some(o) => out is Some && out->0@ == o && is_ascii_bytes(o),
            None => out is None,
        },
{
    let mut ra = ra;
    let mut rb = rb;
    let mut rc = rc;
    let mut output: Vec<u8> = Vec::new();
    let mut ip: usize = 0;
    let ghost first = Machine { ra, rb, rc, ip: 0, output: seq![] };
    assert(output@ =~= first.output);
    let ghost goal = run(program@, first, PATIENCE as nat);
    let mut steps: u64 = 0;
    while ip < program.len()
        invariant
            0 <= steps <= PATIENCE,
            is_ascii_bytes(output@),
            run(
                program@,
                Machine { ra, rb, rc, ip, output: output@ },
                (PATIENCE - steps) as nat,
            ) == goal,
        decreases PATIENCE - steps,
    {
        if steps == PATIENCE {
            return None;
        }
        if ip + 1 >= program.len() {
            return None;
        }
        let opcode = program[ip];
        let operand = program[ip + 1];
        let ghost m = Machine { ra, rb, rc, ip, output: output@ };
        let c: u64 = if operand == 4 {
            ra
        } else if operand == 5 {
            rb
        } else if operand == 6 {
            rc
        } else {
            operand
        };
        assert(c == combo(m, operand));
        let mut next = ip + 2;
        if opcode == 0 {
            if c >= 64 {
                return None;
            }
            ra = ra >> c;
        } else if opcode == 1 {
            rb = rb ^ operand;
        } else if opcode == 2 {
            rb = c & 7;
        } else if opcode == 3 {
            if ra != 0 {
                next = #[verifier::truncate] (operand as usize);
            }
        } else if opcode == 4 {
            rb = rb ^ rc;
        } else if opcode == 5 {
            let v = c & 7;
            assert(v <= 7) by (bit_vector)
                requires
                    v == c & 7,
            ;
            let mut digits = format_u128(v as u128);
            proof {
                lemma_digits_round_trip(v as nat);
                assert(is_ascii_bytes(digits@)) by {
                    assert forall|k: int| 0 <= k < digits@.len() implies #[trigger] digits@[k]
                        < 128 by {
                        assert(crate::text::is_digit(digits@[k]));
                    }
                }
            }
            let ghost before = output@;
            let ghost dd = digits@;
            output.append(&mut digits);
            output.push(44u8);
            assert(output@ =~= before + dd + seq![44u8]);
        } else if opcode == 6 {
            if c >= 64 {
                return None;
            }
            rb = ra >> c;
        } else if opcode == 7 {
            if c >= 64 {
                return None;
            }
            rc = ra >> c;
        } else {
            return None;
        }
        ip = next;
        steps += 1;
    }
    let n = output.len();
    if n > 0 && output[n - 1] == 44 {
        output.pop();
    }
    Some(output)
}

/// What the program puts out: numbers with commas between.
pub fn part_one(input: &str) -> (out: Option<String>)
    ensures
        match answer_one(input.spec_bytes()) {
            Some(b) => out is Some && encode_utf8(out->0@) == b,
            None => out is None,
        },
{
    let pat: Vec<u8> = vec![10u8, 10u8];
    assert(pat@ =~= seq![10u8, 10u8]);
    let (top, bottom) = match split_once(input.as_bytes(), pat.as_slice()) {
        Some(p) => p,
        None => {
            return None;
        },
    };
    let ls = lines(top.as_slice());
    let ra = match read_register(&ls, 0) {
        Some(v) => v,
        None => {
            return None;
        },
    };
    let rb = match read_register(&ls, 1) {
        Some(v) => v,
        None => {
            return None;
        },
    };
    let rc = match read_register(&ls, 2) {
        Some(v) => v,
        None => {
            return None;
        },
    };
    let (program, _text) = match read_program(bottom.as_slice()) {
        Some(p) => p,
        None => {
            return None;
        },
    };
    match execute(&program, ra, rb, rc) {
        Some(output) => {
            proof {
                lemma_ascii_is_utf8(output@);
            }
            to_text(output)
        },
        None => None,
    }
}

proof fn lemma_pow8_grows(j: nat, k: nat)
    requires
        j <= k,
    ensures
        1 <= pow8(j) <= pow8(k),
    decreases k,
{
    if k > 0 {
        if j < k {
            lemma_pow8_grows(j, (k - 1) as nat);
        } else {
            lemma_pow8_grows((j - 1) as nat, (k - 1) as nat);
        }
    }
}

/// 8 to the power of `k`, if it fits in 64 bits.
#[verifier::loop_isolation(false)]
pub fn power_of_eight(k: u32) -> (out: Option<u64>)
    ensures
        out == if pow8(k as nat) <= u64::MAX {
            Some(pow8(k as nat) as u64)
        } else {
            None
        },
{
    let mut p: u64 = 1;
    let mut i: u32 = 0;
    while i < k
        invariant
            0 <= i <= k,
            p == pow8(i as nat),
        decreases k - i,
    {
        p = match p.checked_mul(8) {
            Some(q) => q,
            None => {
                proof {
                    lemma_pow8_grows((i + 1) as nat, k as nat);
                }
                return None;
            },
        };
        i += 1;
    }
    Some(p)
}

#[verifier::loop_isolation(false)]
fn count_same_at_end(a: &Vec<Vec<u8>>, b: &Vec<Vec<u8>>) -> (n: usize)
    ensures
        n == same_at_end(views(a@), views(b@), 0),
        n <= a@.len(),
{
    let ghost va = views(a@);
    let ghost vb = views(b@);
    let mut j: usize = 0;
    while j < a.len() && j < b.len()
        invariant
            0 <= j <= a@.len(),
            j <= b@.len(),
            same_at_end(va, vb, 0) == j + same_at_end(va, vb, j as int),
        decreases a@.len() - j,
    {
        let x = &a[a.len() - 1 - j];
        let y = &b[b.len() - 1 - j];
        assert(va[a@.len() - 1 - j] == x@);
        assert(vb[b@.len() - 1 - j] == y@);
        if !same_bytes(x.as_slice(), y.as_slice()) {
            return j;
        }
        j += 1;
    }
    j
}

/// The value of the first register with which the program puts out itself,
/// as the search finds it.
#[verifier::loop_isolation(false)]
pub fn part_two(input: &str) -> (out: Option<u64>)
    ensures
        out == answer_two(input.spec_bytes()),
{
    let pat: Vec<u8> = vec![10u8, 10u8];
    assert(pat@ =~= seq![10u8, 10u8]);
    let (top, bottom) = match split_once(input.as_bytes(), pat.as_slice()) {
        Some(p) => p,
        None => {
            return None;
        },
    };
    let ls = lines(top.as_slice());
    let (program, expected) = match read_program(bottom.as_slice()) {
        Some(p) => p,
        None => {
            return None;
        },
    };
    let initial_rb = match read_register(&ls, 1) {
        Some(v) => v,
        None => {
            return None;
        },
    };
    let initial_rc = match read_register(&ls, 2) {
        Some(v) => v,
        None => {
            return None;
        },
    };
    let comma: Vec<u8> = vec![44u8];
    assert(comma@ =~= seq![44u8]);
    let expected_digits = split(expected.as_slice(), comma.as_slice());
    let ghost goal = searched(program@, initial_rb, initial_rc, expected@, 1, 0);
    let mut pc: u32 = 1;
    let mut adjustment: u64 = 0;
    loop
        invariant
            1 <= pc <= 22,
            searched(program@, initial_rb, initial_rc, expected@, pc as nat, adjustment) == goal,
        decreases 22 - pc, u64::MAX - adjustment,
    {
        if pc > 21 {
            return None;
        }
        let ra = match power_of_eight(pc) {
            Some(p) => match p.checked_add(adjustment) {
                Some(v) => v,
                None => {
                    return None;
                },
            },
            None => {
                return None;
            },
        };
        let output = match execute(&program, ra, initial_rb, initial_rc) {
            Some(o) => o,
            None => {
                return None;
            },
        };
        if output.len() == expected.len() {
            let output_digits = split(output.as_slice(), comma.as_slice());
            let count = count_same_at_end(&output_digits, &expected_digits);
            assert(views(output_digits@).len() == output_digits@.len());
            if output_digits.len() == count {
                return Some(ra);
            }
            if count > pc as usize {
                return None;
            }
            let more = match power_of_eight(pc - count as u32) {
                Some(m) => m,
                None => {
                    return None;
                },
            };
            proof {
                lemma_pow8_grows(0, (pc - count) as nat);
            }
            adjustment = match adjustment.checked_add(more) {
                Some(a) => a,
                None => {
                    return None;
                },
            };
        } else {
            pc += 1;
        }
    }
}

/// A run that comes to an end within some number of steps comes to the same
/// end with more patience.
pub proof fn lemma_patience(program: Seq<u64>, m: Machine, n: nat, more: nat)
    requires
        n <= more,
        run(program, m, n) is Some,
    ensures
        run(program, m, more) == run(program, m, n),
    decreases n,
{
    if m.ip < program.len() && n > 0 {
        lemma_patience(program, step(program, m)->0, (n - 1) as nat, (more - 1) as nat);
    }
}

} // verus!
