use vstd::prelude::*;
use crate::brackets::{ins_depth, matched};
use crate::fold::Instruction;
use crate::machine::{run_spec, step_spec, Action, MachineState};
use crate::tape::{byte_add, wrap};
use vstd::arithmetic::div_mod::{lemma_fundamental_div_mod, lemma_fundamental_div_mod_converse_mod};

verus! {

/// The loop `[Add(n)]` as an instruction stream.
pub open spec fn clear_loop(n: i8) -> Seq<Instruction> {
    seq![Instruction::JumpRight, Instruction::Add(n), Instruction::JumpLeft]
}

/// The partners of the loop `[Add(n)]`.
pub open spec fn clear_loop_partners() -> Seq<usize> {
    seq![2usize, 0usize, 0usize]
}

proof fn lemma_odd_inverse(n: u32, v: u32)
    requires
        n < 256,
        v < 256,
        n & 1 == 1,
    ensures
        ({
            let a = (2u32 - ((n * n) as u32)) as u32;
            let i1 = (n * a) as u32;
            let b = (2u32 - ((n * i1) as u32)) as u32;
            let i2 = (i1 * b) as u32;
            ((v + ((((256u32 - v) as u32 * i2) as u32 & 255u32) * n) as u32) as u32) & 255u32 == 0
        }),
{
    assert({
        let a = (2u32 - ((n * n) as u32)) as u32;
        let i1 = (n * a) as u32;
        let b = (2u32 - ((n * i1) as u32)) as u32;
        let i2 = (i1 * b) as u32;
        ((v + ((((256u32 - v) as u32 * i2) as u32 & 255u32) * n) as u32) as u32) & 255u32 == 0
    }) by (bit_vector)
        requires
            n & 1 == 1,
            n < 256,
            v < 256,
    ;
}

/// Adding an odd delta repeatedly reaches zero from any cell value within 255 passes.
proof fn lemma_odd_reaches_zero(v: int, n: int) -> (k: int)
    requires
        0 <= v < 256,
        -128 <= n < 128,
        n % 2 != 0,
    ensures
        0 <= k < 256,
        (v + k * n) % 256 == 0,
{
    let nu: u32 = (if n < 0 { n + 256 } else { n }) as u32;
    assert(nu & 1 == 1) by (bit_vector)
        requires nu % 2 == 1;
    lemma_odd_inverse(nu, v as u32);
    let a = (2u32 - ((nu * nu) as u32)) as u32;
    let i1 = (nu * a) as u32;
    let b = (2u32 - ((nu * i1) as u32)) as u32;
    let i2 = (i1 * b) as u32;
    let vu = v as u32;
    let ku: u32 = (((256u32 - vu) as u32 * i2) as u32 & 255u32);
    assert(ku < 256) by (bit_vector)
        requires ku == (((256u32 - vu) as u32 * i2) as u32 & 255u32);
    assert(((vu + (ku * nu) as u32) as u32) & 255u32 == 0);
    assert(vu + ku * nu < 0x1_0000_0000) by (nonlinear_arith)
        requires vu < 256, ku < 256, nu < 256;
    let s: u32 = (vu + ku * nu) as u32;
    assert(s & 255u32 == s % 256) by (bit_vector);
    let k = ku as int;
    assert((v + k * n) % 256 == 0) by (nonlinear_arith)
        requires
            (v + k * nu) % 256 == 0,
            nu == n || nu == n + 256,
    {
        if nu == n + 256 {
            assert(v + k * nu == (v + k * n) + 256 * k);
        }
    }
    k
}

proof fn lemma_clear_passes(
    n: i8,
    ptr: int,
    tape: Seq<u8>,
    input: Seq<u8>,
    c: int,
    m: int,
    fuel: nat,
)
    requires
        tape.len() == 30000,
        0 <= ptr < 30000,
        0 < c < 256,
        m >= 1,
        (c + m * n) % 256 == 0,
        fuel >= 3 * m - 1,
    ensures
        run_spec(clear_loop(n), clear_loop_partners(), (1, ptr, tape.update(ptr, c as u8)), input, fuel)
            == ((3int, ptr, tape.update(ptr, 0)), Seq::<u8>::empty()),
    decreases m,
{
    reveal(step_spec);
    let ins = clear_loop(n);
    let t = clear_loop_partners();
    let c2 = byte_add(c, n as int);
    let tape1 = tape.update(ptr, c as u8);
    let tape2 = tape.update(ptr, c2 as u8);
    assert(tape1.update(ptr, c2 as u8) =~= tape2);
    let s1: MachineState = (1, ptr, tape1);
    assert(step_spec(ins, t, s1) == ((2int, ptr, tape2), Action::Continue));
    if c2 == 0 {
        assert(tape2 =~= tape.update(ptr, 0));
        assert(step_spec(ins, t, (2, ptr, tape2)) == ((3int, ptr, tape2), Action::Continue));
        assert(step_spec(ins, t, (3, ptr, tape2)).1 is Halt);
        assert(run_spec(ins, t, (3, ptr, tape2), input, (fuel - 2) as nat) == ((3int, ptr, tape2), Seq::<u8>::empty()));
        assert(run_spec(ins, t, (2, ptr, tape2), input, (fuel - 1) as nat) == ((3int, ptr, tape2), Seq::<u8>::empty()));
    } else {
        assert(m > 1) by (nonlinear_arith)
            requires
                (c + m * n) % 256 == 0,
                c2 == (c + n) % 256,
                c2 != 0,
                m >= 1,
        {
            if m == 1 {
                assert(c + m * n == c + n);
            }
        }
        assert((c2 + (m - 1) * n) % 256 == 0) by (nonlinear_arith)
            requires
                (c + m * n) % 256 == 0,
                c2 == (c + n) % 256,
        {
            assert(c + m * n == (c + n) + (m - 1) * n);
        }
        assert(step_spec(ins, t, (2, ptr, tape2)) == ((0int, ptr, tape2), Action::Continue));
        assert(step_spec(ins, t, (0, ptr, tape2)) == ((1int, ptr, tape2), Action::Continue));
        lemma_clear_passes(n, ptr, tape, input, c2, m - 1, (fuel - 3) as nat);
        assert(tape.update(ptr, c2 as u8) == tape2);
        assert(run_spec(ins, t, (0, ptr, tape2), input, (fuel - 2) as nat) == run_spec(ins, t, (1, ptr, tape2), input, (fuel - 3) as nat));
        assert(run_spec(ins, t, (2, ptr, tape2), input, (fuel - 1) as nat) == run_spec(ins, t, (0, ptr, tape2), input, (fuel - 2) as nat));
    }
    assert(run_spec(ins, t, s1, input, fuel) == run_spec(ins, t, (2, ptr, tape2), input, (fuel - 1) as nat));
}

/// Running the loop `[Add(n)]` with an odd `n` ends within 256 passes
/// (769 steps) with the current cell at zero and every other cell as it was,
/// which is the end state of the fused `Clear`.
pub proof fn clear_idiom_sound(n: i8, ptr: int, tape: Seq<u8>, input: Seq<u8>)
    requires
        n % 2 != 0,
        tape.len() == 30000,
        0 <= ptr < 30000,
    ensures
        matched(clear_loop(n), clear_loop_partners()),
        run_spec(clear_loop(n), clear_loop_partners(), (0, ptr, tape), input, 769) == (
            (3int, ptr, tape.update(ptr, 0)),
            Seq::<u8>::empty(),
        ),
        run_spec(seq![Instruction::Clear], seq![0usize], (0, ptr, tape), input, 769) == (
            (1int, ptr, tape.update(ptr, 0)),
            Seq::<u8>::empty(),
        ),
{
    reveal(step_spec);
    let ins = clear_loop(n);
    let t = clear_loop_partners();
    assert(ins_depth(ins, 0) == 0);
    assert(ins[0] is JumpRight);
    assert(ins_depth(ins, 1) == 1);
    assert(ins_depth(ins, 2) == 1);
    assert(ins_depth(ins, 3) == 0);
    let v = tape[ptr] as int;
    if v == 0 {
        assert(tape.update(ptr, 0) =~= tape);
        assert(step_spec(ins, t, (0, ptr, tape)) == ((3int, ptr, tape), Action::Continue));
        assert(step_spec(ins, t, (3, ptr, tape)).1 is Halt);
        assert(run_spec(ins, t, (3, ptr, tape), input, 768) == ((3int, ptr, tape), Seq::<u8>::empty()));
    } else {
        let k = lemma_odd_reaches_zero(v, n as int);
        assert(k != 0);
        assert(tape.update(ptr, v as u8) =~= tape);
        assert(step_spec(ins, t, (0, ptr, tape)) == ((1int, ptr, tape), Action::Continue));
        lemma_clear_passes(n, ptr, tape, input, v, k, 768);
        assert(run_spec(ins, t, (0, ptr, tape), input, 769) == run_spec(ins, t, (1, ptr, tape), input, 768));
    }
    let clear = seq![Instruction::Clear];
    assert(step_spec(clear, seq![0usize], (0, ptr, tape)) == (
        (1int, ptr, tape.update(ptr, 0)),
        Action::Continue,
    ));
    assert(step_spec(clear, seq![0usize], (1, ptr, tape.update(ptr, 0))).1 is Halt);
    assert(run_spec(clear, seq![0usize], (1, ptr, tape.update(ptr, 0)), input, 768) == (
        (1int, ptr, tape.update(ptr, 0)),
        Seq::<u8>::empty(),
    ));
}

/// Moving by `k` and then by `-k` comes back to the same cell.
proof fn lemma_wrap_back(p: int, k: int)
    requires
        0 <= p < 30000,
    ensures
        0 <= wrap(p, k) < 30000,
        wrap(wrap(p, k), -k) == p,
{
    let n: int = 30000;
    let x = (p + k) % n;
    lemma_fundamental_div_mod(p + k, n);
    lemma_fundamental_div_mod_converse_mod(x + n, n, 1, x);
    assert(wrap(p, k) == x);
    let y = (x - k) % n;
    assert(x - k == (-((p + k) / n)) * n + p) by (nonlinear_arith)
        requires
            p + k == n * ((p + k) / n) + x,
    ;
    lemma_fundamental_div_mod_converse_mod(x - k, n, -((p + k) / n), p);
    lemma_fundamental_div_mod_converse_mod(y + n, n, 1, y);
}

/// The loop `[-` then `Move(k)`, `+`, `Move(-k)` then `]` as an instruction stream.
pub open spec fn add_to_loop(k: i32) -> Seq<Instruction> {
    seq![
        Instruction::JumpRight,
        Instruction::Add(-1i8),
        Instruction::Move(k),
        Instruction::Add(1i8),
        Instruction::Move((-k) as i32),
        Instruction::JumpLeft,
    ]
}

/// The partners of the loop `add_to_loop(k)`.
pub open spec fn add_to_loop_partners() -> Seq<usize> {
    seq![5usize, 0usize, 0usize, 0usize, 0usize, 0usize]
}

proof fn lemma_add_to_pass_steps(k: i32, ptr: int, d: int, t1: Seq<u8>, a: int, b: int)
    requires
        k != i32::MIN,
        t1.len() == 30000,
        0 <= ptr < 30000,
        d == wrap(ptr, k as int),
        wrap(d, -k) == ptr,
        0 <= d < 30000,
        d != ptr,
        0 < a < 256,
        t1[ptr] == a,
        t1[d] == b,
    ensures
        ({
            let ins = add_to_loop(k);
            let t = add_to_loop_partners();
            let t2 = t1.update(ptr, (a - 1) as u8);
            let t3 = t2.update(d, byte_add(b, 1) as u8);
            &&& step_spec(ins, t, (1, ptr, t1)) == ((2int, ptr, t2), Action::Continue)
            &&& step_spec(ins, t, (2, ptr, t2)) == ((3int, d, t2), Action::Continue)
            &&& step_spec(ins, t, (3, d, t2)) == ((4int, d, t3), Action::Continue)
            &&& step_spec(ins, t, (4, d, t3)) == ((5int, ptr, t3), Action::Continue)
            &&& a == 1 ==> step_spec(ins, t, (5, ptr, t3)) == ((6int, ptr, t3), Action::Continue)
            &&& a != 1 ==> step_spec(ins, t, (5, ptr, t3)) == ((0int, ptr, t3), Action::Continue)
            &&& a != 1 ==> step_spec(ins, t, (0, ptr, t3)) == ((1int, ptr, t3), Action::Continue)
            &&& step_spec(ins, t, (6, ptr, t3)).1 is Halt
        }),
{
    reveal(step_spec);
}

proof fn lemma_add_to_passes(
    k: i32,
    ptr: int,
    tape: Seq<u8>,
    input: Seq<u8>,
    a: int,
    b: int,
    fuel: nat,
)
    requires
        k != i32::MIN,
        tape.len() == 30000,
        0 <= ptr < 30000,
        wrap(ptr, k as int) != ptr,
        0 < a < 256,
        0 <= b < 256,
        fuel >= 6 * a - 1,
    ensures
        ({
            let d = wrap(ptr, k as int);
            run_spec(
                add_to_loop(k),
                add_to_loop_partners(),
                (1, ptr, tape.update(ptr, a as u8).update(d, b as u8)),
                input,
                fuel,
            ) == ((6int, ptr, tape.update(ptr, 0).update(d, byte_add(a, b) as u8)), Seq::<u8>::empty())
        }),
    decreases a,
{
    let ins = add_to_loop(k);
    let t = add_to_loop_partners();
    let d = wrap(ptr, k as int);
    lemma_wrap_back(ptr, k as int);
    let t1 = tape.update(ptr, a as u8).update(d, b as u8);
    let t2 = t1.update(ptr, (a - 1) as u8);
    let t3 = t2.update(d, byte_add(b, 1) as u8);
    lemma_add_to_pass_steps(k, ptr, d, t1, a, b);
    assert(run_spec(ins, t, (4, d, t3), input, (fuel - 3) as nat) == run_spec(ins, t, (5, ptr, t3), input, (fuel - 4) as nat));
    assert(run_spec(ins, t, (3, d, t2), input, (fuel - 2) as nat) == run_spec(ins, t, (4, d, t3), input, (fuel - 3) as nat));
    assert(run_spec(ins, t, (2, ptr, t2), input, (fuel - 1) as nat) == run_spec(ins, t, (3, d, t2), input, (fuel - 2) as nat));
    assert(run_spec(ins, t, (1, ptr, t1), input, fuel) == run_spec(ins, t, (2, ptr, t2), input, (fuel - 1) as nat));
    if a == 1 {
        assert(t3 =~= tape.update(ptr, 0).update(d, byte_add(a, b) as u8));
        assert(run_spec(ins, t, (6, ptr, t3), input, (fuel - 5) as nat) == ((6int, ptr, t3), Seq::<u8>::empty()));
        assert(run_spec(ins, t, (5, ptr, t3), input, (fuel - 4) as nat) == run_spec(ins, t, (6, ptr, t3), input, (fuel - 5) as nat));
    } else {
        let b2 = byte_add(b, 1);
        lemma_add_to_passes(k, ptr, tape, input, a - 1, b2, (fuel - 6) as nat);
        assert(t3 =~= tape.update(ptr, (a - 1) as u8).update(d, b2 as u8));
        assert(byte_add(a - 1, b2) == byte_add(a, b));
        assert(run_spec(ins, t, (0, ptr, t3), input, (fuel - 5) as nat) == run_spec(ins, t, (1, ptr, t3), input, (fuel - 6) as nat));
        assert(run_spec(ins, t, (5, ptr, t3), input, (fuel - 4) as nat) == run_spec(ins, t, (0, ptr, t3), input, (fuel - 5) as nat));
    }
}

/// Running the loop `[-` `Move(k)` `+` `Move(-k)` `]` with `a` in the current
/// cell and `b` in the cell `k` away ends within 256 passes (1537 steps) with
/// the current cell at zero, the other at `(a + b) mod 256` and the pointer
/// back where it was, which is the end state of the fused `AddTo(k)`.
/// A `k` that is a multiple of the tape length names the current cell itself,
/// and that loop never ends, so it is left out.
pub proof fn add_to_idiom_sound(k: i32, ptr: int, tape: Seq<u8>, input: Seq<u8>)
    requires
        k != i32::MIN,
        tape.len() == 30000,
        0 <= ptr < 30000,
        wrap(ptr, k as int) != ptr,
    ensures
        matched(add_to_loop(k), add_to_loop_partners()),
        ({
            let d = wrap(ptr, k as int);
            let end = tape.update(ptr, 0).update(d, byte_add(tape[ptr] as int, tape[d] as int) as u8);
            &&& run_spec(add_to_loop(k), add_to_loop_partners(), (0, ptr, tape), input, 1537) == (
                (6int, ptr, end),
                Seq::<u8>::empty(),
            )
            &&& run_spec(seq![Instruction::AddTo(k)], seq![0usize], (0, ptr, tape), input, 1537)
                == ((1int, ptr, end), Seq::<u8>::empty())
        }),
{
    reveal(step_spec);
    let ins = add_to_loop(k);
    let t = add_to_loop_partners();
    assert(ins_depth(ins, 0) == 0);
    assert(ins[0] is JumpRight);
    assert(ins_depth(ins, 1) == 1);
    assert(ins_depth(ins, 2) == 1);
    assert(ins_depth(ins, 3) == 1);
    assert(ins_depth(ins, 4) == 1);
    assert(ins_depth(ins, 5) == 1);
    assert(ins_depth(ins, 6) == 0);
    let d = wrap(ptr, k as int);
    lemma_wrap_back(ptr, k as int);
    let a = tape[ptr] as int;
    let b = tape[d] as int;
    let end = tape.update(ptr, 0).update(d, byte_add(a, b) as u8);
    if a == 0 {
        assert(end =~= tape);
        assert(step_spec(ins, t, (0, ptr, tape)) == ((6int, ptr, tape), Action::Continue));
        assert(step_spec(ins, t, (6, ptr, tape)).1 is Halt);
        assert(run_spec(ins, t, (6, ptr, tape), input, 1536) == ((6int, ptr, tape), Seq::<u8>::empty()));
    } else {
        assert(tape.update(ptr, a as u8).update(d, b as u8) =~= tape);
        assert(step_spec(ins, t, (0, ptr, tape)) == ((1int, ptr, tape), Action::Continue));
        lemma_add_to_passes(k, ptr, tape, input, a, b, 1536);
        assert(byte_add(a, b) == byte_add(b, a));
        assert(run_spec(ins, t, (0, ptr, tape), input, 1537) == run_spec(ins, t, (1, ptr, tape), input, 1536));
    }
    let fused = seq![Instruction::AddTo(k)];
    let e2 = tape.update(d, byte_add(b, a) as u8).update(ptr, 0);
    assert(e2 =~= end);
    assert(step_spec(fused, seq![0usize], (0, ptr, tape)) == ((1int, ptr, e2), Action::Continue));
    assert(step_spec(fused, seq![0usize], (1, ptr, e2)).1 is Halt);
    assert(run_spec(fused, seq![0usize], (1, ptr, e2), input, 1536) == ((1int, ptr, e2), Seq::<u8>::empty()));
}

} // verus!
