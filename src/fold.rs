use vstd::prelude::*;

verus! {

/// The command bytes of the language.
pub const PLUS: u8 = 43;
pub const MINUS: u8 = 45;
pub const RIGHT: u8 = 62;
pub const LEFT: u8 = 60;
pub const DOT: u8 = 46;
pub const COMMA: u8 = 44;
pub const OPEN: u8 = 91;
pub const CLOSE: u8 = 93;

/// One operation of the folded instruction stream.
#[derive(Debug, Clone, Copy, PartialEq, Eq)]
pub enum Instruction {
    /// Adds a delta to the current cell, wrapping modulo 256.
    Add(i8),
    /// Moves the data pointer by a displacement, wrapping around the tape.
    Move(i32),
    /// Reads one byte into the current cell.
    Input,
    /// Writes the current cell.
    Output,
    /// Opens a loop: skips past the matching close when the cell is zero.
    JumpRight,
    /// Closes a loop: goes back to the matching open when the cell is not zero.
    JumpLeft,
    /// Sets the current cell to zero.
    Clear,
    /// Adds the current cell into the cell at a displacement and zeroes the current cell.
    AddTo(i32),
    /// Moves by a displacement until the current cell is zero.
    MoveUntil(i32),
}

/// A failure to compile source text.
#[derive(Debug, Clone, Copy, PartialEq, Eq)]
pub enum RunError {
    /// A bracket without a partner, and its byte position in the source.
    UnbalancedBrackets(char, usize),
}

/// What the folder has built after a prefix of the source: the instruction
/// stream and the byte positions of the loops still open, innermost last.
pub type FoldState = (Seq<Instruction>, Seq<int>);

/// Sum of two deltas as an 8-bit two's complement value.
pub open spec fn add_i8(x: int, d: int) -> i8 {
    let s = x + d;
    if s > 127 {
        (s - 256) as i8
    } else if s < -128 {
        (s + 256) as i8
    } else {
        s as i8
    }
}

/// The instruction stream after a loop is closed over `ins`: a recognised
/// idiom at its tail is fused into one instruction, otherwise a close is added.
pub open spec fn close_loop(ins: Seq<Instruction>, scan: bool) -> Seq<Instruction> {
    let n = ins.len();
    if n >= 2 && ins[n - 2] == Instruction::JumpRight && (ins[n - 1] matches Instruction::Add(k)
        && k % 2 != 0) {
        ins.subrange(0, n - 2).push(Instruction::Clear)
    } else if n >= 5 && ins[n - 5] == Instruction::JumpRight && ins[n - 4] == Instruction::Add(-1i8)
        && ins[n - 2] == Instruction::Add(1i8) && (ins[n - 3] matches Instruction::Move(x)
        && ins[n - 1] matches Instruction::Move(y) && x == -y && x != 0) {
        ins.subrange(0, n - 5).push(Instruction::AddTo(ins[n - 3]->Move_0))
    } else if scan && n >= 2 && ins[n - 2] == Instruction::JumpRight && (ins[n
        - 1] matches Instruction::Move(k) && k != 0) {
        ins.subrange(0, n - 2).push(Instruction::MoveUntil(ins[n - 1]->Move_0))
    } else {
        ins.push(Instruction::JumpLeft)
    }
}

/// Effect of the source byte `b`, at position `pos`, on the fold state.
pub open spec fn fold_step(st: FoldState, b: u8, pos: int, scan: bool) -> Result<FoldState, RunError> {
    let (ins, opens) = st;
    let n = ins.len();
    if b == PLUS || b == MINUS {
        let d: int = if b == PLUS { 1 } else { -1 };
        if n > 0 && ins[n - 1] is Add {
            Ok((ins.update(n - 1, Instruction::Add(add_i8(ins[n - 1]->Add_0 as int, d))), opens))
        } else {
            Ok((ins.push(Instruction::Add(d as i8)), opens))
        }
    } else if b == RIGHT || b == LEFT {
        let d: int = if b == RIGHT { 1 } else { -1 };
        if n > 0 && (ins[n - 1] matches Instruction::Move(x) && i32::MIN <= x + d <= i32::MAX) {
            Ok((ins.update(n - 1, Instruction::Move((ins[n - 1]->Move_0 + d) as i32)), opens))
        } else {
            Ok((ins.push(Instruction::Move(d as i32)), opens))
        }
    } else if b == DOT {
        Ok((ins.push(Instruction::Output), opens))
    } else if b == COMMA {
        Ok((ins.push(Instruction::Input), opens))
    } else if b == OPEN {
        Ok((ins.push(Instruction::JumpRight), opens.push(pos)))
    } else if b == CLOSE {
        if opens.len() == 0 {
            Err(RunError::UnbalancedBrackets(']', pos as usize))
        } else {
            Ok((close_loop(ins, scan), opens.drop_last()))
        }
    } else {
        Ok(st)
    }
}

/// The fold state after the first `n` bytes of `src`.
pub open spec fn fold_prefix(src: Seq<u8>, n: nat, scan: bool) -> Result<FoldState, RunError>
    decreases n,
{
    if n == 0 {
        Ok((Seq::empty(), Seq::empty()))
    } else {
        match fold_prefix(src, (n - 1) as nat, scan) {
            Ok(st) => fold_step(st, src[n - 1], n - 1, scan),
            Err(e) => Err(e),
        }
    }
}

/// The instruction stream folded from the whole of `src`, or the first bracket
/// error: a close found with no loop open, else the innermost loop left open.
pub open spec fn fold_spec(src: Seq<u8>, scan: bool) -> Result<Seq<Instruction>, RunError> {
    match fold_prefix(src, src.len(), scan) {
        Ok((ins, opens)) => if opens.len() == 0 {
            Ok(ins)
        } else {
            Err(RunError::UnbalancedBrackets('[', opens.last() as usize))
        },
        Err(e) => Err(e),
    }
}

/// Whether `r` is the executable form of the folded result `s`.
pub open spec fn fold_result_matches(
    r: Result<Vec<Instruction>, RunError>,
    s: Result<Seq<Instruction>, RunError>,
) -> bool {
    match r {
        Ok(v) => s == Ok::<Seq<Instruction>, RunError>(v@),
        Err(e) => s == Err::<Seq<Instruction>, RunError>(e),
    }
}

proof fn lemma_fold_error_persists(src: Seq<u8>, n: nat, m: nat, scan: bool)
    requires
        n <= m,
        fold_prefix(src, n, scan) is Err,
    ensures
        fold_prefix(src, m, scan) == fold_prefix(src, n, scan),
    decreases m - n,
{
    if n < m {
        lemma_fold_error_persists(src, n, (m - 1) as nat, scan);
    }
}

spec fn positions(v: Seq<usize>) -> Seq<int> {
    v.map_values(|p: usize| p as int)
}

fn close_loop_exec(ins: &mut Vec<Instruction>, scan: bool)
    ensures
        final(ins)@ == close_loop(old(ins)@, scan),
{
    let n = ins.len();
    if n >= 2 {
        if let (Instruction::JumpRight, Instruction::Add(k)) = (ins[n - 2], ins[n - 1]) {
            if k % 2 != 0 {
                ins.truncate(n - 2);
                ins.push(Instruction::Clear);
                return;
            }
        }
    }
    if n >= 5 {
        if let (
            Instruction::JumpRight,
            Instruction::Add(-1),
            Instruction::Move(x),
            Instruction::Add(1),
            Instruction::Move(y),
        ) = (ins[n - 5], ins[n - 4], ins[n - 3], ins[n - 2], ins[n - 1]) {
            if x as i64 == -(y as i64) && x != 0 {
                ins.truncate(n - 5);
                ins.push(Instruction::AddTo(x));
                return;
            }
        }
    }
    if scan && n >= 2 {
        if let (Instruction::JumpRight, Instruction::Move(k)) = (ins[n - 2], ins[n - 1]) {
            if k != 0 {
                ins.truncate(n - 2);
                ins.push(Instruction::MoveUntil(k));
                return;
            }
        }
    }
    ins.push(Instruction::JumpLeft);
}

/// Folds source bytes into an instruction stream. Runs of `+`/`-` and of
/// `>`/`<` collapse into one `Add` or `Move`; loops that match a known idiom
/// become one fused instruction (`MoveUntil` only when `scan` is set); bytes
/// other than the eight commands are ignored.
pub fn fold(source: &[u8], scan: bool) -> (r: Result<Vec<Instruction>, RunError>)
    ensures
        fold_result_matches(r, fold_spec(source@, scan)),
{
    let mut ins: Vec<Instruction> = Vec::new();
    let mut opens: Vec<usize> = Vec::new();
    let mut i: usize = 0;
    proof {
        assert(ins@ =~= Seq::<Instruction>::empty());
        assert(positions(opens@) =~= Seq::<int>::empty());
    }
    while i < source.len()
        invariant
            i <= source@.len(),
            fold_prefix(source@, i as nat, scan) == Ok::<FoldState, RunError>(
                (ins@, positions(opens@)),
            ),
            forall|k: int| 0 <= k < opens@.len() ==> opens@[k] < i,
        decreases source@.len() - i,
    {
        let b = source[i];
        let n = ins.len();
        let ghost st: FoldState = (ins@, positions(opens@));
        proof {
            assert(source@[i as int] == b);
        }
        if b == PLUS || b == MINUS {
            let d: i8 = if b == PLUS { 1 } else { -1 };
            if n > 0 && ins[n - 1] matches Instruction::Add(_) {
                if let Instruction::Add(x) = ins[n - 1] {
                    let s: i16 = x as i16 + d as i16;
                    let y: i8 = if s > 127 { (s - 256) as i8 } else if s < -128 { (s + 256) as i8 } else { s as i8 };
                    ins.set(n - 1, Instruction::Add(y));
                }
            } else {
                ins.push(Instruction::Add(d));
            }
        } else if b == RIGHT || b == LEFT {
            let d: i64 = if b == RIGHT { 1 } else { -1 };
            let mut folded = false;
            if n > 0 {
                if let Instruction::Move(x) = ins[n - 1] {
                    let s: i64 = x as i64 + d;
                    if i32::MIN as i64 <= s && s <= i32::MAX as i64 {
                        ins.set(n - 1, Instruction::Move(s as i32));
                        folded = true;
                    }
                }
            }
            if !folded {
                ins.push(Instruction::Move(d as i32));
            }
        } else if b == DOT {
            ins.push(Instruction::Output);
        } else if b == COMMA {
            ins.push(Instruction::Input);
        } else if b == OPEN {
            ins.push(Instruction::JumpRight);
            opens.push(i);
            proof {
                assert(positions(opens@) =~= st.1.push(i as int));
            }
        } else if b == CLOSE {
            if opens.len() == 0 {
                proof {
                    lemma_fold_error_persists(source@, (i + 1) as nat, source@.len(), scan);
                }
                return Err(RunError::UnbalancedBrackets(']', i));
            }
            opens.pop();
            proof {
                assert(positions(opens@) =~= st.1.drop_last());
            }
            close_loop_exec(&mut ins, scan);
        }
        proof {
            assert(fold_prefix(source@, (i + 1) as nat, scan) == fold_step(st, b, i as int, scan));
            assert(fold_step(st, b, i as int, scan) == Ok::<FoldState, RunError>(
                (ins@, positions(opens@)),
            ));
        }
        i = i + 1;
    }
    if opens.len() == 0 {
        Ok(ins)
    } else {
        Err(RunError::UnbalancedBrackets('[', opens[opens.len() - 1]))
    }
}

} // verus!
