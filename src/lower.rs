use vstd::prelude::*;
use crate::fold::{fold, fold_spec, Instruction, RunError};
use crate::tape::wrap;

verus! {

/// Pointer arithmetic without a branch: the pointer plus `delta` is taken
/// unless it leaves the tape, in which case the pointer plus `wrapped` is.
#[derive(Debug, Clone, Copy, PartialEq, Eq)]
pub struct Wrap {
    pub delta: i32,
    pub wrapped: i32,
}

/// The position that the plan `w` selects from the pointer `p`: a forward
/// move wraps when it reaches the tape length, a backward one when it falls
/// below zero.
pub open spec fn wrap_select(p: int, w: Wrap) -> int {
    let moved = p + w.delta;
    if w.delta > 0 {
        if moved < 30000 {
            moved
        } else {
            p + w.wrapped
        }
    } else {
        if moved < 0 {
            p + w.wrapped
        } else {
            moved
        }
    }
}

/// One operation of the compiled function, over the pointer variable, the
/// tape base and the shared exit block.
#[derive(Debug, Clone, Copy, PartialEq, Eq)]
pub enum IrOp {
    /// Loads the current cell, adds the delta and stores it back.
    AddCell(i8),
    /// Redefines the pointer by the wrap plan.
    MovePointer(Wrap),
    /// Calls the host write with the current cell; an error leaves for the exit block.
    Write,
    /// Calls the host read with the current cell's address; an error leaves for the exit block.
    Read,
    /// Creates the loop body and after-loop blocks, branches on the current cell,
    /// and enters the body.
    LoopOpen,
    /// Branches back to the innermost open body while the cell is not zero,
    /// seals both of its blocks and continues after the loop.
    LoopClose,
    /// Stores zero into the current cell.
    ClearCell,
    /// Adds the current cell into the cell the plan selects and zeroes the current cell.
    AddToCell(Wrap),
}

/// The wrap plan for a displacement `k`, reduced modulo the tape length.
pub open spec fn wrap_plan(k: int) -> Wrap {
    let r = if k >= 0 { k % 30000 } else { -((-k) % 30000) };
    Wrap { delta: r as i32, wrapped: (if r > 0 { r - 30000 } else { r + 30000 }) as i32 }
}

/// The operations that one instruction lowers to. `MoveUntil` becomes the
/// loop that it stands for.
pub open spec fn lower_one(i: Instruction) -> Seq<IrOp> {
    match i {
        Instruction::Add(d) => seq![IrOp::AddCell(d)],
        Instruction::Move(k) => seq![IrOp::MovePointer(wrap_plan(k as int))],
        Instruction::Output => seq![IrOp::Write],
        Instruction::Input => seq![IrOp::Read],
        Instruction::JumpRight => seq![IrOp::LoopOpen],
        Instruction::JumpLeft => seq![IrOp::LoopClose],
        Instruction::Clear => seq![IrOp::ClearCell],
        Instruction::AddTo(k) => seq![IrOp::AddToCell(wrap_plan(k as int))],
        Instruction::MoveUntil(k) => seq![
            IrOp::LoopOpen,
            IrOp::MovePointer(wrap_plan(k as int)),
            IrOp::LoopClose,
        ],
    }
}

/// The operations for a whole instruction stream, in order.
pub open spec fn lower_spec(ins: Seq<Instruction>) -> Seq<IrOp>
    decreases ins.len(),
{
    if ins.len() == 0 {
        Seq::empty()
    } else {
        lower_spec(ins.drop_last()) + lower_one(ins.last())
    }
}

/// Computes the wrap plan for the displacement `k`; from every cell it
/// selects the cell that a move by `k` reaches.
pub fn plan_wrap(k: i32) -> (w: Wrap)
    ensures
        w == wrap_plan(k as int),
        -30000 < w.delta < 30000,
        forall|p: int| 0 <= p < 30000 ==> #[trigger] wrap_select(p, w) == wrap(p, k as int),
{
    let r: i32 = if k >= 0 {
        k % 30000
    } else {
        -(((-(k as i64)) % 30000) as i32)
    };
    let wrapped: i32 = if r > 0 { r - 30000 } else { r + 30000 };
    let w = Wrap { delta: r, wrapped };
    proof {
        let ki = k as int;
        assert forall|p: int| 0 <= p < 30000 implies #[trigger] wrap_select(p, w) == wrap(p, ki) by {
            if ki >= 0 {
                assert((p + ki) % 30000 == (p + r) % 30000) by (nonlinear_arith)
                    requires ki >= 0, r == ki % 30000;
                assert(0 <= r < 30000) by (nonlinear_arith)
                    requires ki >= 0, r == ki % 30000;
            } else {
                assert((p + ki) % 30000 == (p + r) % 30000) by (nonlinear_arith)
                    requires ki < 0, r == -((-ki) % 30000);
                assert(-30000 < r <= 0) by (nonlinear_arith)
                    requires ki < 0, r == -((-ki) % 30000);
            }
        }
    }
    w
}

/// Lowers an instruction stream to the operations of the compiled function.
pub fn lower(ins: &Vec<Instruction>) -> (r: Vec<IrOp>)
    ensures
        r@ == lower_spec(ins@),
{
    let mut ops: Vec<IrOp> = Vec::new();
    let mut i: usize = 0;
    while i < ins.len()
        invariant
            i <= ins@.len(),
            ops@ == lower_spec(ins@.subrange(0, i as int)),
        decreases ins@.len() - i,
    {
        let ghost before = ops@;
        match ins[i] {
            Instruction::Add(d) => ops.push(IrOp::AddCell(d)),
            Instruction::Move(k) => ops.push(IrOp::MovePointer(plan_wrap(k))),
            Instruction::Output => ops.push(IrOp::Write),
            Instruction::Input => ops.push(IrOp::Read),
            Instruction::JumpRight => ops.push(IrOp::LoopOpen),
            Instruction::JumpLeft => ops.push(IrOp::LoopClose),
            Instruction::Clear => ops.push(IrOp::ClearCell),
            Instruction::AddTo(k) => ops.push(IrOp::AddToCell(plan_wrap(k))),
            Instruction::MoveUntil(k) => {
                ops.push(IrOp::LoopOpen);
                ops.push(IrOp::MovePointer(plan_wrap(k)));
                ops.push(IrOp::LoopClose);
            },
        }
        proof {
            let pre = ins@.subrange(0, i as int + 1);
            assert(pre.drop_last() =~= ins@.subrange(0, i as int));
            assert(pre.last() == ins@[i as int]);
            assert(ops@ =~= before + lower_one(ins@[i as int]));
        }
        i = i + 1;
    }
    assert(ins@.subrange(0, ins@.len() as int) =~= ins@);
    ops
}

/// Folds `source` the way the compiled back-end does, without the scan idiom,
/// and lowers it; or the bracket error.
pub fn compile_plan(source: &[u8]) -> (r: Result<Vec<IrOp>, RunError>)
    ensures
        fold_spec(source@, false) matches Err(e) ==> r == Err::<Vec<IrOp>, RunError>(e),
        fold_spec(source@, false) matches Ok(ins) ==> (r matches Ok(ops) && ops@ == lower_spec(ins)),
{
    match fold(source, false) {
        Ok(ins) => Ok(lower(&ins)),
        Err(e) => Err(e),
    }
}

} // verus!
