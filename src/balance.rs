use vstd::prelude::*;
use crate::brackets::{ins_balanced, ins_depth};
use crate::fold::{close_loop, fold_prefix, fold_spec, fold_step, FoldState, Instruction, RunError, CLOSE, OPEN};

verus! {

/// Loop depth after the first `n` bytes of the source: `[` minus `]`.
pub open spec fn src_depth(src: Seq<u8>, n: nat) -> int
    decreases n,
{
    if n == 0 {
        0
    } else {
        src_depth(src, (n - 1) as nat) + if src[n - 1] == OPEN {
            1int
        } else if src[n - 1] == CLOSE {
            -1int
        } else {
            0int
        }
    }
}

/// Every `]` closes an earlier `[`, and every `[` is closed.
pub open spec fn src_balanced(src: Seq<u8>) -> bool {
    &&& forall|n: nat| n <= src.len() ==> #[trigger] src_depth(src, n) >= 0
    &&& src_depth(src, src.len()) == 0
}

/// The `[` at `p` has no matching `]`: the depth never falls back below it.
pub open spec fn unclosed_at(src: Seq<u8>, p: int) -> bool {
    &&& 0 <= p < src.len()
    &&& src[p] == OPEN
    &&& forall|m: nat| p < m <= src.len() ==> #[trigger] src_depth(src, m) > src_depth(src, p as nat)
}

/// The `]` at `p` is the first byte with no open loop to close.
pub open spec fn stray_at(src: Seq<u8>, p: int) -> bool {
    &&& 0 <= p < src.len()
    &&& src[p] == CLOSE
    &&& src_depth(src, (p + 1) as nat) < 0
    &&& forall|m: nat| m <= p ==> #[trigger] src_depth(src, m) >= 0
}

proof fn lemma_ins_depth_prefix(a: Seq<Instruction>, b: Seq<Instruction>, m: nat)
    requires
        m <= a.len(),
        m <= b.len(),
        forall|i: int| 0 <= i < m ==> a[i] == b[i],
    ensures
        ins_depth(a, m) == ins_depth(b, m),
    decreases m,
{
    if m > 0 {
        lemma_ins_depth_prefix(a, b, (m - 1) as nat);
    }
}

/// The fold state after `n` bytes tracks the loop depth of the source and
/// of the instruction stream alike.
spec fn state_ok(src: Seq<u8>, n: nat, st: FoldState) -> bool {
    let (ins, opens) = st;
    &&& opens.len() == src_depth(src, n)
    &&& opens.len() == ins_depth(ins, ins.len())
    &&& forall|m: nat| m <= ins.len() ==> #[trigger] ins_depth(ins, m) >= 0
    &&& forall|m: nat| m <= n ==> #[trigger] src_depth(src, m) >= 0
    &&& forall|k: int|
        0 <= k < opens.len() ==> 0 <= #[trigger] opens[k] < n && src[opens[k]] == OPEN
            && src_depth(src, opens[k] as nat) == k && (forall|m: nat|
            opens[k] < m <= n ==> #[trigger] src_depth(src, m) > k)
}

proof fn lemma_push_depths(ins: Seq<Instruction>, x: Instruction)
    ensures
        forall|m: nat| m <= ins.len() ==> #[trigger] ins_depth(ins.push(x), m) == ins_depth(ins, m),
{
    assert forall|m: nat| m <= ins.len() implies #[trigger] ins_depth(ins.push(x), m) == ins_depth(ins, m) by {
        lemma_ins_depth_prefix(ins.push(x), ins, m);
    }
}

proof fn lemma_close_loop_depths(ins: Seq<Instruction>, scan: bool)
    requires
        ins_depth(ins, ins.len()) >= 1,
        forall|m: nat| m <= ins.len() ==> #[trigger] ins_depth(ins, m) >= 0,
    ensures
        ins_depth(close_loop(ins, scan), close_loop(ins, scan).len()) == ins_depth(ins, ins.len()) - 1,
        forall|m: nat| m <= close_loop(ins, scan).len() ==> #[trigger] ins_depth(close_loop(ins, scan), m) >= 0,
{
    let n = ins.len();
    let r = close_loop(ins, scan);
    let c: int = if n >= 2 && ins[n - 2] == Instruction::JumpRight && (ins[n - 1] matches Instruction::Add(k)
        && k % 2 != 0) {
        n - 2
    } else if n >= 5 && ins[n - 5] == Instruction::JumpRight && ins[n - 4] == Instruction::Add(-1i8)
        && ins[n - 2] == Instruction::Add(1i8) && (ins[n - 3] matches Instruction::Move(x)
        && ins[n - 1] matches Instruction::Move(y) && x == -y && x != 0) {
        n - 5
    } else if scan && n >= 2 && ins[n - 2] == Instruction::JumpRight && (ins[n
        - 1] matches Instruction::Move(k) && k != 0) {
        n - 2
    } else {
        n as int
    };
    if c == n {
        lemma_push_depths(ins, Instruction::JumpLeft);
        assert(r == ins.push(Instruction::JumpLeft));
        assert(ins_depth(r, n + 1) == ins_depth(r, n) - 1);
    } else {
        assert(r.len() == c + 1);
        assert(r == ins.subrange(0, c).push(r[c]));
        assert(!(r[c] is JumpRight) && !(r[c] is JumpLeft));
        assert forall|m: nat| m <= c implies #[trigger] ins_depth(r, m) == ins_depth(ins, m) by {
            lemma_ins_depth_prefix(r, ins, m);
        }
        assert(ins[c] is JumpRight);
        assert forall|i: int| c < i < n implies !(ins[i] is JumpRight) && !(ins[i] is JumpLeft) by {}
        lemma_tail_depth(ins, c, n);
        assert(ins_depth(r, (c + 1) as nat) == ins_depth(r, c as nat));
    }
}

proof fn lemma_tail_depth(ins: Seq<Instruction>, c: int, m: nat)
    requires
        0 <= c,
        c + 1 <= m <= ins.len(),
        ins[c] is JumpRight,
        forall|i: int| c < i < ins.len() ==> !(ins[i] is JumpRight) && !(ins[i] is JumpLeft),
    ensures
        ins_depth(ins, m) == ins_depth(ins, c as nat) + 1,
    decreases m,
{
    if m > c + 1 {
        lemma_tail_depth(ins, c, (m - 1) as nat);
    }
}

proof fn lemma_fold_prefix(src: Seq<u8>, n: nat, scan: bool)
    requires
        n <= src.len(),
        src.len() <= usize::MAX,
    ensures
        fold_prefix(src, n, scan) matches Ok(st) ==> state_ok(src, n, st),
        fold_prefix(src, n, scan) matches Err(e) ==> (e matches RunError::UnbalancedBrackets(c, p)
            && c == ']' && p < n && stray_at(src, p as int)),
    decreases n,
{
    if n == 0 {
        return;
    }
    let n1 = (n - 1) as nat;
    lemma_fold_prefix(src, n1, scan);
    if let Ok(st) = fold_prefix(src, n1, scan) {
        let (ins, opens) = st;
        let b = src[n1 as int];
        assert(fold_prefix(src, n, scan) == fold_step(st, b, n1 as int, scan));
        if b == OPEN {
            lemma_push_depths(ins, Instruction::JumpRight);
            let ins2 = ins.push(Instruction::JumpRight);
            assert(ins_depth(ins2, ins.len()) == ins_depth(ins, ins.len()));
            assert(ins2[ins.len() as int] is JumpRight);
            assert(ins_depth(ins2, ins2.len()) == ins_depth(ins, ins.len()) + 1);
            let opens2 = opens.push(n1 as int);
            assert forall|k: int| 0 <= k < opens2.len() implies 0 <= #[trigger] opens2[k] < n
                && src[opens2[k]] == OPEN && src_depth(src, opens2[k] as nat) == k && (forall|m: nat|
                opens2[k] < m <= n ==> #[trigger] src_depth(src, m) > k) by {
                if k < opens.len() {
                    assert(opens2[k] == opens[k]);
                }
            }
            assert(state_ok(src, n, (ins2, opens2)));
        } else if b == CLOSE {
            if opens.len() == 0 {
                assert(n1 as usize as int == n1);
                assert(src_depth(src, n) < 0);
            } else {
                lemma_close_loop_depths(ins, scan);
                let opens2 = opens.drop_last();
                assert forall|k: int| 0 <= k < opens2.len() implies 0 <= #[trigger] opens2[k] < n
                    && src[opens2[k]] == OPEN && src_depth(src, opens2[k] as nat) == k && (forall|m: nat|
                    opens2[k] < m <= n ==> #[trigger] src_depth(src, m) > k) by {
                    assert(opens2[k] == opens[k]);
                }
                assert(state_ok(src, n, (close_loop(ins, scan), opens2)));
            }
        } else {
            if let Ok(st2) = fold_step(st, b, n1 as int, scan) {
                let ins2 = st2.0;
                assert(st2.1 == opens);
                assert(ins2.len() == ins.len() || ins2.len() == ins.len() + 1);
                assert forall|m: nat| m <= ins.len() implies #[trigger] ins_depth(ins2, m) == ins_depth(ins, m) by {
                    if ins2.len() == ins.len() && m == ins.len() && m > 0 {
                        lemma_ins_depth_prefix(ins2, ins, (m - 1) as nat);
                    } else {
                        lemma_ins_depth_prefix(ins2, ins, m);
                    }
                }
                if ins2.len() == ins.len() + 1 {
                    assert(ins_depth(ins2, ins.len()) == ins_depth(ins, ins.len()));
                    let x = ins2[ins.len() as int];
                    assert(x is Add || x is Move || x is Output || x is Input);
                    assert(ins_depth(ins2, ins2.len()) == ins_depth(ins, ins.len()));
                }
                assert(state_ok(src, n, st2));
            }
        }
    }
}

/// The folder accepts a source exactly when its brackets are balanced, and
/// then yields a balanced instruction stream. On failure it names either the
/// first `]` with no loop to close or a `[` that is never closed.
pub proof fn fold_accepts_balanced(src: Seq<u8>, scan: bool)
    requires
        src.len() <= usize::MAX,
    ensures
        fold_spec(src, scan) is Ok <==> src_balanced(src),
        fold_spec(src, scan) matches Ok(ins) ==> ins_balanced(ins),
        fold_spec(src, scan) matches Err(e) ==> (e matches RunError::UnbalancedBrackets(c, p) && ((c
            == ']' && stray_at(src, p as int)) || (c == '[' && unclosed_at(src, p as int)))),
{
    lemma_fold_prefix(src, src.len(), scan);
    match fold_prefix(src, src.len(), scan) {
        Ok(st) => {
            let (ins, opens) = st;
            if opens.len() > 0 {
                let k = opens.len() - 1;
                assert(opens[k] == opens.last());
                assert(unclosed_at(src, opens.last()));
                assert(opens.last() as usize as int == opens.last());
            }
        },
        Err(e) => {
            if let RunError::UnbalancedBrackets(c, p) = e {
                assert(src_depth(src, (p + 1) as nat) < 0);
            }
        },
    }
}

} // verus!
