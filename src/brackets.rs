use vstd::prelude::*;
use crate::fold::Instruction;

verus! {

/// Loop depth after the first `n` instructions: opens minus closes.
pub open spec fn ins_depth(ins: Seq<Instruction>, n: nat) -> int
    decreases n,
{
    if n == 0 {
        0
    } else {
        ins_depth(ins, (n - 1) as nat) + if ins[n - 1] is JumpRight {
            1int
        } else if ins[n - 1] is JumpLeft {
            -1int
        } else {
            0int
        }
    }
}

/// Every close has an open before it, and every open is closed.
pub open spec fn ins_balanced(ins: Seq<Instruction>) -> bool {
    &&& forall|n: nat| n <= ins.len() ==> #[trigger] ins_depth(ins, n) >= 0
    &&& ins_depth(ins, ins.len()) == 0
}

/// `t` pairs each open of `ins` with the first later close that brings the
/// depth back to where it was before the open, and that close with the open;
/// other instructions have partner zero.
pub open spec fn matched(ins: Seq<Instruction>, t: Seq<usize>) -> bool {
    &&& t.len() == ins.len()
    &&& forall|i: int|
        0 <= i < ins.len() && #[trigger] ins[i] is JumpRight ==> ins_depth(ins, (t[i] + 1) as nat)
            == ins_depth(ins, i as nat) && forall|m: nat|
            i < m <= t[i] ==> #[trigger] ins_depth(ins, m) > ins_depth(ins, i as nat)
    &&& forall|i: int|
        0 <= i < ins.len() && !(#[trigger] ins[i] is JumpRight) && !(ins[i] is JumpLeft) ==> t[i] == 0
    &&& forall|i: int|
        0 <= i < ins.len() && #[trigger] ins[i] is JumpRight ==> i < t[i] < ins.len()
            && ins[t[i] as int] is JumpLeft && t[t[i] as int] == i
    &&& forall|i: int|
        0 <= i < ins.len() && #[trigger] ins[i] is JumpLeft ==> t[i] < i
            && ins[t[i] as int] is JumpRight && t[t[i] as int] == i
}

proof fn lemma_open_partner_unique(ins: Seq<Instruction>, t1: Seq<usize>, t2: Seq<usize>, i: int)
    requires
        matched(ins, t1),
        matched(ins, t2),
        0 <= i < ins.len(),
        ins[i] is JumpRight,
    ensures
        t1[i] == t2[i],
{
    if t1[i] < t2[i] {
        let m = (t1[i] + 1) as nat;
        assert(ins_depth(ins, m) > ins_depth(ins, i as nat));
    } else if t2[i] < t1[i] {
        let m = (t2[i] + 1) as nat;
        assert(ins_depth(ins, m) > ins_depth(ins, i as nat));
    }
}

/// A stream has at most one pairing of its loop instructions.
pub proof fn partners_unique(ins: Seq<Instruction>, t1: Seq<usize>, t2: Seq<usize>)
    requires
        matched(ins, t1),
        matched(ins, t2),
    ensures
        t1 == t2,
{
    assert forall|i: int| 0 <= i < ins.len() implies t1[i] == t2[i] by {
        if ins[i] is JumpRight {
            lemma_open_partner_unique(ins, t1, t2, i);
        } else if ins[i] is JumpLeft {
            let o = t1[i] as int;
            lemma_open_partner_unique(ins, t1, t2, o);
        }
    }
    assert(t1 =~= t2);
}

/// Finds the partner of every loop instruction, or `None` when the stream is
/// not balanced.
pub fn match_brackets(ins: &Vec<Instruction>) -> (r: Option<Vec<usize>>)
    ensures
        r is Some <==> ins_balanced(ins@),
        r matches Some(t) ==> matched(ins@, t@),
{
    let n = ins.len();
    let mut t: Vec<usize> = vec![0usize; n];
    let mut stack: Vec<usize> = Vec::new();
    let mut i: usize = 0;
    while i < n
        invariant
            n == ins@.len(),
            i <= n,
            t@.len() == n,
            stack@.len() == ins_depth(ins@, i as nat),
            forall|m: nat| m <= i ==> #[trigger] ins_depth(ins@, m) >= 0,
            forall|k: int|
                0 <= k < stack@.len() ==> stack@[k] < i && ins@[stack@[k] as int] is JumpRight,
            forall|k: int, k2: int| 0 <= k < k2 < stack@.len() ==> stack@[k] < stack@[k2],
            forall|k: int|
                0 <= k < stack@.len() ==> ins_depth(ins@, #[trigger] stack@[k] as nat) == k && forall|m: nat|
                    stack@[k] < m <= i ==> #[trigger] ins_depth(ins@, m) > k,
            forall|j: int|
                0 <= j < n && !(#[trigger] ins@[j] is JumpRight) && !(ins@[j] is JumpLeft) ==> t@[j] == 0,
            forall|j: int|
                0 <= j < i && #[trigger] ins@[j] is JumpRight && !stack@.contains(j as usize)
                    ==> ins_depth(ins@, (t@[j] + 1) as nat) == ins_depth(ins@, j as nat) && forall|m: nat|
                    j < m <= t@[j] ==> #[trigger] ins_depth(ins@, m) > ins_depth(ins@, j as nat),
            forall|j: int|
                0 <= j < i && #[trigger] ins@[j] is JumpLeft ==> t@[j] < j
                    && ins@[t@[j] as int] is JumpRight && t@[t@[j] as int] == j,
            forall|j: int|
                0 <= j < i && #[trigger] ins@[j] is JumpRight && !stack@.contains(j as usize)
                    ==> j < t@[j] < i && ins@[t@[j] as int] is JumpLeft && t@[t@[j] as int] == j,
            forall|j: int, k: int|
                0 <= j < i && 0 <= k < stack@.len() && #[trigger] ins@[j] is JumpLeft ==> t@[j]
                    != #[trigger] stack@[k],
        decreases n - i,
    {
        match ins[i] {
            Instruction::JumpRight => {
                let ghost before = stack@;
                stack.push(i);
                proof {
                    assert forall|j: int| 0 <= j < i && #[trigger] before.contains(j as usize) implies stack@.contains(
                        j as usize,
                    ) by {
                        let k = choose|k: int| 0 <= k < before.len() && before[k] == j as usize;
                        assert(stack@[k] == before[k]);
                    }
                    assert(stack@[stack@.len() - 1] == i);
                    assert(stack@.contains(i));
                }
            },
            Instruction::JumpLeft => {
                if stack.len() == 0 {
                    assert(ins_depth(ins@, (i + 1) as nat) < 0);
                    return None;
                }
                let ghost before = stack@;
                let o = stack.pop().unwrap();
                t.set(o, i);
                t.set(i, o);
                proof {
                    assert forall|k: int| 0 <= k < stack@.len() implies stack@[k] < o by {
                        assert(before[k] == stack@[k]);
                        assert(before[before.len() - 1] == o);
                    }
                    assert forall|j: int|
                        0 <= j < i && #[trigger] before.contains(j as usize) && j != o implies stack@.contains(
                        j as usize,
                    ) by {
                        let k = choose|k: int| 0 <= k < before.len() && before[k] == j as usize;
                        assert(k != before.len() - 1);
                        assert(stack@[k] == before[k]);
                    }
                    assert(ins@[o as int] is JumpRight);
                    assert forall|j: int|
                        0 <= j <= i && #[trigger] ins@[j] is JumpRight && !stack@.contains(j as usize)
                        implies j < t@[j] <= i && ins@[t@[j] as int] is JumpLeft && t@[t@[j] as int] == j by {
                        if j != o {
                            assert(!before.contains(j as usize));
                        }
                    }
                }
            },
            _ => {},
        }
        proof {
            assert(ins_depth(ins@, (i + 1) as nat) == stack@.len());
        }
        i = i + 1;
    }
    if stack.len() != 0 {
        return None;
    }
    Some(t)
}

} // verus!
