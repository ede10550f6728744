use vstd::prelude::*;
use crate::brackets::{ins_balanced, ins_depth};
use crate::fold::{
    add_i8, close_loop, fold_prefix, fold_spec, fold_step, FoldState, Instruction, RunError, CLOSE,
    COMMA, DOT, LEFT, MINUS, OPEN, PLUS, RIGHT,
};

verus! {

/// `m` copies of the byte `c`.
pub open spec fn repeat(c: u8, m: nat) -> Seq<u8> {
    Seq::new(m, |i: int| c)
}

/// The source text of an `Add(d)`: `d` pluses, or `-d` minuses.
pub open spec fn render_add(d: int) -> Seq<u8> {
    if d >= 0 {
        repeat(PLUS, d as nat)
    } else {
        repeat(MINUS, (-d) as nat)
    }
}

/// The source text of a `Move(k)`: `k` moves right, or `-k` moves left.
pub open spec fn render_move(k: int) -> Seq<u8> {
    if k >= 0 {
        repeat(RIGHT, k as nat)
    } else {
        repeat(LEFT, (-k) as nat)
    }
}

/// The canonical source text of one instruction.
pub open spec fn render_one(i: Instruction) -> Seq<u8> {
    match i {
        Instruction::Add(d) => render_add(d as int),
        Instruction::Move(k) => render_move(k as int),
        Instruction::Output => seq![DOT],
        Instruction::Input => seq![COMMA],
        Instruction::JumpRight => seq![OPEN],
        Instruction::JumpLeft => seq![CLOSE],
        Instruction::Clear => seq![OPEN, MINUS, CLOSE],
        Instruction::AddTo(k) => seq![OPEN, MINUS] + render_move(k as int) + seq![PLUS]
            + render_move(-k) + seq![CLOSE],
        Instruction::MoveUntil(k) => seq![OPEN] + render_move(k as int) + seq![CLOSE],
    }
}

/// The canonical source text of an instruction stream.
pub open spec fn render(ins: Seq<Instruction>) -> Seq<u8>
    decreases ins.len(),
{
    if ins.len() == 0 {
        Seq::empty()
    } else {
        render(ins.drop_last()) + render_one(ins.last())
    }
}

proof fn lemma_fold_prefix_local(a: Seq<u8>, b: Seq<u8>, n: nat, scan: bool)
    requires
        n <= a.len(),
        n <= b.len(),
        forall|i: int| 0 <= i < n ==> a[i] == b[i],
    ensures
        fold_prefix(a, n, scan) == fold_prefix(b, n, scan),
    decreases n,
{
    if n > 0 {
        lemma_fold_prefix_local(a, b, (n - 1) as nat, scan);
    }
}

/// The fold state after the bytes `bytes`, starting from `st` with the first
/// of them at position `base`.
pub open spec fn fold_run(st: FoldState, bytes: Seq<u8>, base: int, scan: bool) -> Result<
    FoldState,
    RunError,
>
    decreases bytes.len(),
{
    if bytes.len() == 0 {
        Ok(st)
    } else {
        match fold_run(st, bytes.drop_last(), base, scan) {
            Ok(s) => fold_step(s, bytes.last(), base + bytes.len() - 1, scan),
            Err(e) => Err(e),
        }
    }
}

proof fn lemma_fold_prefix_concat(a: Seq<u8>, b: Seq<u8>, scan: bool)
    ensures
        fold_prefix(a + b, a.len() + b.len(), scan) == match fold_prefix(a, a.len(), scan) {
            Ok(s) => fold_run(s, b, a.len() as int, scan),
            Err(e) => Err(e),
        },
    decreases b.len(),
{
    if b.len() == 0 {
        assert(a + b =~= a);
    } else {
        let b1 = b.drop_last();
        lemma_fold_prefix_concat(a, b1, scan);
        lemma_fold_prefix_local(a + b, a + b1, a.len() + b1.len(), scan);
        assert((a + b)[a.len() + b.len() - 1] == b.last());
    }
}

proof fn lemma_fold_run_concat(st: FoldState, b1: Seq<u8>, b2: Seq<u8>, base: int, scan: bool)
    ensures
        fold_run(st, b1 + b2, base, scan) == match fold_run(st, b1, base, scan) {
            Ok(s) => fold_run(s, b2, base + b1.len(), scan),
            Err(e) => Err(e),
        },
    decreases b2.len(),
{
    if b2.len() == 0 {
        assert(b1 + b2 =~= b1);
    } else {
        lemma_fold_run_concat(st, b1, b2.drop_last(), base, scan);
        assert((b1 + b2).drop_last() =~= b1 + b2.drop_last());
        assert((b1 + b2).last() == b2.last());
    }
}

proof fn lemma_run_adds(st: FoldState, up: bool, m: nat, base: int, scan: bool)
    requires
        1 <= m,
        up ==> m <= 127,
        !up ==> m <= 128,
        st.0.len() == 0 || !(st.0.last() is Add),
    ensures
        fold_run(st, repeat(if up { PLUS } else { MINUS }, m), base, scan) == Ok::<FoldState, RunError>(
            (st.0.push(Instruction::Add((if up { m as int } else { -m }) as i8)), st.1),
        ),
    decreases m,
{
    let c = if up { PLUS } else { MINUS };
    assert(repeat(c, m).drop_last() =~= repeat(c, (m - 1) as nat));
    if m > 1 {
        lemma_run_adds(st, up, (m - 1) as nat, base, scan);
        let prev = st.0.push(Instruction::Add((if up { (m - 1) as int } else { -(m - 1) }) as i8));
        assert(add_i8((if up { (m - 1) as int } else { -(m - 1) }), if up { 1 } else { -1 }) == (if up { m as int } else { -m }) as i8);
        assert(prev.update(prev.len() - 1, Instruction::Add((if up { m as int } else { -m }) as i8)) =~= st.0.push(Instruction::Add((if up { m as int } else { -m }) as i8)));
    } else {
        assert(repeat(c, 0) =~= Seq::<u8>::empty());
    }
}

proof fn lemma_run_moves(st: FoldState, up: bool, m: nat, base: int, scan: bool)
    requires
        1 <= m,
        up ==> m <= i32::MAX,
        !up ==> m <= -(i32::MIN as int),
        st.0.len() == 0 || !(st.0.last() is Move),
    ensures
        fold_run(st, repeat(if up { RIGHT } else { LEFT }, m), base, scan) == Ok::<FoldState, RunError>(
            (st.0.push(Instruction::Move((if up { m as int } else { -m }) as i32)), st.1),
        ),
    decreases m,
{
    let c = if up { RIGHT } else { LEFT };
    assert(repeat(c, m).drop_last() =~= repeat(c, (m - 1) as nat));
    if m > 1 {
        lemma_run_moves(st, up, (m - 1) as nat, base, scan);
        let prev = st.0.push(Instruction::Move((if up { (m - 1) as int } else { -(m - 1) }) as i32));
        assert(prev.update(prev.len() - 1, Instruction::Move((if up { m as int } else { -m }) as i32)) =~= st.0.push(Instruction::Move((if up { m as int } else { -m }) as i32)));
    } else {
        assert(repeat(c, 0) =~= Seq::<u8>::empty());
    }
}

proof fn lemma_run_add(st: FoldState, d: i8, base: int, scan: bool)
    requires
        d != 0,
        st.0.len() == 0 || !(st.0.last() is Add),
    ensures
        fold_run(st, render_add(d as int), base, scan) == Ok::<FoldState, RunError>(
            (st.0.push(Instruction::Add(d)), st.1),
        ),
{
    if d > 0 {
        lemma_run_adds(st, true, d as nat, base, scan);
    } else {
        lemma_run_adds(st, false, (-d) as nat, base, scan);
    }
}

proof fn lemma_run_move(st: FoldState, k: int, base: int, scan: bool)
    requires
        k != 0,
        i32::MIN <= k <= i32::MAX,
        st.0.len() == 0 || !(st.0.last() is Move),
    ensures
        fold_run(st, render_move(k), base, scan) == Ok::<FoldState, RunError>(
            (st.0.push(Instruction::Move(k as i32)), st.1),
        ),
{
    if k > 0 {
        lemma_run_moves(st, true, k as nat, base, scan);
    } else {
        lemma_run_moves(st, false, (-k) as nat, base, scan);
    }
}

/// What an instruction needs of the stream before it for its rendering to
/// fold back into it alone.
pub open spec fn refolds_after(prev: Seq<Instruction>, i: Instruction, scan: bool) -> bool {
    match i {
        Instruction::Add(d) => d != 0 && (prev.len() == 0 || !(prev.last() is Add)),
        Instruction::Move(k) => k != 0 && (prev.len() == 0 || !(prev.last() is Move)),
        Instruction::JumpLeft => close_loop(prev, scan) == prev.push(Instruction::JumpLeft),
        Instruction::AddTo(k) => k != 0 && k != i32::MIN,
        Instruction::MoveUntil(k) => k != 0 && scan,
        _ => true,
    }
}

/// How an instruction changes the loop depth.
pub open spec fn depth_change(i: Instruction) -> int {
    if i is JumpRight {
        1
    } else if i is JumpLeft {
        -1
    } else {
        0
    }
}

proof fn lemma_run_single(st: FoldState, i: Instruction, base: int, scan: bool)
    requires
        i is Output || i is Input || i is JumpRight || i is JumpLeft,
        refolds_after(st.0, i, scan),
        i is JumpLeft ==> st.1.len() > 0,
    ensures
        fold_run(st, render_one(i), base, scan) is Ok,
        fold_run(st, render_one(i), base, scan)->Ok_0.0 == st.0.push(i),
        fold_run(st, render_one(i), base, scan)->Ok_0.1.len() == st.1.len() + depth_change(i),
{
    let (ins, opens) = st;
        assert(render_one(i).drop_last() =~= Seq::<u8>::empty());
        assert(fold_run(st, Seq::<u8>::empty(), base, scan) == Ok::<FoldState, RunError>(st));
        assert(render_one(i).len() == 1);
}

proof fn lemma_run_clear(st: FoldState, base: int, scan: bool)
    ensures
        ({
            let i = Instruction::Clear;
            &&& fold_run(st, render_one(i), base, scan) is Ok
            &&& fold_run(st, render_one(i), base, scan)->Ok_0.0 == st.0.push(i)
            &&& fold_run(st, render_one(i), base, scan)->Ok_0.1.len() == st.1.len()
        }),
{
    let (ins, opens) = st;
    let r = seq![OPEN, MINUS, CLOSE];
    assert(render_one(Instruction::Clear) == r);
    lemma_run_open(st, base, scan);
    let s0 = (ins.push(Instruction::JumpRight), opens.push(base));
    let s1 = (s0.0.push(Instruction::Add(-1i8)), s0.1);
    assert(fold_run(s0, Seq::<u8>::empty(), base + 1, scan) == Ok::<FoldState, RunError>(s0));
    assert(seq![MINUS].drop_last() =~= Seq::<u8>::empty());
    assert(fold_step(s0, MINUS, base + 1, scan) == Ok::<FoldState, RunError>(s1));
    assert(fold_run(s0, seq![MINUS], base + 1, scan) == Ok::<FoldState, RunError>(s1));
    lemma_fold_run_concat(st, seq![OPEN], seq![MINUS], base, scan);
    assert(seq![OPEN] + seq![MINUS] =~= seq![OPEN, MINUS]);
    assert(s1.0.subrange(0, s1.0.len() - 2) =~= ins);
    lemma_run_close(s1, base + 2, scan);
    lemma_fold_run_concat(st, seq![OPEN, MINUS], seq![CLOSE], base, scan);
    assert(seq![OPEN, MINUS] + seq![CLOSE] =~= r);
}

proof fn lemma_run_open(st: FoldState, base: int, scan: bool)
    ensures
        fold_run(st, seq![OPEN], base, scan) == Ok::<FoldState, RunError>(
            (st.0.push(Instruction::JumpRight), st.1.push(base)),
        ),
{
    assert(seq![OPEN].drop_last() =~= Seq::<u8>::empty());
    assert(fold_run(st, Seq::<u8>::empty(), base, scan) == Ok::<FoldState, RunError>(st));
}

proof fn lemma_run_close(st: FoldState, base: int, scan: bool)
    requires
        st.1.len() > 0,
    ensures
        fold_run(st, seq![CLOSE], base, scan) == Ok::<FoldState, RunError>(
            (close_loop(st.0, scan), st.1.drop_last()),
        ),
{
    assert(seq![CLOSE].drop_last() =~= Seq::<u8>::empty());
    assert(fold_run(st, Seq::<u8>::empty(), base, scan) == Ok::<FoldState, RunError>(st));
}

proof fn lemma_run_add_to(st: FoldState, k: i32, base: int, scan: bool)
    requires
    k != 0,
    k != i32::MIN,
    ensures
    ({
        let i = Instruction::AddTo(k);
        &&& fold_run(st, render_one(i), base, scan) is Ok
        &&& fold_run(st, render_one(i), base, scan)->Ok_0.0 == st.0.push(i)
        &&& fold_run(st, render_one(i), base, scan)->Ok_0.1.len() == st.1.len()
    }),
{
    let (ins, opens) = st;
    let i = Instruction::AddTo(k);
    let open2 = seq![OPEN, MINUS];
    assert(open2.drop_last() =~= seq![OPEN]);
    assert(open2.drop_last().drop_last() =~= Seq::<u8>::empty());
    let s0 = (ins.push(Instruction::JumpRight), opens.push(base));
    assert(seq![OPEN].drop_last() =~= Seq::<u8>::empty());
    assert(fold_run(st, Seq::<u8>::empty(), base, scan) == Ok::<FoldState, RunError>(st));
    assert(fold_step(st, OPEN, base, scan) == Ok::<FoldState, RunError>(s0));
    assert(fold_run(st, seq![OPEN], base, scan) == Ok::<FoldState, RunError>(s0));
    assert(open2.last() == MINUS);
    assert(s0.0.last() is JumpRight);
    let s1 = (ins.push(Instruction::JumpRight).push(Instruction::Add(-1i8)), opens.push(base));
    assert(fold_step(s0, MINUS, base + 1, scan) == Ok::<FoldState, RunError>(s1));
    assert(fold_run(st, open2, base, scan) == Ok::<FoldState, RunError>(s1));
    let m1 = render_move(k as int);
    lemma_run_move(s1, k as int, base + 2, scan);
    let s2 = (s1.0.push(Instruction::Move(k)), s1.1);
    lemma_fold_run_concat(st, open2, m1, base, scan);
    let s3 = (s2.0.push(Instruction::Add(1i8)), s2.1);
    assert(seq![PLUS].drop_last() =~= Seq::<u8>::empty());
    assert(s2.0.last() is Move);
    assert(fold_run(s2, Seq::<u8>::empty(), base + 2 + m1.len(), scan) == Ok::<FoldState, RunError>(s2));
    assert(fold_step(s2, PLUS, base + 2 + m1.len(), scan) == Ok::<FoldState, RunError>(s3));
    assert(fold_run(s2, seq![PLUS], base + 2 + m1.len(), scan) == Ok::<FoldState, RunError>(s3));
    lemma_fold_run_concat(st, open2 + m1, seq![PLUS], base, scan);
    let m2 = render_move(-k);
    lemma_run_move(s3, -k, base + 3 + m1.len(), scan);
    let s4 = (s3.0.push(Instruction::Move((-k) as i32)), s3.1);
    lemma_fold_run_concat(st, open2 + m1 + seq![PLUS], m2, base, scan);
    assert(seq![CLOSE].drop_last() =~= Seq::<u8>::empty());
    let ins5 = s4.0;
    assert(ins5.subrange(0, ins5.len() - 5) =~= ins);
    assert(close_loop(ins5, scan) =~= ins.push(Instruction::AddTo(k)));
    lemma_run_close(s4, base + 3 + m1.len() + m2.len(), scan);
    lemma_fold_run_concat(st, open2 + m1 + seq![PLUS] + m2, seq![CLOSE], base, scan);
    assert(render_one(i) == open2 + m1 + seq![PLUS] + m2 + seq![CLOSE]);
}

proof fn lemma_run_move_until(st: FoldState, k: i32, base: int, scan: bool)
    requires
        k != 0,
        scan,
    ensures
        ({
            let i = Instruction::MoveUntil(k);
            &&& fold_run(st, render_one(i), base, scan) is Ok
            &&& fold_run(st, render_one(i), base, scan)->Ok_0.0 == st.0.push(i)
            &&& fold_run(st, render_one(i), base, scan)->Ok_0.1.len() == st.1.len()
        }),
{
    let (ins, opens) = st;
    let s1 = (ins.push(Instruction::JumpRight), opens.push(base));
    lemma_run_open(st, base, scan);
    let m1 = render_move(k as int);
    lemma_run_move(s1, k as int, base + 1, scan);
    lemma_fold_run_concat(st, seq![OPEN], m1, base, scan);
    let s2 = (s1.0.push(Instruction::Move(k)), s1.1);
    assert(s2.0.subrange(0, s2.0.len() - 2) =~= ins);
    assert(close_loop(s2.0, scan) =~= ins.push(Instruction::MoveUntil(k)));
    lemma_run_close(s2, base + 1 + m1.len(), scan);
    lemma_fold_run_concat(st, seq![OPEN] + m1, seq![CLOSE], base, scan);
}

proof fn lemma_run_one(st: FoldState, i: Instruction, base: int, scan: bool)
    requires
        refolds_after(st.0, i, scan),
        i is JumpLeft ==> st.1.len() > 0,
    ensures
        fold_run(st, render_one(i), base, scan) is Ok,
        fold_run(st, render_one(i), base, scan)->Ok_0.0 == st.0.push(i),
        fold_run(st, render_one(i), base, scan)->Ok_0.1.len() == st.1.len() + depth_change(i),
{
    match i {
        Instruction::Add(d) => {
            lemma_run_add(st, d, base, scan);
            assert(render_one(i) == render_add(d as int));
        },
        Instruction::Move(k) => lemma_run_move(st, k as int, base, scan),
        Instruction::Clear => lemma_run_clear(st, base, scan),
        Instruction::AddTo(k) => lemma_run_add_to(st, k, base, scan),
        Instruction::MoveUntil(k) => lemma_run_move_until(st, k, base, scan),
        _ => lemma_run_single(st, i, base, scan),
    }
}

/// A stream whose rendering folds back into it: balanced, and each
/// instruction stands where its rendering folds into it alone.
pub open spec fn canonical(ins: Seq<Instruction>, scan: bool) -> bool {
    &&& ins_balanced(ins)
    &&& forall|j: int| 0 <= j < ins.len() ==> refolds_after(ins.subrange(0, j), #[trigger] ins[j], scan)
}

proof fn lemma_render_prefix(ins: Seq<Instruction>, scan: bool, j: nat)
    requires
        canonical(ins, scan),
        j <= ins.len(),
    ensures
        fold_prefix(render(ins.subrange(0, j as int)), render(ins.subrange(0, j as int)).len(), scan) is Ok,
        fold_prefix(render(ins.subrange(0, j as int)), render(ins.subrange(0, j as int)).len(), scan)->Ok_0.0
            == ins.subrange(0, j as int),
        fold_prefix(render(ins.subrange(0, j as int)), render(ins.subrange(0, j as int)).len(), scan)->Ok_0.1.len()
            == ins_depth(ins, j),
    decreases j,
{
    if j == 0 {
        assert(ins.subrange(0, 0) =~= Seq::<Instruction>::empty());
        assert(ins.subrange(0, 0).push(Instruction::Output).drop_last() =~= Seq::<Instruction>::empty());
    } else {
        let j1 = (j - 1) as nat;
        lemma_render_prefix(ins, scan, j1);
        let p = ins.subrange(0, j1 as int);
        let pj = ins.subrange(0, j as int);
        assert(pj.drop_last() =~= p);
        assert(pj.last() == ins[j1 as int]);
        let rp = render(p);
        let r1 = render_one(ins[j1 as int]);
        assert(render(pj) == rp + r1);
        lemma_fold_prefix_concat(rp, r1, scan);
        let st = fold_prefix(rp, rp.len(), scan)->Ok_0;
        if ins[j1 as int] is JumpLeft {
            assert(ins_depth(ins, j) >= 0);
        }
        assert(refolds_after(p, ins[j1 as int], scan));
        lemma_run_one(st, ins[j1 as int], rp.len() as int, scan);
        assert(st.0.push(ins[j1 as int]) =~= pj);
    }
}

/// The canonical rendering of a canonical stream folds back into the same stream.
pub proof fn canonical_refolds(ins: Seq<Instruction>, scan: bool)
    requires
        canonical(ins, scan),
    ensures
        fold_spec(render(ins), scan) == Ok::<Seq<Instruction>, RunError>(ins),
{
    lemma_render_prefix(ins, scan, ins.len());
    assert(ins.subrange(0, ins.len() as int) =~= ins);
}

/// `refolds_after` without the demand that deltas and displacements be nonzero.
spec fn placed_after(prev: Seq<Instruction>, i: Instruction, scan: bool) -> bool {
    match i {
        Instruction::Add(_) => prev.len() == 0 || !(prev.last() is Add),
        Instruction::Move(_) => prev.len() == 0 || !(prev.last() is Move),
        _ => refolds_after(prev, i, scan),
    }
}

spec fn fold_shape(ins: Seq<Instruction>, n: nat, scan: bool) -> bool {
    &&& forall|j: int| 0 <= j < ins.len() ==> placed_after(ins.subrange(0, j), #[trigger] ins[j], scan)
    &&& forall|j: int|
        0 <= j < ins.len() && #[trigger] ins[j] is Move ==> -(n as int) <= ins[j]->Move_0 <= n
}

proof fn lemma_shape_keep(ins: Seq<Instruction>, ins2: Seq<Instruction>, c: int, n: nat, n2: nat, scan: bool)
    requires
        fold_shape(ins, n, scan),
        n <= n2,
        0 <= c <= ins.len(),
        c <= ins2.len(),
        ins2.subrange(0, c) == ins.subrange(0, c),
    ensures
        forall|j: int| 0 <= j < c ==> placed_after(ins2.subrange(0, j), #[trigger] ins2[j], scan),
        forall|j: int|
            0 <= j < c && #[trigger] ins2[j] is Move ==> -(n2 as int) <= ins2[j]->Move_0 <= n2,
{
    assert forall|j: int| 0 <= j < c implies placed_after(ins2.subrange(0, j), #[trigger] ins2[j], scan) by {
        assert(ins2.subrange(0, j) =~= ins2.subrange(0, c).subrange(0, j));
        assert(ins.subrange(0, j) =~= ins.subrange(0, c).subrange(0, j));
        assert(ins2[j] == ins2.subrange(0, c)[j]);
        assert(ins[j] == ins.subrange(0, c)[j]);
    }
    assert forall|j: int| 0 <= j < c && #[trigger] ins2[j] is Move implies -(n2 as int) <= ins2[j]->Move_0
        <= n2 by {
        assert(ins2[j] == ins2.subrange(0, c)[j]);
        assert(ins[j] == ins.subrange(0, c)[j]);
    }
}

proof fn lemma_fold_shape(src: Seq<u8>, n: nat, scan: bool)
    requires
        n <= src.len(),
        src.len() <= i32::MAX,
    ensures
        fold_prefix(src, n, scan) matches Ok(st) ==> fold_shape(st.0, n, scan),
    decreases n,
{
    if n == 0 {
        return;
    }
    let n1 = (n - 1) as nat;
    lemma_fold_shape(src, n1, scan);
    if let Ok(st) = fold_prefix(src, n1, scan) {
        let (ins, opens) = st;
        let len = ins.len();
        let b = src[n1 as int];
        assert(fold_prefix(src, n, scan) == fold_step(st, b, n1 as int, scan));
        if let Ok(st2) = fold_step(st, b, n1 as int, scan) {
            let ins2 = st2.0;
            let updated = ((b == PLUS || b == MINUS) && len > 0 && ins[len - 1] is Add) || ((b == RIGHT
                || b == LEFT) && len > 0 && (ins[len - 1] matches Instruction::Move(x) && i32::MIN <= x + (if b
                == RIGHT {
                1int
            } else {
                -1int
            }) <= i32::MAX));
            let pushed = !updated && (b == PLUS || b == MINUS || b == RIGHT || b == LEFT || b == DOT || b
                == COMMA || b == OPEN);
            if updated {
                assert(ins2.len() == len);
                assert(ins2.subrange(0, len - 1) =~= ins.subrange(0, len - 1));
                lemma_shape_keep(ins, ins2, len - 1, n1, n, scan);
                assert(placed_after(ins.subrange(0, len - 1), ins[len - 1], scan));
                if ins[len - 1] is Move {
                    assert(-(n1 as int) <= ins[len - 1]->Move_0 <= n1);
                }
                assert(placed_after(ins2.subrange(0, len - 1), ins2[len - 1], scan));
                assert(fold_shape(ins2, n, scan));
            } else if pushed {
                assert(ins2 =~= ins.push(ins2[len as int]));
                assert(ins2.subrange(0, len as int) =~= ins);
                assert(ins.subrange(0, len as int) =~= ins);
                lemma_shape_keep(ins, ins2, len as int, n1, n, scan);
                if len > 0 && ins[len - 1] is Move && (b == RIGHT || b == LEFT) {
                    assert(-(n1 as int) <= ins[len - 1]->Move_0 <= n1);
                }
                assert(placed_after(ins2.subrange(0, len as int), ins2[len as int], scan));
                assert(fold_shape(ins2, n, scan));
            } else if b == CLOSE {
                let c: int = if len >= 2 && ins[len - 2] == Instruction::JumpRight && (ins[len - 1] matches Instruction::Add(k)
                    && k % 2 != 0) {
                    len - 2
                } else if len >= 5 && ins[len - 5] == Instruction::JumpRight && ins[len - 4] == Instruction::Add(-1i8)
                    && ins[len - 2] == Instruction::Add(1i8) && (ins[len - 3] matches Instruction::Move(x)
                    && ins[len - 1] matches Instruction::Move(y) && x == -y && x != 0) {
                    len - 5
                } else if scan && len >= 2 && ins[len - 2] == Instruction::JumpRight && (ins[len
                    - 1] matches Instruction::Move(k) && k != 0) {
                    len - 2
                } else {
                    len as int
                };
                assert(ins2 =~= ins.subrange(0, c).push(ins2[c]));
                assert(ins2.subrange(0, c) =~= ins.subrange(0, c));
                lemma_shape_keep(ins, ins2, c, n1, n, scan);
                assert(ins.subrange(0, len as int) =~= ins);
                assert(placed_after(ins2.subrange(0, c), ins2[c], scan));
                assert(fold_shape(ins2, n, scan));
            } else {
                assert(ins2 == ins);
                lemma_shape_keep(ins, ins2, len as int, n1, n, scan);
                assert(ins.subrange(0, len as int) =~= ins);
            }
        }
    }
}

/// The folder's output, rendered back to canonical source text, folds into
/// the same instruction stream. Left out: an `Add(0)` or `Move(0)` (from
/// `+-` or `><`), whose rendering is empty, and sources of 2^31 bytes or
/// more, where a displacement can exceed `i32` and is split in two.
pub proof fn refold_is_identity(src: Seq<u8>, scan: bool)
    requires
        src.len() <= i32::MAX,
        fold_spec(src, scan) is Ok,
        forall|j: int|
            0 <= j < fold_spec(src, scan)->Ok_0.len() ==> #[trigger] fold_spec(src, scan)->Ok_0[j]
                != Instruction::Add(0i8) && fold_spec(src, scan)->Ok_0[j] != Instruction::Move(0i32),
    ensures
        fold_spec(render(fold_spec(src, scan)->Ok_0), scan) == fold_spec(src, scan),
{
    let ins = fold_spec(src, scan)->Ok_0;
    crate::balance::fold_accepts_balanced(src, scan);
    lemma_fold_shape(src, src.len(), scan);
    assert forall|j: int| 0 <= j < ins.len() implies refolds_after(ins.subrange(0, j), #[trigger] ins[j], scan) by {
        assert(placed_after(ins.subrange(0, j), ins[j], scan));
    }
    canonical_refolds(ins, scan);
}

} // verus!
