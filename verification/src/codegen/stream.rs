//! The instruction stream that an operation tree stands for.
//!
//! The stream is the mathematical model of what a target emits: a sequence of
//! instruction records, produced front to back and never changed afterwards.
//! A target turns each record into text of its own.

use crate::lexer::Token;
use crate::parser::{flatten, flatten_op, Op};
use vstd::prelude::*;

verus! {

/// One record of the instruction stream.
pub enum Instr {
    /// Add the magnitude to the current cell. A cell holds eight bits and
    /// wraps around, so the update comes to as many single steps.
    AddCell(nat),
    /// Subtract the magnitude from the current cell, with the same
    /// wrap-around.
    SubCell(nat),
    /// Move the tape pointer right by the magnitude.
    AddPtr(nat),
    /// Move the tape pointer left by the magnitude.
    SubPtr(nat),
    /// Compare the tape pointer with both ends of the tape, and leave for the
    /// out-of-bounds handler when it is outside.
    CheckBounds,
    /// Read one byte into the current cell. A read that fails or meets the
    /// end of input leaves the cell as it is, with no signal to the program.
    ReadByte,
    /// Write the current cell as one byte.
    WriteByte,
    /// The head of the loop with this identifier: its start label, and the
    /// jump to its end label when the current cell is zero.
    LoopStart(nat),
    /// The foot of the loop with this identifier: the jump back to its start
    /// label, and its end label.
    LoopEnd(nat),
}

/// Whether consecutive occurrences of `op` are merged into one instruction.
pub open spec fn coalesces(op: Op) -> bool {
    op is Increment || op is Decrement || op is MoveLeft || op is MoveRight
}

/// The length of the run that `ops` starts with: the number of nodes at its
/// front that equal the first one.
pub open spec fn run_length(ops: Seq<Op>) -> nat
    decreases ops.len(),
{
    if ops.len() == 0 {
        0
    } else if ops.len() >= 2 && ops[1] == ops[0] {
        1 + run_length(ops.drop_first())
    } else {
        1
    }
}

/// What a run of `k` nodes `op` is emitted as: one update of magnitude `k`,
/// followed by one bounds check where the update moves the pointer.
pub open spec fn run_instrs(op: Op, k: nat) -> Seq<Instr> {
    match op {
        Op::Increment => seq![Instr::AddCell(k)],
        Op::Decrement => seq![Instr::SubCell(k)],
        Op::MoveRight => seq![Instr::AddPtr(k), Instr::CheckBounds],
        Op::MoveLeft => seq![Instr::SubPtr(k), Instr::CheckBounds],
        _ => Seq::empty(),
    }
}

/// The number of loop nodes in a tree, at any depth.
pub open spec fn loop_count(ops: Seq<Op>) -> nat
    decreases ops,
{
    if ops.len() == 0 {
        0
    } else {
        loop_count_op(ops.first()) + loop_count(ops.drop_first())
    }
}

/// The number of loop nodes in one node, itself included.
pub open spec fn loop_count_op(op: Op) -> nat
    decreases op,
{
    match op {
        Op::Loop(body) => 1 + loop_count(body),
        _ => 0,
    }
}

/// Whether a tree holds a read node, at any depth.
pub open spec fn has_read(ops: Seq<Op>) -> bool
    decreases ops,
{
    if ops.len() == 0 {
        false
    } else {
        op_has_read(ops.first()) || has_read(ops.drop_first())
    }
}

/// Whether one node is a read node or holds one.
pub open spec fn op_has_read(op: Op) -> bool
    decreases op,
{
    match op {
        Op::Read => true,
        Op::Loop(body) => has_read(body),
        _ => false,
    }
}

/// A sequence that is not empty starts with a run of at least one node, and
/// the run is no longer than the sequence.
pub proof fn lemma_run_length_bounds(ops: Seq<Op>)
    requires
        ops.len() > 0,
    ensures
        1 <= run_length(ops) <= ops.len(),
    decreases ops.len(),
{
    if ops.len() >= 2 && ops[1] == ops[0] {
        lemma_run_length_bounds(ops.drop_first());
    }
}

/// The run at the front of `ops` has length `k` when the first `k` nodes are
/// equal and the node after them, if there is one, differs.
pub proof fn lemma_run_length_is(ops: Seq<Op>, k: nat)
    requires
        1 <= k <= ops.len(),
        forall|j: int| 0 <= j < k ==> #[trigger] ops[j] == ops[0],
        k == ops.len() || ops[k as int] != ops[0],
    ensures
        run_length(ops) == k,
    decreases k,
{
    if k > 1 {
        let rest = ops.drop_first();
        assert(rest[0] == ops[1]);
        assert forall|j: int| 0 <= j < k - 1 implies #[trigger] rest[j] == rest[0] by {
            assert(rest[j] == ops[j + 1]);
        }
        if k < ops.len() {
            assert(rest[k - 1] == ops[k as int]);
        }
        lemma_run_length_is(rest, (k - 1) as nat);
    }
}

/// The nodes of the run at the front of `ops` are all equal, and the run is
/// maximal: the node after it, if there is one, differs.
pub proof fn lemma_run_uniform(ops: Seq<Op>)
    requires
        ops.len() > 0,
    ensures
        forall|j: int| 0 <= j < run_length(ops) ==> #[trigger] ops[j] == ops[0],
        run_length(ops) == ops.len() || ops[run_length(ops) as int] != ops[0],
    decreases ops.len(),
{
    lemma_run_length_bounds(ops);
    if ops.len() >= 2 && ops[1] == ops[0] {
        let rest = ops.drop_first();
        lemma_run_uniform(rest);
        assert forall|j: int| 0 <= j < run_length(ops) implies #[trigger] ops[j] == ops[0] by {
            if j > 0 {
                assert(ops[j] == rest[j - 1]);
            }
        }
        if run_length(ops) < ops.len() {
            assert(ops[run_length(ops) as int] == rest[run_length(rest) as int]);
        }
    }
}

/// Nodes that are no loops and hold none do not count.
pub proof fn lemma_loop_count_skip(ops: Seq<Op>, k: nat)
    requires
        k <= ops.len(),
        forall|j: int| 0 <= j < k ==> !(#[trigger] ops[j] is Loop),
    ensures
        loop_count(ops.skip(k as int)) == loop_count(ops),
    decreases k,
{
    if k == 0 {
        assert(ops.skip(0) =~= ops);
    } else {
        let rest = ops.drop_first();
        assert(!(ops[0] is Loop));
        assert forall|j: int| 0 <= j < k - 1 implies !(#[trigger] rest[j] is Loop) by {
            assert(rest[j] == ops[j + 1]);
        }
        lemma_loop_count_skip(rest, (k - 1) as nat);
        assert(rest.skip(k - 1) =~= ops.skip(k as int));
        assert(loop_count_op(ops.first()) == 0);
        assert(loop_count(ops) == loop_count_op(ops.first()) + loop_count(rest));
    }
}

/// The stream of a tree, where `next_id` is the identifier that the first
/// loop gets.
///
/// A maximal run of `k` identical cell or pointer updates becomes one update
/// of magnitude `k`; each pointer update is followed by one bounds check. A
/// loop becomes its head, the stream of its body and its foot. Identifiers
/// are handed out in the order in which the heads are emitted, so a loop has
/// a lower identifier than the loops inside it and the loops after it.
pub open spec fn emit(ops: Seq<Op>, next_id: nat) -> Seq<Instr>
    decreases ops,
{
    if ops.len() == 0 {
        Seq::empty()
    } else {
        match ops.first() {
            Op::Loop(body) => seq![Instr::LoopStart(next_id)] + emit(body, next_id + 1)
                + seq![Instr::LoopEnd(next_id)] + emit(
                ops.drop_first(),
                next_id + 1 + loop_count(body),
            ),
            Op::Read => seq![Instr::ReadByte] + emit(ops.drop_first(), next_id),
            Op::Write => seq![Instr::WriteByte] + emit(ops.drop_first(), next_id),
            op => {
                proof {
                    lemma_run_length_bounds(ops);
                }
                run_instrs(op, run_length(ops)) + emit(ops.skip(run_length(ops) as int), next_id)
            },
        }
    }
}

/// A tree that starts with exactly `k` nodes `op`, where `op` is a cell or
/// pointer update, is emitted as the single update of magnitude `k` for that
/// run, with its one bounds check where the pointer moves, and then the
/// stream of what follows the run.
pub proof fn lemma_emit_run(op: Op, k: nat, rest: Seq<Op>, next_id: nat)
    requires
        coalesces(op),
        k >= 1,
        rest.len() > 0 ==> rest[0] != op,
    ensures
        emit(Seq::new(k, |i: int| op) + rest, next_id) == run_instrs(op, k) + emit(rest, next_id),
{
    let ops = Seq::new(k, |i: int| op) + rest;
    lemma_run_length_is(ops, k);
    assert(ops.first() == op);
    assert(ops.skip(k as int) =~= rest);
}

/// A run of `k` increments, whatever `k`, is emitted as exactly one cell
/// update of magnitude `k`, with no bounds check. A run of `k` moves to the
/// right is emitted as exactly one pointer update of magnitude `k`, followed
/// by exactly one bounds check.
pub proof fn lemma_run_coalesced(k: nat, next_id: nat)
    requires
        k >= 1,
    ensures
        emit(Seq::new(k, |i: int| Op::Increment), next_id) == seq![Instr::AddCell(k)],
        emit(Seq::new(k, |i: int| Op::MoveRight), next_id) == seq![
            Instr::AddPtr(k),
            Instr::CheckBounds,
        ],
{
    let none = Seq::<Op>::empty();
    lemma_emit_run(Op::Increment, k, none, next_id);
    lemma_emit_run(Op::MoveRight, k, none, next_id);
    assert(Seq::new(k, |i: int| Op::Increment) + none =~= Seq::new(k, |i: int| Op::Increment));
    assert(Seq::new(k, |i: int| Op::MoveRight) + none =~= Seq::new(k, |i: int| Op::MoveRight));
    assert(emit(none, next_id) =~= Seq::<Instr>::empty());
    assert(run_instrs(Op::Increment, k) + Seq::<Instr>::empty() =~= seq![Instr::AddCell(k)]);
    assert(run_instrs(Op::MoveRight, k) + Seq::<Instr>::empty() =~= seq![
        Instr::AddPtr(k),
        Instr::CheckBounds,
    ]);
}

/// The identifiers of the loop heads of a stream, in the order in which the
/// heads appear.
pub open spec fn loop_ids(instrs: Seq<Instr>) -> Seq<nat>
    decreases instrs.len(),
{
    if instrs.len() == 0 {
        Seq::empty()
    } else {
        match instrs.first() {
            Instr::LoopStart(id) => seq![id] + loop_ids(instrs.drop_first()),
            _ => loop_ids(instrs.drop_first()),
        }
    }
}

/// The loop heads of a stream in two parts are those of the first part
/// followed by those of the second.
pub proof fn lemma_loop_ids_concat(a: Seq<Instr>, b: Seq<Instr>)
    ensures
        loop_ids(a + b) == loop_ids(a) + loop_ids(b),
    decreases a.len(),
{
    if a.len() == 0 {
        assert(a + b =~= b);
    } else {
        lemma_loop_ids_concat(a.drop_first(), b);
        assert((a + b).drop_first() =~= a.drop_first() + b);
        assert(loop_ids(a + b) =~= loop_ids(a) + loop_ids(b));
    }
}

/// Loops get their identifiers in pre-order: the loop heads of the stream of
/// a tree carry the identifiers `next_id`, `next_id + 1`, and so on, one for
/// each loop of the tree, in the order in which the heads are emitted. So a
/// loop has a lower identifier than every loop inside it and every loop
/// after it.
pub proof fn lemma_loop_ids_preorder(ops: Seq<Op>, next_id: nat)
    ensures
        loop_ids(emit(ops, next_id)) == Seq::new(loop_count(ops), |i: int| (next_id + i) as nat),
    decreases ops,
{
    let want = Seq::new(loop_count(ops), |i: int| (next_id + i) as nat);
    if ops.len() == 0 {
        assert(loop_ids(emit(ops, next_id)) =~= want);
    } else {
        let rest = ops.drop_first();
        assert(loop_count(ops) == loop_count_op(ops.first()) + loop_count(rest));
        match ops.first() {
            Op::Loop(body) => {
                let head = seq![Instr::LoopStart(next_id)];
                let foot = seq![Instr::LoopEnd(next_id)];
                let inner = emit(body, next_id + 1);
                let after = emit(rest, next_id + 1 + loop_count(body));
                lemma_loop_ids_preorder(body, next_id + 1);
                lemma_loop_ids_preorder(rest, next_id + 1 + loop_count(body));
                lemma_loop_ids_concat(head + inner + foot, after);
                lemma_loop_ids_concat(head + inner, foot);
                lemma_loop_ids_concat(head, inner);
                assert(head.drop_first() =~= Seq::<Instr>::empty());
                assert(foot.drop_first() =~= Seq::<Instr>::empty());
                assert(loop_ids(Seq::<Instr>::empty()) =~= Seq::<nat>::empty());
                assert(loop_ids(head) =~= seq![next_id]);
                assert(loop_ids(foot) =~= Seq::<nat>::empty());
                assert(loop_ids(emit(ops, next_id)) =~= want);
            },
            Op::Read => {
                let one = seq![Instr::ReadByte];
                lemma_loop_ids_preorder(rest, next_id);
                lemma_loop_ids_concat(one, emit(rest, next_id));
                assert(one.drop_first() =~= Seq::<Instr>::empty());
                assert(loop_ids(Seq::<Instr>::empty()) =~= Seq::<nat>::empty());
                assert(loop_ids(emit(ops, next_id)) =~= want);
            },
            Op::Write => {
                let one = seq![Instr::WriteByte];
                lemma_loop_ids_preorder(rest, next_id);
                lemma_loop_ids_concat(one, emit(rest, next_id));
                assert(one.drop_first() =~= Seq::<Instr>::empty());
                assert(loop_ids(Seq::<Instr>::empty()) =~= Seq::<nat>::empty());
                assert(loop_ids(emit(ops, next_id)) =~= want);
            },
            op => {
                let k = run_length(ops);
                let run = run_instrs(op, k);
                lemma_run_length_bounds(ops);
                lemma_run_uniform(ops);
                lemma_loop_count_skip(ops, k);
                lemma_loop_ids_preorder(ops.skip(k as int), next_id);
                lemma_loop_ids_concat(run, emit(ops.skip(k as int), next_id));
                assert(loop_ids(Seq::<Instr>::empty()) =~= Seq::<nat>::empty());
                assert(run.drop_first().len() <= 1);
                assert(run.len() == 2 ==> run.drop_first().drop_first() =~= Seq::<Instr>::empty());
                assert(run.len() == 1 ==> run.drop_first() =~= Seq::<Instr>::empty());
                assert(loop_ids(run.drop_first()) =~= Seq::<nat>::empty());
                assert(loop_ids(run) =~= Seq::<nat>::empty());
                assert(loop_ids(emit(ops, next_id)) =~= want);
            },
        }
    }
}

/// Whether `instr` moves the tape pointer.
pub open spec fn is_move(instr: Instr) -> bool {
    instr is AddPtr || instr is SubPtr
}

/// Whether the bounds checks of a stream are those of its moves: every move
/// of the tape pointer is followed at once by a bounds check, and every
/// bounds check follows a move at once.
pub open spec fn moves_checked(instrs: Seq<Instr>) -> bool {
    &&& forall|i: int|
        0 <= i < instrs.len() && is_move(#[trigger] instrs[i]) ==> i + 1 < instrs.len()
            && instrs[i + 1] is CheckBounds
    &&& forall|i: int|
        0 <= i < instrs.len() && #[trigger] instrs[i] is CheckBounds ==> i > 0 && is_move(
            instrs[i - 1],
        )
}

/// In the stream of a tree, every move of the tape pointer is followed at
/// once by a bounds check, and there is no other bounds check: one check for
/// each run of moves, whatever the length of the run.
pub proof fn lemma_moves_checked(ops: Seq<Op>, next_id: nat)
    ensures
        moves_checked(emit(ops, next_id)),
    decreases ops,
{
    if ops.len() > 0 {
        let rest = ops.drop_first();
        match ops.first() {
            Op::Loop(body) => {
                lemma_moves_checked(body, next_id + 1);
                lemma_moves_checked(rest, next_id + 1 + loop_count(body));
                let head = seq![Instr::LoopStart(next_id)];
                let foot = seq![Instr::LoopEnd(next_id)];
                let inner = emit(body, next_id + 1);
                let after = emit(rest, next_id + 1 + loop_count(body));
                lemma_moves_checked_concat(head, inner);
                lemma_moves_checked_concat(head + inner, foot);
                lemma_moves_checked_concat(head + inner + foot, after);
            },
            Op::Read => {
                lemma_moves_checked(rest, next_id);
                lemma_moves_checked_concat(seq![Instr::ReadByte], emit(rest, next_id));
            },
            Op::Write => {
                lemma_moves_checked(rest, next_id);
                lemma_moves_checked_concat(seq![Instr::WriteByte], emit(rest, next_id));
            },
            op => {
                let k = run_length(ops);
                lemma_run_length_bounds(ops);
                lemma_moves_checked(ops.skip(k as int), next_id);
                lemma_moves_checked_concat(run_instrs(op, k), emit(ops.skip(k as int), next_id));
            },
        }
    }
}

/// Two streams whose bounds checks are those of their moves give, one after
/// the other, such a stream.
pub proof fn lemma_moves_checked_concat(a: Seq<Instr>, b: Seq<Instr>)
    requires
        moves_checked(a),
        moves_checked(b),
    ensures
        moves_checked(a + b),
{
    let both = a + b;
    assert forall|i: int| 0 <= i < both.len() && is_move(#[trigger] both[i]) implies i + 1
        < both.len() && both[i + 1] is CheckBounds by {
        if i < a.len() {
            assert(both[i] == a[i]);
            assert(both[i + 1] == a[i + 1]);
        } else {
            assert(both[i] == b[i - a.len()]);
            assert(both[i + 1] == b[i - a.len() + 1]);
        }
    }
    assert forall|i: int| 0 <= i < both.len() && #[trigger] both[i] is CheckBounds implies i > 0
        && is_move(both[i - 1]) by {
        if i < a.len() {
            assert(both[i] == a[i]);
            assert(both[i - 1] == a[i - 1]);
        } else {
            assert(both[i] == b[i - a.len()]);
            assert(both[i - 1] == b[i - a.len() - 1]);
        }
    }
}

/// A tree holds a read node, at whatever depth, exactly when its tokens hold
/// a read token.
pub proof fn lemma_has_read_iff_token(ops: Seq<Op>)
    ensures
        has_read(ops) <==> flatten(ops).contains(Token::Read),
    decreases ops,
{
    if ops.len() == 0 {
        assert(flatten(ops) =~= Seq::<Token>::empty());
    } else {
        let head = flatten_op(ops.first());
        let tail = flatten(ops.drop_first());
        lemma_op_has_read_iff_token(ops.first());
        lemma_has_read_iff_token(ops.drop_first());
        lemma_contains_concat(head, tail, Token::Read);
    }
}

/// A node is a read node or holds one exactly when its tokens hold a read
/// token.
pub proof fn lemma_op_has_read_iff_token(op: Op)
    ensures
        op_has_read(op) <==> flatten_op(op).contains(Token::Read),
    decreases op,
{
    let tokens = flatten_op(op);
    match op {
        Op::Loop(body) => {
            let open = seq![Token::LoopStart];
            let close = seq![Token::LoopEnd];
            lemma_has_read_iff_token(body);
            lemma_contains_concat(open, flatten(body), Token::Read);
            lemma_contains_concat(open + flatten(body), close, Token::Read);
            assert(!open.contains(Token::Read)) by {
                if open.contains(Token::Read) {
                    let i = choose|i: int| 0 <= i < open.len() && open[i] == Token::Read;
                    assert(open[i] == Token::LoopStart);
                }
            }
            assert(!close.contains(Token::Read)) by {
                if close.contains(Token::Read) {
                    let i = choose|i: int| 0 <= i < close.len() && close[i] == Token::Read;
                    assert(close[i] == Token::LoopEnd);
                }
            }
        },
        Op::Read => {
            assert(tokens[0] == Token::Read);
        },
        _ => {
            if tokens.contains(Token::Read) {
                let i = choose|i: int| 0 <= i < tokens.len() && tokens[i] == Token::Read;
                assert(tokens[i] == tokens[0]);
            }
        },
    }
}

/// A token is in a concatenation exactly when it is in one of the parts.
proof fn lemma_contains_concat(a: Seq<Token>, b: Seq<Token>, token: Token)
    ensures
        (a + b).contains(token) <==> a.contains(token) || b.contains(token),
{
    let both = a + b;
    if a.contains(token) {
        let i = choose|i: int| 0 <= i < a.len() && a[i] == token;
        assert(both[i] == token);
    }
    if b.contains(token) {
        let i = choose|i: int| 0 <= i < b.len() && b[i] == token;
        assert(both[a.len() + i] == token);
    }
    if both.contains(token) {
        let i = choose|i: int| 0 <= i < both.len() && both[i] == token;
        if i < a.len() {
            assert(a[i] == token);
        } else {
            assert(b[i - a.len()] == token);
        }
    }
}

} // verus!
