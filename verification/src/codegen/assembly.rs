//! The x86-64 assembly target.
//!
//! The generated program keeps its tape of 30,000 cells on the stack and the
//! tape pointer in `r12`. It is written in NASM syntax for the macOS system
//! call interface.

use crate::decimal::{decimal, push_decimal};
use super::stream::{
    coalesces, emit, has_read, lemma_loop_count_skip, lemma_run_length_bounds,
    lemma_run_length_is, lemma_run_uniform, loop_count, loop_count_op, op_has_read, run_instrs,
    run_length, Instr,
};
use super::targets::CodegenTarget;
use crate::parser::{lemma_model_index, model, ASTNode, Op};
use std::path::PathBuf;
use vstd::prelude::*;
use vstd::string::StringExecFns;

verus! {

/// `std::path::PathBuf`, which the library only carries from where a target
/// is made to where its output is written. Nothing is claimed of its value.
#[verifier::external_type_specification]
#[verifier::external_body]
pub struct ExPathBuf(PathBuf);

/// `std::path::Path`, which a `PathBuf` dereferences to. Nothing is claimed of
/// its value.
#[verifier::external_type_specification]
#[verifier::external_body]
pub struct ExPath(std::path::Path);

/// The check that follows every move of the tape pointer.
pub open spec fn bounds_check_text() -> Seq<char> {
    "    cmp r12, rsp\n"@ + "    jb bounds_error\n"@ + "    lea rax, [rsp + 30000]\n"@
        + "    cmp r12, rax\n"@ + "    jae bounds_error\n"@
}

/// The system call that writes the current cell to standard output.
pub open spec fn write_text() -> Seq<char> {
    "    mov rax, 0x2000004\n"@ + "    mov rdi, 1\n"@ + "    mov rsi, r12\n"@
        + "    mov rdx, 1\n"@ + "    syscall\n"@
}

/// The system call that reads one byte from standard input into the current
/// cell.
pub open spec fn read_text() -> Seq<char> {
    "    mov rax, 0x2000003\n"@ + "    mov rdi, 0\n"@ + "    mov rsi, r12\n"@
        + "    mov rdx, 1\n"@ + "    syscall\n"@
}

/// The text of one record of the instruction stream.
///
/// An update of magnitude one is written as `inc` or `dec`. A larger
/// magnitude is written out in full, also where it is above 255: the operand
/// is one byte wide, so the update wraps around as the single steps would.
pub open spec fn render(instr: Instr) -> Seq<char> {
    match instr {
        Instr::AddCell(k) => if k == 1 {
            "    inc byte [r12]\n"@
        } else {
            "    add byte [r12], "@ + decimal(k) + "\n"@
        },
        Instr::SubCell(k) => if k == 1 {
            "    dec byte [r12]\n"@
        } else {
            "    sub byte [r12], "@ + decimal(k) + "\n"@
        },
        Instr::AddPtr(k) => "    add r12, "@ + decimal(k) + "\n"@,
        Instr::SubPtr(k) => "    sub r12, "@ + decimal(k) + "\n"@,
        Instr::CheckBounds => bounds_check_text(),
        Instr::ReadByte => read_text(),
        Instr::WriteByte => write_text(),
        Instr::LoopStart(id) => "loop_start_"@ + decimal(id) + ":\n"@ + "    cmp byte [r12], 0\n"@
            + "    je loop_end_"@ + decimal(id) + "\n"@,
        Instr::LoopEnd(id) => "    jmp loop_start_"@ + decimal(id) + "\n"@ + "loop_end_"@
            + decimal(id) + ":\n"@,
    }
}

/// The text of a run of `k` nodes `op`.
spec fn run_text(op: Op, k: nat) -> Seq<char> {
    match op {
        Op::Increment => render(Instr::AddCell(k)),
        Op::Decrement => render(Instr::SubCell(k)),
        Op::MoveRight => render(Instr::AddPtr(k)) + render(Instr::CheckBounds),
        Op::MoveLeft => render(Instr::SubPtr(k)) + render(Instr::CheckBounds),
        _ => Seq::empty(),
    }
}

/// The text of a stream: the texts of its records, in order.
pub open spec fn render_all(instrs: Seq<Instr>) -> Seq<char>
    decreases instrs.len(),
{
    if instrs.len() == 0 {
        Seq::empty()
    } else {
        render(instrs.first()) + render_all(instrs.drop_first())
    }
}

/// The text of a stream in two parts is the text of the first part followed
/// by the text of the second.
pub proof fn lemma_render_all_concat(a: Seq<Instr>, b: Seq<Instr>)
    ensures
        render_all(a + b) == render_all(a) + render_all(b),
    decreases a.len(),
{
    if a.len() == 0 {
        assert(a + b =~= b);
    } else {
        lemma_render_all_concat(a.drop_first(), b);
        assert((a + b).drop_first() =~= a.drop_first() + b);
        assert(render_all(a + b) =~= render_all(a) + render_all(b));
    }
}

fn push_update(out: &mut String, one: &str, many: &str, k: usize)
    ensures
        final(out)@ == old(out)@ + if k == 1 {
            one@
        } else {
            many@ + decimal(k as nat) + "\n"@
        },
{
    if k == 1 {
        out.append(one);
    } else {
        out.append(many);
        push_decimal(out, k);
        out.append("\n");
        assert(out@ =~= old(out)@ + (many@ + decimal(k as nat) + "\n"@));
    }
}

fn push_add_cell(out: &mut String, k: usize)
    ensures
        final(out)@ == old(out)@ + render(Instr::AddCell(k as nat)),
{
    push_update(out, "    inc byte [r12]\n", "    add byte [r12], ", k);
}

fn push_sub_cell(out: &mut String, k: usize)
    ensures
        final(out)@ == old(out)@ + render(Instr::SubCell(k as nat)),
{
    push_update(out, "    dec byte [r12]\n", "    sub byte [r12], ", k);
}

fn push_bounds_check(out: &mut String)
    ensures
        final(out)@ == old(out)@ + render(Instr::CheckBounds),
{
    out.append("    cmp r12, rsp\n");
    out.append("    jb bounds_error\n");
    out.append("    lea rax, [rsp + 30000]\n");
    out.append("    cmp r12, rax\n");
    out.append("    jae bounds_error\n");
    assert(out@ =~= old(out)@ + bounds_check_text());
}

fn push_add_ptr(out: &mut String, k: usize)
    ensures
        final(out)@ == old(out)@ + render(Instr::AddPtr(k as nat)),
{
    out.append("    add r12, ");
    push_decimal(out, k);
    out.append("\n");
    assert(out@ =~= old(out)@ + render(Instr::AddPtr(k as nat)));
}

fn push_sub_ptr(out: &mut String, k: usize)
    ensures
        final(out)@ == old(out)@ + render(Instr::SubPtr(k as nat)),
{
    out.append("    sub r12, ");
    push_decimal(out, k);
    out.append("\n");
    assert(out@ =~= old(out)@ + render(Instr::SubPtr(k as nat)));
}

fn push_write(out: &mut String)
    ensures
        final(out)@ == old(out)@ + render(Instr::WriteByte),
{
    out.append("    mov rax, 0x2000004\n");
    out.append("    mov rdi, 1\n");
    out.append("    mov rsi, r12\n");
    out.append("    mov rdx, 1\n");
    out.append("    syscall\n");
    assert(out@ =~= old(out)@ + write_text());
}

fn push_read(out: &mut String)
    ensures
        final(out)@ == old(out)@ + render(Instr::ReadByte),
{
    out.append("    mov rax, 0x2000003\n");
    out.append("    mov rdi, 0\n");
    out.append("    mov rsi, r12\n");
    out.append("    mov rdx, 1\n");
    out.append("    syscall\n");
    assert(out@ =~= old(out)@ + read_text());
}

fn push_loop_start(out: &mut String, id: usize)
    ensures
        final(out)@ == old(out)@ + render(Instr::LoopStart(id as nat)),
{
    out.append("loop_start_");
    push_decimal(out, id);
    out.append(":\n");
    out.append("    cmp byte [r12], 0\n");
    out.append("    je loop_end_");
    push_decimal(out, id);
    out.append("\n");
    assert(out@ =~= old(out)@ + render(Instr::LoopStart(id as nat)));
}

fn push_loop_end(out: &mut String, id: usize)
    ensures
        final(out)@ == old(out)@ + render(Instr::LoopEnd(id as nat)),
{
    out.append("    jmp loop_start_");
    push_decimal(out, id);
    out.append("\n");
    out.append("loop_end_");
    push_decimal(out, id);
    out.append(":\n");
    assert(out@ =~= old(out)@ + render(Instr::LoopEnd(id as nat)));
}

/// The data section, the entry point, and the set-up of the tape: 30,000
/// cells on the stack, with `r12` at the first of them.
pub open spec fn prologue_text() -> Seq<char> {
    "section .data\n"@ + "read_msg:    db 'Read: '\n"@ + "read_msg_end:\n"@ + "section .text\n"@
        + "global _main\n"@ + "align 16\n"@ + "_main:\n"@ + "    sub rsp, 30000\n"@
        + "    mov r12, rsp\n"@
}

/// The announcement, written once to standard error before the body runs,
/// that the program reads input.
pub open spec fn announce_text() -> Seq<char> {
    "    ; \u{2014} debug: print \"Read: \" once \u{2014}\n"@ + "    mov rax, 0x2000004\n"@
        + "    mov rdi, 2\n"@ + "    lea rsi, [rel read_msg]\n"@
        + "    mov rdx, read_msg_end - read_msg\n"@ + "    syscall\n"@
}

/// The release of the tape and the exit with status 0, followed by the
/// handler for a pointer out of bounds, which exits with status 1, and the
/// handlers for a failed read. Only the bounds checks jump to the first
/// handler. Nothing jumps to the read handlers: a read that fails leaves the
/// cell as the system call left it.
pub open spec fn epilogue_text() -> Seq<char> {
    "    add rsp, 30000\n"@ + "    mov rax, 0x2000001\n"@ + "    xor rdi, rdi\n"@
        + "    syscall\n"@ + "bounds_error:\n"@ + "    mov rax, 0x2000001\n"@
        + "    mov rdi, 1\n"@ + "    syscall\n"@ + "read_error:\n"@ + "    mov byte [r12], 0\n"@
        + "    jmp read_done\n"@ + "read_eof:\n"@ + "    mov byte [r12], 0\n"@ + "read_done:\n"@
}

/// The whole listing of the program that a tree stands for.
pub open spec fn program_text(ops: Seq<Op>) -> Seq<char> {
    prologue_text() + (if has_read(ops) {
        announce_text()
    } else {
        Seq::empty()
    }) + render_all(emit(ops, 0)) + epilogue_text()
}

fn push_prologue(out: &mut String)
    ensures
        final(out)@ == old(out)@ + prologue_text(),
{
    out.append("section .data\n");
    out.append("read_msg:    db 'Read: '\n");
    out.append("read_msg_end:\n");
    out.append("section .text\n");
    out.append("global _main\n");
    out.append("align 16\n");
    out.append("_main:\n");
    out.append("    sub rsp, 30000\n");
    out.append("    mov r12, rsp\n");
    assert(out@ =~= old(out)@ + prologue_text());
}

fn push_announce(out: &mut String)
    ensures
        final(out)@ == old(out)@ + announce_text(),
{
    out.append("    ; \u{2014} debug: print \"Read: \" once \u{2014}\n");
    out.append("    mov rax, 0x2000004\n");
    out.append("    mov rdi, 2\n");
    out.append("    lea rsi, [rel read_msg]\n");
    out.append("    mov rdx, read_msg_end - read_msg\n");
    out.append("    syscall\n");
    assert(out@ =~= old(out)@ + announce_text());
}

fn push_epilogue(out: &mut String)
    ensures
        final(out)@ == old(out)@ + epilogue_text(),
{
    out.append("    add rsp, 30000\n");
    out.append("    mov rax, 0x2000001\n");
    out.append("    xor rdi, rdi\n");
    out.append("    syscall\n");
    out.append("bounds_error:\n");
    out.append("    mov rax, 0x2000001\n");
    out.append("    mov rdi, 1\n");
    out.append("    syscall\n");
    out.append("read_error:\n");
    out.append("    mov byte [r12], 0\n");
    out.append("    jmp read_done\n");
    out.append("read_eof:\n");
    out.append("    mov byte [r12], 0\n");
    out.append("read_done:\n");
    assert(out@ =~= old(out)@ + epilogue_text());
}

/// Whether `other` is the same cell or pointer update as `node`.
fn same_update(node: &ASTNode, other: &ASTNode) -> (same: bool)
    ensures
        same == (coalesces(node@) && node@ == other@),
{
    match node {
        ASTNode::Increment => match other {
            ASTNode::Increment => true,
            _ => false,
        },
        ASTNode::Decrement => match other {
            ASTNode::Decrement => true,
            _ => false,
        },
        ASTNode::MoveLeft => match other {
            ASTNode::MoveLeft => true,
            _ => false,
        },
        ASTNode::MoveRight => match other {
            ASTNode::MoveRight => true,
            _ => false,
        },
        _ => false,
    }
}

/// The length of the run of identical updates that starts at `start`.
fn run_length_at(nodes: &[ASTNode], start: usize) -> (count: usize)
    requires
        start < nodes.len(),
        coalesces(nodes@[start as int]@),
    ensures
        count == run_length(model(nodes@).skip(start as int)),
        1 <= count <= nodes.len() - start,
{
    let ghost ops = model(nodes@);
    proof {
        lemma_model_index(nodes@);
    }
    let mut count: usize = 1;
    while start + count < nodes.len() && same_update(&nodes[start], &nodes[start + count])
        invariant
            1 <= count <= nodes.len() - start,
            ops == model(nodes@),
            ops.len() == nodes.len(),
            coalesces(ops[start as int]),
            forall|i: int| 0 <= i < nodes.len() ==> #[trigger] ops[i] == nodes@[i]@,
            forall|j: int| 0 <= j < count ==> #[trigger] ops[start + j] == ops[start as int],
        decreases nodes.len() - start - count,
    {
        count = count + 1;
    }
    proof {
        let tail = ops.skip(start as int);
        assert forall|j: int| 0 <= j < count implies #[trigger] tail[j] == tail[0] by {
            assert(tail[j] == ops[start + j]);
        }
        if count < tail.len() {
            assert(tail[count as int] == ops[start + count]);
        }
        lemma_run_length_is(tail, count as nat);
    }
    count
}

/// The target that generates x86-64 assembly.
pub struct AsmTarget {
    output_path: PathBuf,
}

impl AsmTarget {
    /// The path that the listing is meant for.
    pub closed spec fn path(&self) -> PathBuf {
        self.output_path
    }

    /// A target whose listing is meant for the file at `output_path`.
    pub fn new(output_path: PathBuf) -> (target: Self)
        ensures
            target.path() == output_path,
    {
        AsmTarget { output_path }
    }

    /// The path that the listing is meant for.
    pub fn output_path(&self) -> (path: &PathBuf)
        ensures
            *path == self.path(),
    {
        &self.output_path
    }

    /// Returns true if any node (even nested in loops) is `Read`.
    pub fn contains_read(nodes: &[ASTNode]) -> (found: bool)
        ensures
            found == has_read(model(nodes@)),
        decreases nodes@,
    {
        let ghost ops = model(nodes@);
        proof {
            lemma_model_index(nodes@);
        }
        let mut i: usize = 0;
        assert(ops.skip(0) =~= ops);
        while i < nodes.len()
            invariant
                i <= nodes.len(),
                ops == model(nodes@),
                ops.len() == nodes.len(),
                forall|j: int| 0 <= j < nodes.len() ==> #[trigger] ops[j] == nodes@[j]@,
                has_read(ops) == has_read(ops.skip(i as int)),
            decreases nodes.len() - i,
        {
            let ghost tail = ops.skip(i as int);
            assert(tail.first() == ops[i as int]);
            assert(tail.drop_first() =~= ops.skip(i + 1));
            let here = match &nodes[i] {
                ASTNode::Read => true,
                ASTNode::Loop(body) => Self::contains_read(body.as_slice()),
                _ => false,
            };
            assert(here == op_has_read(ops[i as int]));
            if here {
                return true;
            }
            i = i + 1;
        }
        assert(ops.skip(i as int).len() == 0);
        false
    }

    /// The number of loops in the tree, at any depth, if a `usize` holds it.
    pub fn count_loops(nodes: &[ASTNode]) -> (count: Option<usize>)
        ensures
            match count {
                Some(n) => n == loop_count(model(nodes@)),
                None => loop_count(model(nodes@)) > usize::MAX,
            },
        decreases nodes@,
    {
        let ghost ops = model(nodes@);
        proof {
            lemma_model_index(nodes@);
        }
        let mut total: usize = 0;
        let mut i: usize = 0;
        assert(ops.skip(0) =~= ops);
        while i < nodes.len()
            invariant
                i <= nodes.len(),
                ops == model(nodes@),
                ops.len() == nodes.len(),
                forall|j: int| 0 <= j < nodes.len() ==> #[trigger] ops[j] == nodes@[j]@,
                total + loop_count(ops.skip(i as int)) == loop_count(ops),
            decreases nodes.len() - i,
        {
            let ghost tail = ops.skip(i as int);
            assert(tail.first() == ops[i as int]);
            assert(tail.drop_first() =~= ops.skip(i + 1));
            assert(loop_count(tail) == loop_count_op(tail.first()) + loop_count(tail.drop_first()));
            match &nodes[i] {
                ASTNode::Loop(body) => {
                    let inner = match Self::count_loops(body.as_slice()) {
                        Some(n) => n,
                        None => {
                            return None;
                        },
                    };
                    if inner >= usize::MAX - total {
                        return None;
                    }
                    total = total + inner + 1;
                },
                _ => {},
            }
            i = i + 1;
        }
        assert(ops.skip(i as int).len() == 0);
        Some(total)
    }

    /// Appends to `out` the text of the stream of `nodes`. The loops get the
    /// identifiers from `loop_counter` on, which is left at the first
    /// identifier not used.
    pub fn generate_nodes(out: &mut String, nodes: &[ASTNode], loop_counter: &mut usize)
        requires
            *old(loop_counter) + loop_count(model(nodes@)) <= usize::MAX,
        ensures
            final(out)@ == old(out)@ + render_all(
                emit(model(nodes@), *old(loop_counter) as nat),
            ),
            *final(loop_counter) == *old(loop_counter) + loop_count(model(nodes@)),
        decreases nodes@,
    {
        let ghost ops = model(nodes@);
        let ghost whole = old(out)@ + render_all(emit(ops, *old(loop_counter) as nat));
        let ghost last_id = *old(loop_counter) + loop_count(ops);
        proof {
            lemma_model_index(nodes@);
        }
        let mut i: usize = 0;
        assert(ops.skip(0) =~= ops);
        while i < nodes.len()
            invariant
                i <= nodes.len(),
                ops == model(nodes@),
                ops.len() == nodes.len(),
                forall|j: int| 0 <= j < nodes.len() ==> #[trigger] ops[j] == nodes@[j]@,
                last_id <= usize::MAX,
                *loop_counter + loop_count(ops.skip(i as int)) == last_id,
                out@ + render_all(emit(ops.skip(i as int), *loop_counter as nat)) == whole,
            decreases nodes.len() - i,
        {
            let ghost tail = ops.skip(i as int);
            let ghost before = out@;
            let ghost id = *loop_counter as nat;
            assert(tail.first() == ops[i as int]);
            assert(tail.drop_first() =~= ops.skip(i + 1));
            assert(loop_count(tail) == loop_count_op(tail.first()) + loop_count(tail.drop_first()));
            match &nodes[i] {
                ASTNode::Increment => {
                    let count = run_length_at(nodes, i);
                    push_add_cell(out, count);
                    proof {
                        lemma_run(ops, i as int, id);
                    }
                    i = i + count;
                },
                ASTNode::Decrement => {
                    let count = run_length_at(nodes, i);
                    push_sub_cell(out, count);
                    proof {
                        lemma_run(ops, i as int, id);
                    }
                    i = i + count;
                },
                ASTNode::MoveRight => {
                    let count = run_length_at(nodes, i);
                    push_add_ptr(out, count);
                    push_bounds_check(out);
                    proof {
                        lemma_run(ops, i as int, id);
                    }
                    i = i + count;
                },
                ASTNode::MoveLeft => {
                    let count = run_length_at(nodes, i);
                    push_sub_ptr(out, count);
                    push_bounds_check(out);
                    proof {
                        lemma_run(ops, i as int, id);
                    }
                    i = i + count;
                },
                ASTNode::Write => {
                    push_write(out);
                    proof {
                        lemma_single(Instr::WriteByte, emit(ops.skip(i + 1), id));
                    }
                    i = i + 1;
                },
                ASTNode::Read => {
                    push_read(out);
                    proof {
                        lemma_single(Instr::ReadByte, emit(ops.skip(i + 1), id));
                    }
                    i = i + 1;
                },
                ASTNode::Loop(body) => {
                    let loop_id = *loop_counter;
                    *loop_counter = *loop_counter + 1;
                    push_loop_start(out, loop_id);
                    Self::generate_nodes(out, body.as_slice(), loop_counter);
                    push_loop_end(out, loop_id);
                    proof {
                        let inner = emit(model(body@), id + 1);
                        let rest = emit(ops.skip(i + 1), id + 1 + loop_count(model(body@)));
                        lemma_render_all_concat(
                            seq![Instr::LoopStart(id)] + inner + seq![Instr::LoopEnd(id)],
                            rest,
                        );
                        lemma_render_all_concat(
                            seq![Instr::LoopStart(id)] + inner,
                            seq![Instr::LoopEnd(id)],
                        );
                        lemma_render_all_concat(seq![Instr::LoopStart(id)], inner);
                        lemma_single(Instr::LoopStart(id), Seq::empty());
                        lemma_single(Instr::LoopEnd(id), Seq::empty());
                        assert(seq![Instr::LoopStart(id)] + Seq::<Instr>::empty() =~= seq![
                            Instr::LoopStart(id),
                        ]);
                        assert(seq![Instr::LoopEnd(id)] + Seq::<Instr>::empty() =~= seq![
                            Instr::LoopEnd(id),
                        ]);
                        assert(out@ + render_all(rest) =~= whole);
                    }
                    i = i + 1;
                },
            }
        }
        assert(ops.skip(i as int).len() == 0);
        assert(out@ =~= whole);
    }
}

/// The stream of a tree from node `i` on, where that node is a cell or
/// pointer update: the instructions of the run that starts there, and the
/// stream of what follows the run.
proof fn lemma_run(ops: Seq<Op>, i: int, id: nat)
    requires
        0 <= i < ops.len(),
        coalesces(ops[i]),
    ensures
        ({
            let tail = ops.skip(i);
            let k = run_length(tail);
            &&& 1 <= k <= ops.len() - i
            &&& loop_count(ops.skip(i + k)) == loop_count(tail)
            &&& render_all(emit(tail, id)) == run_text(ops[i], k) + render_all(
                emit(ops.skip(i + k), id),
            )
        }),
{
    let tail = ops.skip(i);
    let k = run_length(tail);
    let instrs = run_instrs(tail.first(), k);
    lemma_run_length_bounds(tail);
    lemma_run_uniform(tail);
    lemma_loop_count_skip(tail, k);
    assert(tail.skip(k as int) =~= ops.skip(i + k));
    lemma_render_all_concat(instrs, emit(ops.skip(i + k), id));
    lemma_single(instrs.first(), instrs.drop_first());
    assert(instrs =~= seq![instrs.first()] + instrs.drop_first());
    if instrs.len() == 2 {
        lemma_single(instrs[1], Seq::empty());
        assert(instrs.drop_first() =~= seq![instrs[1]] + Seq::<Instr>::empty());
    }
    assert(render_all(Seq::<Instr>::empty()) =~= Seq::<char>::empty());
    assert(render_all(instrs) =~= run_text(ops[i], k));
}

/// The text of a stream that starts with `instr` is the text of `instr`
/// followed by the text of the rest.
proof fn lemma_single(instr: Instr, rest: Seq<Instr>)
    ensures
        render_all(seq![instr] + rest) == render(instr) + render_all(rest),
{
    assert((seq![instr] + rest).drop_first() =~= rest);
}

impl CodegenTarget for AsmTarget {
    /// A tree is within the limits of this target when a `usize` holds the
    /// number of its loops, each of which needs an identifier of its own.
    open spec fn accepts(&self, ops: Seq<Op>) -> bool {
        loop_count(ops) <= usize::MAX
    }

    open spec fn listing(&self, ops: Seq<Op>) -> Seq<char> {
        program_text(ops)
    }

    fn can_generate(&self, ast: &[ASTNode]) -> (ok: bool) {
        Self::count_loops(ast).is_some()
    }

    fn generate(&self, ast: &[ASTNode]) -> (text: String) {
        let mut text = String::new();
        push_prologue(&mut text);
        if Self::contains_read(ast) {
            push_announce(&mut text);
        }
        let mut loop_counter: usize = 0;
        Self::generate_nodes(&mut text, ast, &mut loop_counter);
        push_epilogue(&mut text);
        assert(text@ =~= program_text(model(ast@)));
        text
    }
}

} // verus!
