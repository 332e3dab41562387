//! # Parser
//!
//! Turns a token sequence into a tree of operations, checking that the loop
//! brackets are balanced.

use crate::decimal::{decimal, push_decimal};
use crate::lexer::Token;
use vstd::prelude::*;
use vstd::string::StringExecFns;

verus! {

/// A single node of the operation tree.
#[derive(Debug, PartialEq)]
pub enum ASTNode {
    /// '+' symbol
    Increment,
    /// '-' symbol
    Decrement,
    /// '<' symbol
    MoveLeft,
    /// '>' symbol
    MoveRight,
    /// ',' symbol
    Read,
    /// '.' symbol
    Write,
    /// Matched '[' and ']' symbols with zero or more nodes in their body
    Loop(Vec<ASTNode>),
}

/// The mathematical value of a node: the same tree, with sequences for the
/// loop bodies. Two nodes are the same operation tree when their values are
/// equal.
pub enum Op {
    Increment,
    Decrement,
    MoveLeft,
    MoveRight,
    Read,
    Write,
    Loop(Seq<Op>),
}

/// The value of one node.
pub open spec fn node_model(node: ASTNode) -> Op
    decreases node,
{
    match node {
        ASTNode::Increment => Op::Increment,
        ASTNode::Decrement => Op::Decrement,
        ASTNode::MoveLeft => Op::MoveLeft,
        ASTNode::MoveRight => Op::MoveRight,
        ASTNode::Read => Op::Read,
        ASTNode::Write => Op::Write,
        ASTNode::Loop(body) => Op::Loop(model(body@)),
    }
}

/// The values of a sequence of nodes, in order.
pub open spec fn model(nodes: Seq<ASTNode>) -> Seq<Op>
    decreases nodes,
{
    if nodes.len() == 0 {
        Seq::empty()
    } else {
        model(nodes.drop_last()).push(node_model(nodes.last()))
    }
}

impl View for ASTNode {
    type V = Op;

    open spec fn view(&self) -> Op {
        node_model(*self)
    }
}

/// The tokens that a tree was built from: a leaf gives its own token, a loop
/// gives its body between an opening and a closing bracket.
pub open spec fn flatten(ops: Seq<Op>) -> Seq<Token>
    decreases ops,
{
    if ops.len() == 0 {
        Seq::empty()
    } else {
        flatten_op(ops.first()) + flatten(ops.drop_first())
    }
}

/// The tokens of one node.
pub open spec fn flatten_op(op: Op) -> Seq<Token>
    decreases op,
{
    match op {
        Op::Increment => seq![Token::Increment],
        Op::Decrement => seq![Token::Decrement],
        Op::MoveLeft => seq![Token::MoveLeft],
        Op::MoveRight => seq![Token::MoveRight],
        Op::Read => seq![Token::Read],
        Op::Write => seq![Token::Write],
        Op::Loop(body) => seq![Token::LoopStart] + flatten(body) + seq![Token::LoopEnd],
    }
}

/// Syntactic error met while parsing. Each kind carries the zero-based index
/// of the offending token.
#[derive(Debug, PartialEq, Eq, Clone, Copy, Structural)]
pub enum ParseError {
    /// Additional ']' without matching loop start symbol
    UnmatchedLoopEnd(usize),
    /// Additional '[' without matching loop end symbol
    UnmatchedLoopStart(usize),
}

impl ParseError {
    /// The index of the offending token.
    pub open spec fn index(self) -> nat {
        match self {
            ParseError::UnmatchedLoopEnd(i) => i as nat,
            ParseError::UnmatchedLoopStart(i) => i as nat,
        }
    }

    /// The message of the error: its kind and the index of the offending
    /// token.
    pub open spec fn message_text(self) -> Seq<char> {
        match self {
            ParseError::UnmatchedLoopEnd(i) => "Unmartched ']' at position '"@ + decimal(i as nat)
                + "'"@,
            ParseError::UnmatchedLoopStart(i) => "Unmartched '[' at position '"@ + decimal(
                i as nat,
            ) + "'"@,
        }
    }

    /// The zero-based index of the offending token.
    pub fn position(&self) -> (i: usize)
        ensures
            i == self.index(),
    {
        match self {
            ParseError::UnmatchedLoopEnd(i) => *i,
            ParseError::UnmatchedLoopStart(i) => *i,
        }
    }

    /// The message of the error, for display.
    pub fn message(&self) -> (text: String)
        ensures
            text@ == self.message_text(),
    {
        let mut text = String::new();
        match self {
            ParseError::UnmatchedLoopEnd(i) => {
                text.append("Unmartched ']' at position '");
                push_decimal(&mut text, *i);
            },
            ParseError::UnmatchedLoopStart(i) => {
                text.append("Unmartched '[' at position '");
                push_decimal(&mut text, *i);
            },
        }
        text.append("'");
        assert(text@ =~= self.message_text());
        text
    }
}

/// What a token adds to the nesting depth.
pub open spec fn delta(token: Token) -> int {
    match token {
        Token::LoopStart => 1,
        Token::LoopEnd => -1,
        _ => 0,
    }
}

/// The nesting depth after the first `n` tokens: the opening brackets among
/// them minus the closing ones.
pub open spec fn depth(tokens: Seq<Token>, n: int) -> int
    decreases n,
{
    if n <= 0 {
        0
    } else {
        depth(tokens, n - 1) + delta(tokens[n - 1])
    }
}

/// No closing bracket among the first `n` tokens lacks its opening bracket.
pub open spec fn closes_matched(tokens: Seq<Token>, n: int) -> bool {
    forall|k: int| 0 <= k <= n ==> depth(tokens, k) >= 0
}

/// Every bracket has its partner.
pub open spec fn balanced(tokens: Seq<Token>) -> bool {
    &&& closes_matched(tokens, tokens.len() as int)
    &&& depth(tokens, tokens.len() as int) == 0
}

/// Token `i` is the first closing bracket that has no opening bracket.
pub open spec fn unmatched_close_at(tokens: Seq<Token>, i: int) -> bool {
    &&& 0 <= i < tokens.len()
    &&& tokens[i] == Token::LoopEnd
    &&& depth(tokens, i) == 0
    &&& closes_matched(tokens, i)
}

/// Every closing bracket has its opening bracket, and token `i` is the
/// outermost opening bracket that is never closed: the earliest one that is
/// still open at the end.
pub open spec fn outermost_unmatched_open_at(tokens: Seq<Token>, i: int) -> bool {
    &&& closes_matched(tokens, tokens.len() as int)
    &&& 0 <= i < tokens.len()
    &&& tokens[i] == Token::LoopStart
    &&& depth(tokens, i) == 0
    &&& forall|k: int| i < k <= tokens.len() ==> depth(tokens, k) >= 1
}

/// The tokens of the loops that are still open: for each entry of the stack,
/// from the bottom up, an opening bracket and the tokens of the body built so
/// far.
spec fn open_loops(stack: Seq<(usize, Vec<ASTNode>)>) -> Seq<Token>
    decreases stack.len(),
{
    if stack.len() == 0 {
        Seq::empty()
    } else {
        open_loops(stack.drop_last()) + seq![Token::LoopStart] + flatten(model(stack.last().1@))
    }
}

/// The tokens consumed so far, as the finished top-level nodes and the open
/// loops account for them.
spec fn consumed(ast: Seq<ASTNode>, stack: Seq<(usize, Vec<ASTNode>)>) -> Seq<Token> {
    flatten(model(ast)) + open_loops(stack)
}

/// The value of a sequence with one more node is the value of the sequence
/// with the value of the node at its end.
pub proof fn lemma_model_push(nodes: Seq<ASTNode>, node: ASTNode)
    ensures
        model(nodes.push(node)) == model(nodes).push(node@),
{
    assert(nodes.push(node).drop_last() =~= nodes);
}

/// The value of a sequence of nodes has the value of each node at the place
/// of that node.
pub proof fn lemma_model_index(nodes: Seq<ASTNode>)
    ensures
        model(nodes).len() == nodes.len(),
        forall|i: int| 0 <= i < nodes.len() ==> #[trigger] model(nodes)[i] == nodes[i]@,
    decreases nodes.len(),
{
    if nodes.len() > 0 {
        lemma_model_index(nodes.drop_last());
    }
}

/// Flattening goes through concatenation.
pub proof fn lemma_flatten_concat(a: Seq<Op>, b: Seq<Op>)
    ensures
        flatten(a + b) == flatten(a) + flatten(b),
    decreases a.len(),
{
    if a.len() == 0 {
        assert(a + b =~= b);
    } else {
        lemma_flatten_concat(a.drop_first(), b);
        assert((a + b).drop_first() =~= a.drop_first() + b);
        assert(flatten(a + b) =~= flatten(a) + flatten(b));
    }
}

/// Flattening a sequence with one more node at its end adds the tokens of
/// that node.
pub proof fn lemma_flatten_push(ops: Seq<Op>, op: Op)
    ensures
        flatten(ops.push(op)) == flatten(ops) + flatten_op(op),
{
    lemma_flatten_concat(ops, seq![op]);
    assert(ops.push(op) =~= ops + seq![op]);
    assert(seq![op].drop_first() =~= Seq::<Op>::empty());
    assert(flatten(Seq::<Op>::empty()) =~= Seq::<Token>::empty());
    assert(flatten(seq![op]) =~= flatten_op(op));
}

/// Adds a node to the tree under construction: to the body of the innermost
/// open loop, or to the top level when no loop is open.
pub fn add_ast_node(ast: &mut Vec<ASTNode>, stack: &mut [(usize, Vec<ASTNode>)], node: ASTNode)
    ensures
        final(stack)@.len() == old(stack)@.len(),
        old(stack)@.len() == 0 ==> final(ast)@ == old(ast)@.push(node),
        old(stack)@.len() > 0 ==> final(ast)@ == old(ast)@,
        forall|k: int| 0 <= k < old(stack)@.len() - 1 ==> final(stack)@[k] == old(stack)@[k],
        old(stack)@.len() > 0 ==> final(stack)@.last().0 == old(stack)@.last().0,
        old(stack)@.len() > 0 ==> final(stack)@.last().1@ == old(stack)@.last().1@.push(node),
{
    if let Some((_, curr)) = stack.last_mut() {
        curr.push(node);
    } else {
        ast.push(node);
    }
}

/// Parses a slice of `Token` values into an operation tree.
pub fn parse(tokens: &[Token]) -> (r: Result<Vec<ASTNode>, ParseError>)
    ensures
        r is Ok <==> balanced(tokens@),
        r matches Ok(ast) ==> flatten(model(ast@)) == tokens@,
        forall|i: int|
            (r matches Err(ParseError::UnmatchedLoopEnd(at)) && at == i)
                <==> #[trigger] unmatched_close_at(tokens@, i),
        forall|i: int|
            (r matches Err(ParseError::UnmatchedLoopStart(at)) && at == i)
                <==> #[trigger] outermost_unmatched_open_at(tokens@, i),
{
    let mut ast: Vec<ASTNode> = Vec::new();
    let mut stack: Vec<(usize, Vec<ASTNode>)> = Vec::new();
    let mut idx: usize = 0;
    while idx < tokens.len()
        invariant
            idx <= tokens.len(),
            consumed(ast@, stack@) == tokens@.take(idx as int),
            depth(tokens@, idx as int) == stack@.len(),
            closes_matched(tokens@, idx as int),
            stack@.len() > 0 ==> {
                &&& stack@[0].0 < idx
                &&& tokens@[stack@[0].0 as int] == Token::LoopStart
                &&& depth(tokens@, stack@[0].0 as int) == 0
                &&& forall|k: int| stack@[0].0 < k <= idx ==> depth(tokens@, k) >= 1
            },
        decreases tokens.len() - idx,
    {
        let ghost ast0 = ast@;
        let ghost stack0 = stack@;
        let token = tokens[idx];
        assert(tokens@.take(idx + 1) =~= tokens@.take(idx as int).push(token));
        match token {
            Token::LoopStart => {
                stack.push((idx, Vec::new()));
                proof {
                    assert(stack@.drop_last() =~= stack0);
                    assert(model(stack@.last().1@) =~= Seq::<Op>::empty());
                    assert(consumed(ast@, stack@) =~= consumed(ast0, stack0).push(token));
                }
            },
            Token::LoopEnd => {
                match stack.pop() {
                    Some((_, loop_body)) => {
                        let ghost stack1 = stack@;
                        let ghost body = loop_body@;
                        assert(stack0.drop_last() =~= stack1);
                        let loop_node = ASTNode::Loop(loop_body);
                        add_ast_node(&mut ast, &mut stack, loop_node);
                        proof {
                            lemma_add_node(ast0, stack1, ast@, stack@, loop_node);
                            assert(flatten_op(loop_node@) =~= seq![Token::LoopStart] + flatten(
                                model(body),
                            ) + seq![Token::LoopEnd]);
                            assert(consumed(ast@, stack@) =~= consumed(ast0, stack0).push(token));
                        }
                    },
                    None => {
                        proof {
                            lemma_outcomes_exclusive(tokens@);
                            assert(unmatched_close_at(tokens@, idx as int));
                        }
                        return Err(ParseError::UnmatchedLoopEnd(idx));
                    },
                }
            },
            Token::Increment => {
                add_ast_node(&mut ast, &mut stack, ASTNode::Increment);
                proof {
                    lemma_add_node(ast0, stack0, ast@, stack@, ASTNode::Increment);
                    assert(consumed(ast@, stack@) =~= consumed(ast0, stack0).push(token));
                }
            },
            Token::Decrement => {
                add_ast_node(&mut ast, &mut stack, ASTNode::Decrement);
                proof {
                    lemma_add_node(ast0, stack0, ast@, stack@, ASTNode::Decrement);
                    assert(consumed(ast@, stack@) =~= consumed(ast0, stack0).push(token));
                }
            },
            Token::MoveLeft => {
                add_ast_node(&mut ast, &mut stack, ASTNode::MoveLeft);
                proof {
                    lemma_add_node(ast0, stack0, ast@, stack@, ASTNode::MoveLeft);
                    assert(consumed(ast@, stack@) =~= consumed(ast0, stack0).push(token));
                }
            },
            Token::MoveRight => {
                add_ast_node(&mut ast, &mut stack, ASTNode::MoveRight);
                proof {
                    lemma_add_node(ast0, stack0, ast@, stack@, ASTNode::MoveRight);
                    assert(consumed(ast@, stack@) =~= consumed(ast0, stack0).push(token));
                }
            },
            Token::Read => {
                add_ast_node(&mut ast, &mut stack, ASTNode::Read);
                proof {
                    lemma_add_node(ast0, stack0, ast@, stack@, ASTNode::Read);
                    assert(consumed(ast@, stack@) =~= consumed(ast0, stack0).push(token));
                }
            },
            Token::Write => {
                add_ast_node(&mut ast, &mut stack, ASTNode::Write);
                proof {
                    lemma_add_node(ast0, stack0, ast@, stack@, ASTNode::Write);
                    assert(consumed(ast@, stack@) =~= consumed(ast0, stack0).push(token));
                }
            },
        }
        idx = idx + 1;
    }
    proof {
        lemma_outcomes_exclusive(tokens@);
    }
    if stack.len() > 0 {
        assert(outermost_unmatched_open_at(tokens@, stack@[0].0 as int));
        return Err(ParseError::UnmatchedLoopStart(stack[0].0));
    }
    assert(balanced(tokens@));
    proof {
        assert(tokens@.take(idx as int) =~= tokens@);
        assert(open_loops(stack@) =~= Seq::<Token>::empty());
        assert(consumed(ast@, stack@) =~= flatten(model(ast@)));
    }
    Ok(ast)
}

/// Adding a node, to the innermost open loop or to the top level, adds its
/// tokens at the end of the tokens consumed.
proof fn lemma_add_node(
    ast0: Seq<ASTNode>,
    stack0: Seq<(usize, Vec<ASTNode>)>,
    ast1: Seq<ASTNode>,
    stack1: Seq<(usize, Vec<ASTNode>)>,
    node: ASTNode,
)
    requires
        stack1.len() == stack0.len(),
        stack0.len() == 0 ==> ast1 == ast0.push(node),
        stack0.len() > 0 ==> ast1 == ast0,
        forall|k: int| 0 <= k < stack0.len() - 1 ==> stack1[k] == stack0[k],
        stack0.len() > 0 ==> stack1.last().0 == stack0.last().0,
        stack0.len() > 0 ==> stack1.last().1@ == stack0.last().1@.push(node),
    ensures
        consumed(ast1, stack1) == consumed(ast0, stack0) + flatten_op(node@),
{
    if stack0.len() == 0 {
        lemma_model_push(ast0, node);
        lemma_flatten_push(model(ast0), node@);
        assert(stack1 =~= stack0);
        assert(consumed(ast1, stack1) =~= consumed(ast0, stack0) + flatten_op(node@));
    } else {
        assert(stack1.drop_last() =~= stack0.drop_last());
        lemma_model_push(stack0.last().1@, node);
        lemma_flatten_push(model(stack0.last().1@), node@);
        assert(consumed(ast1, stack1) =~= consumed(ast0, stack0) + flatten_op(node@));
    }
}

/// The three outcomes of parsing exclude one another, and an error of either
/// kind names one index only. So the tokens decide the outcome.
pub proof fn lemma_outcomes_exclusive(tokens: Seq<Token>)
    ensures
        forall|i: int| !(balanced(tokens) && #[trigger] unmatched_close_at(tokens, i)),
        forall|i: int| !(balanced(tokens) && #[trigger] outermost_unmatched_open_at(tokens, i)),
        forall|i: int, j: int|
            !(#[trigger] unmatched_close_at(tokens, i) && #[trigger] outermost_unmatched_open_at(
                tokens,
                j,
            )),
        forall|i: int, j: int|
            #[trigger] unmatched_close_at(tokens, i) && #[trigger] unmatched_close_at(tokens, j)
                ==> i == j,
        forall|i: int, j: int|
            #[trigger] outermost_unmatched_open_at(tokens, i)
                && #[trigger] outermost_unmatched_open_at(tokens, j) ==> i == j,
{
    assert forall|i: int| #[trigger] unmatched_close_at(tokens, i) implies depth(tokens, i + 1)
        == -1 && !closes_matched(tokens, tokens.len() as int) by {}
    assert forall|i: int, j: int|
        #[trigger] unmatched_close_at(tokens, i) && #[trigger] unmatched_close_at(
            tokens,
            j,
        ) implies i == j by {
        if i < j {
            assert(depth(tokens, i + 1) >= 0);
        }
        if j < i {
            assert(depth(tokens, j + 1) >= 0);
        }
    }
}

/// The depth within the first part of a concatenation is the depth within
/// that part alone; within the second part, the depth at the end of the first
/// part is added to it.
pub proof fn lemma_depth_concat(x: Seq<Token>, y: Seq<Token>, n: int)
    requires
        0 <= n <= x.len() + y.len(),
    ensures
        n <= x.len() ==> depth(x + y, n) == depth(x, n),
        n >= x.len() ==> depth(x + y, n) == depth(x, x.len() as int) + depth(y, n - x.len()),
    decreases n,
{
    if n > 0 {
        lemma_depth_concat(x, y, n - 1);
    }
}

/// Two balanced sequences in a row are balanced.
pub proof fn lemma_balanced_concat(x: Seq<Token>, y: Seq<Token>)
    requires
        balanced(x),
        balanced(y),
    ensures
        balanced(x + y),
{
    assert forall|k: int| 0 <= k <= (x + y).len() implies depth(x + y, k) >= 0 by {
        lemma_depth_concat(x, y, k);
    }
    lemma_depth_concat(x, y, (x + y).len() as int);
}

/// A balanced sequence between an opening and a closing bracket is balanced,
/// and the depth stays above zero from the opening bracket to the closing one.
pub proof fn lemma_balanced_loop(x: Seq<Token>)
    requires
        balanced(x),
    ensures
        balanced(seq![Token::LoopStart] + x + seq![Token::LoopEnd]),
        forall|k: int|
            1 <= k <= x.len() + 1 ==> depth(seq![Token::LoopStart] + x + seq![Token::LoopEnd], k)
                >= 1,
{
    let open = seq![Token::LoopStart];
    let close = seq![Token::LoopEnd];
    let whole = open + x + close;
    assert(depth(open, 0) == 0);
    assert(depth(open, 1) == 1);
    assert(depth(close, 0) == 0);
    assert(depth(close, 1) == -1);
    assert forall|k: int| 1 <= k <= x.len() + 1 implies depth(whole, k) >= 1 by {
        lemma_depth_concat(open, x, k);
        lemma_depth_concat(open + x, close, k);
    }
    lemma_depth_concat(open, x, x.len() as int + 1);
    lemma_depth_concat(open + x, close, whole.len() as int);
    assert(depth(whole, 0) == 0);
}

/// The tokens of a tree are balanced.
pub proof fn lemma_flatten_balanced(ops: Seq<Op>)
    ensures
        balanced(flatten(ops)),
    decreases ops,
{
    if ops.len() == 0 {
        assert(depth(flatten(ops), 0) == 0);
    } else {
        lemma_flatten_op_balanced(ops.first());
        lemma_flatten_balanced(ops.drop_first());
        lemma_balanced_concat(flatten_op(ops.first()), flatten(ops.drop_first()));
    }
}

/// The tokens of one node are balanced, and there is at least one.
pub proof fn lemma_flatten_op_balanced(op: Op)
    ensures
        balanced(flatten_op(op)),
        flatten_op(op).len() >= 1,
    decreases op,
{
    let tokens = flatten_op(op);
    match op {
        Op::Loop(body) => {
            lemma_flatten_balanced(body);
            lemma_balanced_loop(flatten(body));
        },
        _ => {
            assert(tokens.len() == 1);
            assert(depth(tokens, 0) == 0);
            assert(depth(tokens, 1) == 0);
        },
    }
}

/// A balanced sequence followed by a closing bracket ends where the depth
/// first falls below zero. So when two such sequences, each followed by a
/// closing bracket and a rest, are equal as a whole, they are equal part by
/// part.
pub proof fn lemma_split_at_close(
    x1: Seq<Token>,
    rest1: Seq<Token>,
    x2: Seq<Token>,
    rest2: Seq<Token>,
)
    requires
        balanced(x1),
        balanced(x2),
        x1 + seq![Token::LoopEnd] + rest1 == x2 + seq![Token::LoopEnd] + rest2,
    ensures
        x1 == x2,
        rest1 == rest2,
{
    let close = seq![Token::LoopEnd];
    let whole = x1 + close + rest1;
    let n1 = x1.len() as int;
    let n2 = x2.len() as int;
    assert(depth(close, 0) == 0);
    assert(depth(close, 1) == -1);
    // The depth just past the closing bracket of either reading is -1.
    lemma_depth_concat(x1, close, n1 + 1);
    lemma_depth_concat(x1 + close, rest1, n1 + 1);
    lemma_depth_concat(x2, close, n2 + 1);
    lemma_depth_concat(x2 + close, rest2, n2 + 1);
    if n1 < n2 {
        lemma_depth_concat(x2, close, n1 + 1);
        lemma_depth_concat(x2 + close, rest2, n1 + 1);
        assert(false);
    }
    if n2 < n1 {
        lemma_depth_concat(x1, close, n2 + 1);
        lemma_depth_concat(x1 + close, rest1, n2 + 1);
        assert(false);
    }
    assert(x1 =~= whole.take(n1));
    assert(x2 =~= whole.take(n1));
    assert(rest1 =~= whole.skip(n1 + 1));
    assert(rest2 =~= whole.skip(n1 + 1));
}

/// A tree is determined by its tokens: two trees with the same tokens are the
/// same tree. So parsing the tokens of a tree gives that tree back.
pub proof fn lemma_flatten_injective(a: Seq<Op>, b: Seq<Op>)
    requires
        flatten(a) == flatten(b),
    ensures
        a == b,
    decreases a,
{
    if a.len() == 0 {
        if b.len() > 0 {
            lemma_flatten_op_balanced(b.first());
            assert(false);
        }
        assert(a =~= b);
    } else {
        lemma_flatten_op_balanced(a.first());
        if b.len() == 0 {
            assert(false);
        }
        lemma_flatten_op_balanced(b.first());
        let x = a.first();
        let y = b.first();
        let ra = a.drop_first();
        let rb = b.drop_first();
        assert(flatten(a)[0] == flatten_op(x)[0]);
        assert(flatten(b)[0] == flatten_op(y)[0]);
        match x {
            Op::Loop(body_a) => {
                assert(y is Loop);
                let body_b = y->Loop_0;
                let open = seq![Token::LoopStart];
                let close = seq![Token::LoopEnd];
                lemma_flatten_balanced(body_a);
                lemma_flatten_balanced(body_b);
                assert(flatten(a).drop_first() =~= flatten(body_a) + close + flatten(ra));
                assert(flatten(b).drop_first() =~= flatten(body_b) + close + flatten(rb));
                lemma_split_at_close(flatten(body_a), flatten(ra), flatten(body_b), flatten(rb));
                lemma_flatten_injective(body_a, body_b);
                lemma_flatten_injective(ra, rb);
            },
            _ => {
                assert(x == y);
                assert(flatten(ra) =~= flatten(a).drop_first());
                assert(flatten(rb) =~= flatten(b).drop_first());
                lemma_flatten_injective(ra, rb);
            },
        }
        assert(a =~= seq![x] + ra);
        assert(b =~= seq![y] + rb);
    }
}

/// Parsing is idempotent in structure. Where `tree` is the tree of some
/// tokens, the tokens of `tree` are balanced, so they parse; and every tree
/// `again` that the tokens of `tree` parse to is `tree` itself.
pub proof fn lemma_reparse_same_tree(tree: Seq<Op>, again: Seq<Op>)
    requires
        flatten(again) == flatten(tree),
    ensures
        balanced(flatten(tree)),
        again == tree,
{
    lemma_flatten_balanced(tree);
    lemma_flatten_injective(again, tree);
}

} // verus!
