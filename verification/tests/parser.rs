use bfc::lexer::{tokenize, Token};
use bfc::parser::{add_ast_node, parse, ASTNode, ParseError};

#[test]
fn test_simple_program() {
    // "++[->+<]"
    let tokens = vec![
        Token::Increment,
        Token::Increment,
        Token::LoopStart,
        Token::Decrement,
        Token::MoveRight,
        Token::Increment,
        Token::MoveLeft,
        Token::LoopEnd,
    ];
    let ast = parse(&tokens).unwrap();
    assert_eq!(
        ast,
        vec![
            ASTNode::Increment,
            ASTNode::Increment,
            ASTNode::Loop(vec![
                ASTNode::Decrement,
                ASTNode::MoveRight,
                ASTNode::Increment,
                ASTNode::MoveLeft
            ])
        ]
    );
}

/// The tokens that a tree was built from.
fn flatten(nodes: &[ASTNode]) -> Vec<Token> {
    let mut tokens = Vec::new();
    for node in nodes {
        match node {
            ASTNode::Increment => tokens.push(Token::Increment),
            ASTNode::Decrement => tokens.push(Token::Decrement),
            ASTNode::MoveLeft => tokens.push(Token::MoveLeft),
            ASTNode::MoveRight => tokens.push(Token::MoveRight),
            ASTNode::Read => tokens.push(Token::Read),
            ASTNode::Write => tokens.push(Token::Write),
            ASTNode::Loop(body) => {
                tokens.push(Token::LoopStart);
                tokens.extend(flatten(body));
                tokens.push(Token::LoopEnd);
            }
        }
    }
    tokens
}

#[test]
fn no_tokens_give_an_empty_tree() {
    assert_eq!(parse(&[]), Ok(vec![]));
}

#[test]
fn each_leaf_token_gives_its_node() {
    assert_eq!(
        parse(&[
            Token::Increment,
            Token::Decrement,
            Token::MoveLeft,
            Token::MoveRight,
            Token::Read,
            Token::Write,
        ]),
        Ok(vec![
            ASTNode::Increment,
            ASTNode::Decrement,
            ASTNode::MoveLeft,
            ASTNode::MoveRight,
            ASTNode::Read,
            ASTNode::Write,
        ])
    );
}

#[test]
fn a_loop_with_an_empty_body_is_valid() {
    assert_eq!(parse(&[Token::LoopStart, Token::LoopEnd]), Ok(vec![ASTNode::Loop(vec![])]));
}

#[test]
fn nested_loops_nest_in_the_tree() {
    let tokens = tokenize("+[-[>[<]]+[.],]");
    assert_eq!(
        parse(&tokens),
        Ok(vec![
            ASTNode::Increment,
            ASTNode::Loop(vec![
                ASTNode::Decrement,
                ASTNode::Loop(vec![ASTNode::MoveRight, ASTNode::Loop(vec![ASTNode::MoveLeft])]),
                ASTNode::Increment,
                ASTNode::Loop(vec![ASTNode::Write]),
                ASTNode::Read,
            ]),
        ])
    );
}

#[test]
fn unmatched_close_is_reported_at_its_index() {
    assert_eq!(parse(&[Token::LoopEnd]), Err(ParseError::UnmatchedLoopEnd(0)));
}

#[test]
fn unmatched_open_is_reported_at_its_index() {
    assert_eq!(parse(&[Token::LoopStart]), Err(ParseError::UnmatchedLoopStart(0)));
}

#[test]
fn the_outermost_unmatched_open_is_reported() {
    assert_eq!(
        parse(&[Token::LoopStart, Token::LoopStart, Token::LoopEnd]),
        Err(ParseError::UnmatchedLoopStart(0))
    );
    assert_eq!(
        parse(&[Token::LoopStart, Token::LoopStart]),
        Err(ParseError::UnmatchedLoopStart(0))
    );
    // "+[]-[+[-" : the loop at 1 is closed, the loops at 4 and 6 are not.
    assert_eq!(
        parse(&tokenize("+[]-[+[-")),
        Err(ParseError::UnmatchedLoopStart(4))
    );
    // "+[[]" : the inner loop is closed, the outer one is not.
    assert_eq!(parse(&tokenize("+[[]")), Err(ParseError::UnmatchedLoopStart(1)));
}

#[test]
fn the_first_unmatched_close_is_reported() {
    // "+[]]]" and "+[]][" fail at the first close without an open.
    assert_eq!(parse(&tokenize("+[]]]")), Err(ParseError::UnmatchedLoopEnd(3)));
    assert_eq!(parse(&tokenize("+[]][")), Err(ParseError::UnmatchedLoopEnd(3)));
    assert_eq!(parse(&tokenize("+][")), Err(ParseError::UnmatchedLoopEnd(1)));
}

#[test]
fn an_unmatched_close_wins_over_an_open_that_is_never_closed() {
    // "+[+]+]+[" : the close at 5 is met before the end of input is.
    assert_eq!(parse(&tokenize("+[+]+]+[")), Err(ParseError::UnmatchedLoopEnd(5)));
}

#[test]
fn the_tree_flattens_to_the_tokens() {
    for text in ["", "+", "+[-]", "+[[]]", "+[-[>[<]]+[.],]>>", "+[][][[][]]"] {
        let tokens = tokenize(text);
        let ast = parse(&tokens).unwrap();
        assert_eq!(flatten(&ast), tokens, "{}", text);
    }
}

#[test]
fn parsing_the_tokens_of_a_tree_gives_the_tree_back() {
    let tree = vec![
        ASTNode::Loop(vec![
            ASTNode::Increment,
            ASTNode::Loop(vec![ASTNode::Loop(vec![]), ASTNode::Read]),
            ASTNode::Loop(vec![]),
        ]),
        ASTNode::Write,
        ASTNode::Loop(vec![ASTNode::MoveLeft, ASTNode::MoveRight]),
    ];
    let again = parse(&flatten(&tree)).unwrap();
    assert_eq!(again, tree);
    assert_eq!(parse(&flatten(&again)).unwrap(), tree);
}

#[test]
fn a_node_goes_to_the_top_level_when_no_loop_is_open() {
    let mut ast = vec![ASTNode::Increment];
    let mut stack: Vec<(usize, Vec<ASTNode>)> = Vec::new();
    add_ast_node(&mut ast, &mut stack, ASTNode::Write);
    assert_eq!(ast, vec![ASTNode::Increment, ASTNode::Write]);
    assert!(stack.is_empty());
}

#[test]
fn a_node_goes_to_the_innermost_open_loop() {
    let mut ast = vec![ASTNode::Increment];
    let mut stack = vec![(1, vec![ASTNode::Decrement]), (3, vec![ASTNode::Read])];
    add_ast_node(&mut ast, &mut stack, ASTNode::Loop(vec![ASTNode::Write]));
    assert_eq!(ast, vec![ASTNode::Increment]);
    assert_eq!(
        stack,
        vec![
            (1, vec![ASTNode::Decrement]),
            (3, vec![ASTNode::Read, ASTNode::Loop(vec![ASTNode::Write])]),
        ]
    );
}

#[test]
fn an_error_names_its_kind_and_position() {
    assert_eq!(ParseError::UnmatchedLoopEnd(0).message(), "Unmartched ']' at position '0'");
    assert_eq!(ParseError::UnmatchedLoopStart(7).message(), "Unmartched '[' at position '7'");
    assert_eq!(
        ParseError::UnmatchedLoopEnd(1204).message(),
        "Unmartched ']' at position '1204'"
    );
    assert_eq!(ParseError::UnmatchedLoopEnd(3).position(), 3);
    assert_eq!(ParseError::UnmatchedLoopStart(12).position(), 12);
    let error = parse(&tokenize("++++++++++[")).unwrap_err();
    assert_eq!(error.message(), "Unmartched '[' at position '10'");
}
