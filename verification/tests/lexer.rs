use bfc::lexer::{classify, tokenize, Token};

#[test]
fn add_two() {
    let program = "+[->+<]";
    assert_eq!(
        vec![
            Token::Increment,
            Token::LoopStart,
            Token::Decrement,
            Token::MoveRight,
            Token::Increment,
            Token::MoveLeft,
            Token::LoopEnd
        ],
        tokenize(program)
    )
}

#[test]
fn non_bf_only() {
    let program = "\
            adipisicing aliqua velit et cupidatat velit consectetur \
            exercitation voluptate voluptate ut id elit voluptate \
            ullamco";
    assert_eq!(Vec::<Token>::new(), tokenize(program))
}

#[test]
fn comment_only() {
    let program = "\
            [ \
            In BF you could write comments within a loop at the start of the\
            program since it will continue immediate since the current cell for\
            the start of the loop is initially 0\
            ]";
    assert_eq!(Vec::<Token>::new(), tokenize(program))
}

#[test]
fn empty_text_has_no_tokens() {
    assert_eq!(Vec::<Token>::new(), tokenize(""));
}

#[test]
fn each_symbol_has_its_token() {
    assert_eq!(classify('+'), Some(Token::Increment));
    assert_eq!(classify('-'), Some(Token::Decrement));
    assert_eq!(classify('<'), Some(Token::MoveLeft));
    assert_eq!(classify('>'), Some(Token::MoveRight));
    assert_eq!(classify(','), Some(Token::Read));
    assert_eq!(classify('.'), Some(Token::Write));
    assert_eq!(classify('['), Some(Token::LoopStart));
    assert_eq!(classify(']'), Some(Token::LoopEnd));
    assert_eq!(classify('x'), None);
    assert_eq!(classify(' '), None);
    assert_eq!(classify('\u{2014}'), None);
}

#[test]
fn all_eight_symbols_in_order() {
    assert_eq!(
        tokenize("+-<>,.x[]"),
        vec![
            Token::Increment,
            Token::Decrement,
            Token::MoveLeft,
            Token::MoveRight,
            Token::Read,
            Token::Write,
            Token::LoopStart,
            Token::LoopEnd,
        ]
    );
}

#[test]
fn two_leading_comments_are_skipped() {
    assert_eq!(tokenize("[ignored][also ignored]+"), vec![Token::Increment]);
}

#[test]
fn add_two_after_two_increments() {
    assert_eq!(
        tokenize("++[->+<]"),
        vec![
            Token::Increment,
            Token::Increment,
            Token::LoopStart,
            Token::Decrement,
            Token::MoveRight,
            Token::Increment,
            Token::MoveLeft,
            Token::LoopEnd,
        ]
    );
}

#[test]
fn other_characters_leave_no_trace() {
    assert_eq!(
        tokenize("a+b c-\n\td."),
        vec![Token::Increment, Token::Decrement, Token::Write]
    );
}

#[test]
fn whitespace_around_leading_comments_is_skipped() {
    assert_eq!(
        tokenize(" \n\t[first] \r\n [second]\n +[-]"),
        vec![Token::Increment, Token::LoopStart, Token::Decrement, Token::LoopEnd]
    );
}

#[test]
fn a_leading_comment_may_hold_symbols_and_nested_brackets() {
    assert_eq!(tokenize("[+-<>,.[nested [deeper]] still a comment]-"), vec![Token::Decrement]);
}

#[test]
fn a_leading_comment_ends_at_its_matching_bracket() {
    assert_eq!(
        tokenize("[a[b]c]]+"),
        vec![Token::LoopEnd, Token::Increment]
    );
}

#[test]
fn brackets_after_the_prelude_are_loop_delimiters() {
    assert_eq!(
        tokenize("+[-]"),
        vec![Token::Increment, Token::LoopStart, Token::Decrement, Token::LoopEnd]
    );
    assert_eq!(
        tokenize("[c]+[c]"),
        vec![Token::Increment, Token::LoopStart, Token::LoopEnd]
    );
}

#[test]
fn any_other_character_ends_the_prelude() {
    assert_eq!(
        tokenize("x[+]"),
        vec![Token::LoopStart, Token::Increment, Token::LoopEnd]
    );
    assert_eq!(
        tokenize(" [c] x [+]"),
        vec![Token::LoopStart, Token::Increment, Token::LoopEnd]
    );
    assert_eq!(tokenize("][+]"), vec![
        Token::LoopEnd,
        Token::LoopStart,
        Token::Increment,
        Token::LoopEnd
    ]);
}

#[test]
fn a_leading_comment_that_is_never_closed_takes_the_rest() {
    assert_eq!(Vec::<Token>::new(), tokenize("[+++"));
    assert_eq!(Vec::<Token>::new(), tokenize("  [[+]+-"));
}

/// The code points that have the Unicode `White_Space` property.
fn has_white_space_property(c: char) -> bool {
    matches!(
        c as u32,
        0x0009..=0x000D
            | 0x0020
            | 0x0085
            | 0x00A0
            | 0x1680
            | 0x2000..=0x200A
            | 0x2028
            | 0x2029
            | 0x202F
            | 0x205F
            | 0x3000
    )
}

#[test]
fn the_prelude_skips_exactly_the_white_space_characters() {
    // Before a comment region, a whitespace character is part of the prelude;
    // any other character ends the prelude and makes the brackets real.
    let mut skipped = 0;
    for code in 0..=0x10FFFFu32 {
        let c = match char::from_u32(code) {
            Some(c) => c,
            None => continue,
        };
        if c == '[' {
            continue;
        }
        let text = format!("{}[x]+", c);
        let tokens = tokenize(&text);
        if has_white_space_property(c) {
            skipped += 1;
            assert_eq!(tokens, vec![Token::Increment], "U+{:04X}", code);
        } else {
            let mut want: Vec<Token> = classify(c).into_iter().collect();
            want.extend([Token::LoopStart, Token::LoopEnd, Token::Increment]);
            assert_eq!(tokens, want, "U+{:04X}", code);
        }
    }
    assert_eq!(skipped, 25);
}

#[test]
fn characters_near_whitespace_end_the_prelude() {
    let others = ['\u{8}', '\u{E}', '\u{1C}', '\u{1F}', '\u{180E}', '\u{200B}', '\u{2060}', '\u{FEFF}'];
    for c in others {
        assert_eq!(
            tokenize(&format!("{}[x]", c)),
            vec![Token::LoopStart, Token::LoopEnd],
            "U+{:04X}",
            c as u32
        );
    }
    for c in ['\u{85}', '\u{A0}', '\u{1680}', '\u{2003}', '\u{2028}', '\u{3000}'] {
        assert_eq!(Vec::<Token>::new(), tokenize(&format!("{}[x]", c)), "U+{:04X}", c as u32);
    }
}

#[test]
fn tokens_are_the_symbols_of_the_text_in_order() {
    // Without a prelude, scanning keeps each symbol and drops everything else.
    let text = "+ one - two < three > four , five . six ] seven [ eight";
    let want: Vec<Token> = text.chars().filter_map(classify).collect();
    assert_eq!(tokenize(text), want);
    assert_eq!(want.len(), 8);
}
