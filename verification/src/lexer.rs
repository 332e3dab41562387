//! # Lexer
//!
//! Converts source text into the sequence of command tokens it contains.
//!
//! Every character that is not one of the eight symbols is ignored, so every
//! text has a token sequence. Bracketed regions at the very start of the text
//! are comments: they are dropped whole, together with the whitespace around
//! them, before the first token is produced.

use vstd::prelude::*;
use vstd::std_specs::iter::IteratorSpec;

verus! {

/// One command of the language. Each token stands for exactly one symbol.
#[derive(Debug, PartialEq, Eq, Clone, Copy, Structural)]
pub enum Token {
    /// '+' symbol
    Increment,
    /// '-' symbol
    Decrement,
    /// '<' symbol
    MoveLeft,
    /// '>' symbol
    MoveRight,
    /// ',' symbol
    Read,
    /// '.' symbol
    Write,
    /// '[' symbol
    LoopStart,
    /// ']' symbol
    LoopEnd,
}

/// The token that a character stands for, if it is one of the eight symbols.
pub open spec fn token_of(c: char) -> Option<Token> {
    if c == '+' {
        Some(Token::Increment)
    } else if c == '-' {
        Some(Token::Decrement)
    } else if c == '<' {
        Some(Token::MoveLeft)
    } else if c == '>' {
        Some(Token::MoveRight)
    } else if c == ',' {
        Some(Token::Read)
    } else if c == '.' {
        Some(Token::Write)
    } else if c == '[' {
        Some(Token::LoopStart)
    } else if c == ']' {
        Some(Token::LoopEnd)
    } else {
        None
    }
}

/// The tokens of the symbols in `s`, in order. Other characters leave no trace.
pub open spec fn symbols(s: Seq<char>) -> Seq<Token>
    decreases s.len(),
{
    if s.len() == 0 {
        Seq::empty()
    } else {
        match token_of(s[0]) {
            Some(t) => seq![t] + symbols(s.drop_first()),
            None => symbols(s.drop_first()),
        }
    }
}

/// Whether `c` has the Unicode `White_Space` property.
pub open spec fn is_white_space(c: char) -> bool {
    let u = c as u32;
    ||| 0x0009 <= u <= 0x000D
    ||| u == 0x0020
    ||| u == 0x0085
    ||| u == 0x00A0
    ||| u == 0x1680
    ||| 0x2000 <= u <= 0x200A
    ||| u == 0x2028
    ||| u == 0x2029
    ||| u == 0x202F
    ||| u == 0x205F
    ||| u == 0x3000
}

/// `char::is_whitespace` of std: true exactly for the characters that have
/// the Unicode `White_Space` property, which [`is_white_space`] lists.
pub assume_specification[ char::is_whitespace ](c: char) -> (r: bool)
    ensures
        r == is_white_space(c),
;

/// What is left of `s` after a comment region that is read at nesting depth
/// `depth`: an opening bracket adds one to the depth, a closing bracket takes
/// one from it, and the region ends with the closing bracket that brings the
/// depth to zero. A region that is never closed takes all of `s`.
pub open spec fn after_comment(s: Seq<char>, depth: nat) -> Seq<char>
    decreases s.len(),
{
    if s.len() == 0 {
        s
    } else if s[0] == '[' {
        after_comment(s.drop_first(), depth + 1)
    } else if s[0] == ']' {
        if depth <= 1 {
            s.drop_first()
        } else {
            after_comment(s.drop_first(), (depth - 1) as nat)
        }
    } else {
        after_comment(s.drop_first(), depth)
    }
}

/// What a comment region leaves is no longer than the text, and shorter
/// where the text is not empty.
pub proof fn lemma_after_comment_shorter(s: Seq<char>, depth: nat)
    ensures
        after_comment(s, depth).len() <= s.len(),
        s.len() > 0 ==> after_comment(s, depth).len() < s.len(),
    decreases s.len(),
{
    if s.len() > 0 {
        lemma_after_comment_shorter(s.drop_first(), depth);
        lemma_after_comment_shorter(s.drop_first(), depth + 1);
        lemma_after_comment_shorter(s.drop_first(), (depth - 1) as nat);
    }
}

/// What is left of `s` after its prelude: leading whitespace and leading
/// comment regions, any number of them, are dropped. A comment region is
/// what starts with an opening bracket and ends with the bracket that closes
/// it, whatever stands between them.
pub open spec fn after_prelude(s: Seq<char>) -> Seq<char>
    decreases s.len(),
{
    if s.len() == 0 {
        s
    } else if is_white_space(s[0]) {
        after_prelude(s.drop_first())
    } else if s[0] == '[' {
        proof {
            lemma_after_comment_shorter(s, 0);
        }
        after_prelude(after_comment(s, 0))
    } else {
        s
    }
}

/// The token sequence of a source text: the symbols of what follows its
/// prelude.
pub open spec fn tokens_of(s: Seq<char>) -> Seq<Token> {
    symbols(after_prelude(s))
}

/// Maps one character to its token, if it has one.
pub fn classify(c: char) -> (r: Option<Token>)
    ensures
        r == token_of(c),
{
    match c {
        '+' => Some(Token::Increment),
        '-' => Some(Token::Decrement),
        '<' => Some(Token::MoveLeft),
        '>' => Some(Token::MoveRight),
        ',' => Some(Token::Read),
        '.' => Some(Token::Write),
        '[' => Some(Token::LoopStart),
        ']' => Some(Token::LoopEnd),
        _ => None,
    }
}

/// A text has at most as many characters as its UTF-8 encoding has bytes.
proof fn lemma_chars_within_bytes(s: Seq<char>)
    ensures
        s.len() <= vstd::utf8::encode_utf8(s).len(),
    decreases s.len(),
{
    if s.len() > 0 {
        lemma_chars_within_bytes(s.drop_first());
    }
}

/// Where the scanner stands in the text.
enum Phase {
    /// Before the first token, outside any comment region.
    Prelude,
    /// Inside a leading comment region.
    Comment,
    /// Past the prelude.
    Body,
}

/// Tokenizes source text into its sequence of `Token` values.
pub fn tokenize(input: &str) -> (tokens: Vec<Token>)
    ensures
        tokens@ == tokens_of(input@),
{
    // A text has no more characters than bytes, and the bytes are counted
    // by a `usize`: that bounds the depth counter below.
    let bytes = input.as_bytes();
    proof {
        lemma_chars_within_bytes(input@);
        assert(bytes@.len() == bytes.len());
    }
    let mut tokens: Vec<Token> = Vec::new();
    let mut phase = Phase::Prelude;
    let mut depth: usize = 0;
    let mut iter = input.chars();
    let ghost mut seen: nat = 0;
    loop
        invariant
            iter.obeys_prophetic_iter_laws(),
            iter.decrease() is Some,
            seen + iter.remaining().len() == input@.len(),
            input@.len() <= usize::MAX,
            depth <= seen,
            phase is Comment ==> depth >= 1,
            tokens_of(input@) == tokens@ + match phase {
                Phase::Prelude => symbols(after_prelude(iter.remaining())),
                Phase::Comment => symbols(
                    after_prelude(after_comment(iter.remaining(), depth as nat)),
                ),
                Phase::Body => symbols(iter.remaining()),
            },
        ensures
            tokens@ == tokens_of(input@),
        decreases iter.decrease()->0,
    {
        let next = iter.next();
        match next {
            None => {
                break;
            },
            Some(c) => {
                proof {
                    seen = seen + 1;
                }
                match phase {
                    Phase::Prelude => {
                        if c.is_whitespace() {
                        } else if c == '[' {
                            phase = Phase::Comment;
                            depth = 1;
                        } else {
                            phase = Phase::Body;
                            if let Some(t) = classify(c) {
                                tokens.push(t);
                            }
                        }
                    },
                    Phase::Comment => {
                        if c == '[' {
                            depth = depth + 1;
                        } else if c == ']' {
                            depth = depth - 1;
                            if depth == 0 {
                                phase = Phase::Prelude;
                            }
                        }
                    },
                    Phase::Body => {
                        if let Some(t) = classify(c) {
                            tokens.push(t);
                        }
                    },
                }
            },
        }
    }
    tokens
}

/// The symbols of a text in two parts are the symbols of the first part
/// followed by those of the second.
pub proof fn lemma_symbols_concat(a: Seq<char>, b: Seq<char>)
    ensures
        symbols(a + b) == symbols(a) + symbols(b),
    decreases a.len(),
{
    if a.len() == 0 {
        assert(a + b =~= b);
    } else {
        lemma_symbols_concat(a.drop_first(), b);
        assert((a + b).drop_first() =~= a.drop_first() + b);
        assert(symbols(a + b) =~= symbols(a) + symbols(b));
    }
}

/// A text that does not start with whitespace or an opening bracket has no
/// prelude: its tokens are all its symbols, in order.
pub proof fn lemma_tokens_without_prelude(s: Seq<char>)
    requires
        s.len() > 0 ==> !is_white_space(s[0]) && s[0] != '[',
    ensures
        tokens_of(s) == symbols(s),
{
}

/// What follows a comment region is the text from some position on.
pub proof fn lemma_after_comment_is_suffix(s: Seq<char>, depth: nat)
    ensures
        after_comment(s, depth).len() <= s.len(),
        after_comment(s, depth) == s.skip(s.len() - after_comment(s, depth).len()),
    decreases s.len(),
{
    if s.len() == 0 {
        assert(s.skip(0) =~= s);
    } else {
        let rest = s.drop_first();
        lemma_after_comment_is_suffix(rest, depth);
        lemma_after_comment_is_suffix(rest, depth + 1);
        lemma_after_comment_is_suffix(rest, (depth - 1) as nat);
        assert forall|k: int| 0 <= k <= rest.len() implies #[trigger] rest.skip(k) == s.skip(
            k + 1,
        ) by {
            assert(rest.skip(k) =~= s.skip(k + 1));
        }
    }
}

/// The prelude is a prefix of the text: what follows it is the text from
/// some position on. So the tokens of a text are symbols of the text, in the
/// order of the text.
pub proof fn lemma_after_prelude_is_suffix(s: Seq<char>)
    ensures
        after_prelude(s).len() <= s.len(),
        after_prelude(s) == s.skip(s.len() - after_prelude(s).len()),
    decreases s.len(),
{
    assert(s.skip(0) =~= s);
    if s.len() > 0 {
        if is_white_space(s[0]) {
            let rest = s.drop_first();
            lemma_after_prelude_is_suffix(rest);
            let k = rest.len() - after_prelude(rest).len();
            assert(rest.skip(k) =~= s.skip(k + 1));
        } else if s[0] == '[' {
            let rest = after_comment(s, 0);
            lemma_after_comment_shorter(s, 0);
            lemma_after_comment_is_suffix(s, 0);
            lemma_after_prelude_is_suffix(rest);
            let j = s.len() - rest.len();
            let k = rest.len() - after_prelude(rest).len();
            assert(s.skip(j).skip(k) =~= s.skip(j + k));
        }
    }
}

/// What follows the prelude is empty or starts with a character that is
/// neither whitespace nor an opening bracket: the prelude takes all leading
/// whitespace and all leading comment regions.
pub proof fn lemma_after_prelude_starts_body(s: Seq<char>)
    ensures
        after_prelude(s).len() > 0 ==> !is_white_space(after_prelude(s)[0]) && after_prelude(s)[0]
            != '[',
    decreases s.len(),
{
    if s.len() > 0 {
        if is_white_space(s[0]) {
            lemma_after_prelude_starts_body(s.drop_first());
        } else if s[0] == '[' {
            lemma_after_comment_shorter(s, 0);
            lemma_after_prelude_starts_body(after_comment(s, 0));
        }
    }
}

/// The tokens of a text are its symbols, in order, without the symbols that
/// stand in its prelude.
pub proof fn lemma_tokens_follow_prelude(s: Seq<char>)
    ensures
        after_prelude(s).len() <= s.len(),
        symbols(s) == symbols(s.take(s.len() - after_prelude(s).len())) + tokens_of(s),
{
    lemma_after_prelude_is_suffix(s);
    let k = s.len() - after_prelude(s).len();
    lemma_symbols_concat(s.take(k), s.skip(k));
    assert(s.take(k) + s.skip(k) =~= s);
}

} // verus!
