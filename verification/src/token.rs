//! Instructions and the mapping from source characters to them.

use vstd::prelude::*;

verus! {

/// The kind of one instruction.  The two loop brackets carry their jump
/// target once bracket matching has resolved it: a loop-start points one
/// past its matching loop-end, and vice versa, so the engine can jump
/// there directly.  A bracket left with `None` is structurally incomplete
/// and makes execution fail when it is reached.
#[derive(Clone, Copy, Debug, PartialEq, Eq)]
pub enum TokenType {
    Right,
    Left,
    Plus,
    Minus,
    Out,
    In,
    JumpForward(Option<usize>),
    JumpBackward(Option<usize>),
    Ignore,
}

/// One instruction together with the 1-based line and column of the source
/// character it came from, kept for diagnostics.
#[derive(Clone, Copy, Debug)]
pub struct Token {
    pub line: usize,
    pub column: usize,
    pub token_type: TokenType,
}

/// The instruction a raw character stands for, before bracket matching.
/// Every character maps to exactly one instruction; unrecognized ones
/// map to `Ignore`.
pub open spec fn token_of_char(c: char) -> TokenType {
    if c == '>' {
        TokenType::Right
    } else if c == '<' {
        TokenType::Left
    } else if c == '+' {
        TokenType::Plus
    } else if c == '-' {
        TokenType::Minus
    } else if c == '.' {
        TokenType::Out
    } else if c == ',' {
        TokenType::In
    } else if c == '[' {
        TokenType::JumpForward(None)
    } else if c == ']' {
        TokenType::JumpBackward(None)
    } else {
        TokenType::Ignore
    }
}

impl From<char> for TokenType {
    fn from(value: char) -> Self {
        match value {
            '>' => TokenType::Right,
            '<' => TokenType::Left,
            '+' => TokenType::Plus,
            '-' => TokenType::Minus,
            '.' => TokenType::Out,
            ',' => TokenType::In,
            '[' => TokenType::JumpForward(None),
            ']' => TokenType::JumpBackward(None),
            _ => TokenType::Ignore,
        }
    }
}

impl vstd::std_specs::convert::FromSpecImpl<char> for TokenType {
    open spec fn obeys_from_spec() -> bool {
        true
    }

    open spec fn from_spec(value: char) -> Self {
        token_of_char(value)
    }
}

/// The instruction sequence a token sequence carries.
pub open spec fn program_of(toks: Seq<Token>) -> Seq<TokenType> {
    toks.map_values(|t: Token| t.token_type)
}

} // verus!
