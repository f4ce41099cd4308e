use vstd::prelude::*;

verus! {

/// One instruction of a program.  The loop instructions carry the index of
/// their partner; the lexer fills in the placeholder `0`, the resolver the
/// real index.
#[derive(Copy, Clone, Debug, PartialEq, Eq, Structural)]
pub enum Token {
    MoveRight,
    MoveLeft,
    Increment,
    Decrement,
    Output,
    Input,
    LoopOpen(usize),
    LoopClose(usize),
}

/// Every fatal condition of lexing, resolution and execution.
#[derive(Copy, Clone, Debug, PartialEq, Eq, Structural)]
pub enum BfError {
    /// The `[` at this index has no partner.
    UnmatchedOpen(usize),
    /// The `]` at this index has no partner.
    UnmatchedClose(usize),
    /// A `<` was executed with the data pointer at zero.
    PointerUnderflow,
    /// A `,` was executed and no byte could be read.
    InputExhausted,
}

/// The instruction that a character stands for, with placeholder targets.
pub open spec fn token_of(c: char) -> Option<Token> {
    if c == '>' {
        Some(Token::MoveRight)
    } else if c == '<' {
        Some(Token::MoveLeft)
    } else if c == '+' {
        Some(Token::Increment)
    } else if c == '-' {
        Some(Token::Decrement)
    } else if c == '.' {
        Some(Token::Output)
    } else if c == ',' {
        Some(Token::Input)
    } else if c == '[' {
        Some(Token::LoopOpen(0))
    } else if c == ']' {
        Some(Token::LoopClose(0))
    } else {
        None
    }
}

/// The character that an instruction is written as.
pub open spec fn char_of(t: Token) -> char {
    match t {
        Token::MoveRight => '>',
        Token::MoveLeft => '<',
        Token::Increment => '+',
        Token::Decrement => '-',
        Token::Output => '.',
        Token::Input => ',',
        Token::LoopOpen(_) => '[',
        Token::LoopClose(_) => ']',
    }
}

/// The instruction as the lexer produces it: loop targets set to the placeholder.
pub open spec fn unresolved(t: Token) -> Token {
    match t {
        Token::LoopOpen(_) => Token::LoopOpen(0),
        Token::LoopClose(_) => Token::LoopClose(0),
        _ => t,
    }
}

pub open spec fn is_open(t: Token) -> bool {
    t is LoopOpen
}

pub open spec fn is_close(t: Token) -> bool {
    t is LoopClose
}

/// Map a character to its instruction, or `None` for a character outside the language.
pub fn char_to_token(ch: &char) -> (r: Option<Token>)
    ensures
        r == token_of(*ch),
{
    match *ch {
        '>' => Some(Token::MoveRight),
        '<' => Some(Token::MoveLeft),
        '+' => Some(Token::Increment),
        '-' => Some(Token::Decrement),
        '.' => Some(Token::Output),
        ',' => Some(Token::Input),
        '[' => Some(Token::LoopOpen(0)),
        ']' => Some(Token::LoopClose(0)),
        _ => None,
    }
}

/// The text of one instruction: its single character.
pub fn token_text(t: Token) -> (r: &'static str)
    ensures
        r@ == seq![char_of(t)],
{
    match t {
        Token::MoveRight => {
            proof { reveal_strlit(">"); }
            ">"
        },
        Token::MoveLeft => {
            proof { reveal_strlit("<"); }
            "<"
        },
        Token::Increment => {
            proof { reveal_strlit("+"); }
            "+"
        },
        Token::Decrement => {
            proof { reveal_strlit("-"); }
            "-"
        },
        Token::Output => {
            proof { reveal_strlit("."); }
            "."
        },
        Token::Input => {
            proof { reveal_strlit(","); }
            ","
        },
        Token::LoopOpen(_) => {
            proof { reveal_strlit("["); }
            "["
        },
        Token::LoopClose(_) => {
            proof { reveal_strlit("]"); }
            "]"
        },
    }
}

} // verus!
