//! Lexeme categories and the scan error taxonomy.

use crate::value::Value;
use vstd::prelude::*;

verus! {

/// One lexeme of the source language. Identity is structural: the variant
/// plus any payload. A numeric literal carries the binary64 bit pattern of
/// its value; a string literal carries the raw byte span between the quotes,
/// not unescaped.
#[derive(Debug, Clone, PartialEq, Eq)]
pub enum Token {
    /// (
    LeftParens,
    /// )
    RightParens,
    /// {
    LeftBrace,
    /// }
    RightBrace,
    /// [
    LeftSquare,
    /// ]
    RightSquare,
    /// ,
    Comma,
    /// .
    Dot,
    /// -
    Minus,
    /// +
    Plus,
    /// ;
    Semicolon,
    /// /
    Slash,
    /// *
    Star,
    /// !
    Bang,
    /// !=
    BangEqual,
    /// =
    Equal,
    /// ==
    EqualEqual,
    /// >
    Greater,
    /// >=
    GreaterEqual,
    /// <
    Lesser,
    /// <=
    LesserEqual,
    /// An identifier that is not a keyword; the text is not retained.
    IdentifierNoData,
    /// A string literal's raw bytes, quotes excluded.
    String(Vec<u8>),
    /// A numeric literal's binary64 bit pattern.
    Number(Value),
    /// and
    And,
    /// or
    Or,
    /// struct
    Struct,
    /// if
    If,
    /// else
    Else,
    /// true
    True,
    /// false
    False,
    /// fun
    Fun,
    /// loop
    Loop,
    /// while
    While,
    /// for
    For,
    /// nil
    Nil,
    /// return
    Return,
    /// let
    Let,
    /// print
    Print,
    /// self
    TokSelf,
    /// A line comment.
    SingleComment,
    /// A block comment.
    MultiComment,
    /// A byte that begins no lexeme.
    Unknown,
    /// End of the input.
    EOF,
}

/// The closed set of scanning failures, each terminal at the point raised.
#[derive(Debug, Clone, Copy, PartialEq, Eq, Structural)]
pub enum ScanError {
    /// A byte that begins no lexeme.
    UnknownToken,
    /// A string literal with no closing quote before end of input.
    UnmatchedString,
    /// A numeric lexeme the number parser cannot read.
    NumberNotRecognized,
    /// The input is exhausted.
    End,
}

/// An ASCII decimal digit.
pub open spec fn spec_is_digit(c: u8) -> bool {
    '0' as u8 <= c <= '9' as u8
}

/// An ASCII letter or an underscore: what may begin an identifier.
pub open spec fn spec_is_alpha_or_underscore(c: u8) -> bool {
    ('a' as u8 <= c <= 'z' as u8) || ('A' as u8 <= c <= 'Z' as u8) || c == '_' as u8
}

/// An ASCII letter, digit or underscore: what may continue an identifier.
pub open spec fn spec_is_ident_continue(c: u8) -> bool {
    spec_is_alpha_or_underscore(c) || spec_is_digit(c)
}

/// Whether the byte is an ASCII letter or an underscore.
pub fn is_ascii_alphabetic_or_underscore(c: &u8) -> (r: bool)
    ensures
        r == spec_is_alpha_or_underscore(*c),
{
    ('a' as u8 <= *c && *c <= 'z' as u8) || ('A' as u8 <= *c && *c <= 'Z' as u8) || *c == '_' as u8
}

/// The fixed, case-sensitive keyword table: the token an identifier lexeme
/// classifies as. Empty text marks the end of the input; text matching no
/// keyword is a generic identifier.
pub open spec fn spec_keyword_or_ident(s: Seq<u8>) -> Token {
    if s.len() == 0 {
        Token::EOF
    } else if s == seq!['f' as u8, 'a' as u8, 'l' as u8, 's' as u8, 'e' as u8] {
        Token::False
    } else if s == seq!['t' as u8, 'r' as u8, 'u' as u8, 'e' as u8] {
        Token::True
    } else if s == seq!['s' as u8, 'e' as u8, 'l' as u8, 'f' as u8] {
        Token::TokSelf
    } else if s == seq!['s' as u8, 't' as u8, 'r' as u8, 'u' as u8, 'c' as u8, 't' as u8] {
        Token::Struct
    } else if s == seq!['r' as u8, 'e' as u8, 't' as u8, 'u' as u8, 'r' as u8, 'n' as u8] {
        Token::Return
    } else if s == seq!['l' as u8, 'o' as u8, 'o' as u8, 'p' as u8] {
        Token::Loop
    } else if s == seq!['f' as u8, 'u' as u8, 'n' as u8] {
        Token::Fun
    } else if s == seq!['p' as u8, 'r' as u8, 'i' as u8, 'n' as u8, 't' as u8] {
        Token::Print
    } else if s == seq!['o' as u8, 'r' as u8] {
        Token::Or
    } else if s == seq!['a' as u8, 'n' as u8, 'd' as u8] {
        Token::And
    } else if s == seq!['f' as u8, 'o' as u8, 'r' as u8] {
        Token::For
    } else if s == seq!['w' as u8, 'h' as u8, 'i' as u8, 'l' as u8, 'e' as u8] {
        Token::While
    } else if s == seq!['i' as u8, 'f' as u8] {
        Token::If
    } else if s == seq!['e' as u8, 'l' as u8, 's' as u8, 'e' as u8] {
        Token::Else
    } else if s == seq!['n' as u8, 'i' as u8, 'l' as u8] {
        Token::Nil
    } else if s == seq!['l' as u8, 'e' as u8, 't' as u8] {
        Token::Let
    } else {
        Token::IdentifierNoData
    }
}

/// Classify an identifier lexeme against the keyword table.
pub fn keyword_or_ident(input: &[u8]) -> (t: Token)
    ensures
        t == spec_keyword_or_ident(input@),
{
    let n = input.len();
    if n == 0 {
        return Token::EOF;
    }
    if n == 2 {
        if input[0] == 'o' as u8 && input[1] == 'r' as u8 {
            proof {
                assert(input@ =~= seq!['o' as u8, 'r' as u8]);
            }
            return Token::Or;
        }
        if input[0] == 'i' as u8 && input[1] == 'f' as u8 {
            proof {
                assert(input@ =~= seq!['i' as u8, 'f' as u8]);
            }
            return Token::If;
        }
    }
    if n == 3 {
        if input[0] == 'f' as u8 && input[1] == 'u' as u8 && input[2] == 'n' as u8 {
            proof {
                assert(input@ =~= seq!['f' as u8, 'u' as u8, 'n' as u8]);
            }
            return Token::Fun;
        }
        if input[0] == 'a' as u8 && input[1] == 'n' as u8 && input[2] == 'd' as u8 {
            proof {
                assert(input@ =~= seq!['a' as u8, 'n' as u8, 'd' as u8]);
            }
            return Token::And;
        }
        if input[0] == 'f' as u8 && input[1] == 'o' as u8 && input[2] == 'r' as u8 {
            proof {
                assert(input@ =~= seq!['f' as u8, 'o' as u8, 'r' as u8]);
            }
            return Token::For;
        }
        if input[0] == 'n' as u8 && input[1] == 'i' as u8 && input[2] == 'l' as u8 {
            proof {
                assert(input@ =~= seq!['n' as u8, 'i' as u8, 'l' as u8]);
            }
            return Token::Nil;
        }
        if input[0] == 'l' as u8 && input[1] == 'e' as u8 && input[2] == 't' as u8 {
            proof {
                assert(input@ =~= seq!['l' as u8, 'e' as u8, 't' as u8]);
            }
            return Token::Let;
        }
    }
    if n == 4 {
        if input[0] == 't' as u8 && input[1] == 'r' as u8 && input[2] == 'u' as u8 && input[3]
            == 'e' as u8 {
            proof {
                assert(input@ =~= seq!['t' as u8, 'r' as u8, 'u' as u8, 'e' as u8]);
            }
            return Token::True;
        }
        if input[0] == 's' as u8 && input[1] == 'e' as u8 && input[2] == 'l' as u8 && input[3]
            == 'f' as u8 {
            proof {
                assert(input@ =~= seq!['s' as u8, 'e' as u8, 'l' as u8, 'f' as u8]);
            }
            return Token::TokSelf;
        }
        if input[0] == 'l' as u8 && input[1] == 'o' as u8 && input[2] == 'o' as u8 && input[3]
            == 'p' as u8 {
            proof {
                assert(input@ =~= seq!['l' as u8, 'o' as u8, 'o' as u8, 'p' as u8]);
            }
            return Token::Loop;
        }
        if input[0] == 'e' as u8 && input[1] == 'l' as u8 && input[2] == 's' as u8 && input[3]
            == 'e' as u8 {
            proof {
                assert(input@ =~= seq!['e' as u8, 'l' as u8, 's' as u8, 'e' as u8]);
            }
            return Token::Else;
        }
    }
    if n == 5 {
        if input[0] == 'f' as u8 && input[1] == 'a' as u8 && input[2] == 'l' as u8 && input[3]
            == 's' as u8 && input[4] == 'e' as u8 {
            proof {
                assert(input@ =~= seq!['f' as u8, 'a' as u8, 'l' as u8, 's' as u8, 'e' as u8]);
            }
            return Token::False;
        }
        if input[0] == 'p' as u8 && input[1] == 'r' as u8 && input[2] == 'i' as u8 && input[3]
            == 'n' as u8 && input[4] == 't' as u8 {
            proof {
                assert(input@ =~= seq!['p' as u8, 'r' as u8, 'i' as u8, 'n' as u8, 't' as u8]);
            }
            return Token::Print;
        }
        if input[0] == 'w' as u8 && input[1] == 'h' as u8 && input[2] == 'i' as u8 && input[3]
            == 'l' as u8 && input[4] == 'e' as u8 {
            proof {
                assert(input@ =~= seq!['w' as u8, 'h' as u8, 'i' as u8, 'l' as u8, 'e' as u8]);
            }
            return Token::While;
        }
    }
    if n == 6 {
        if input[0] == 's' as u8 && input[1] == 't' as u8 && input[2] == 'r' as u8 && input[3]
            == 'u' as u8 && input[4] == 'c' as u8 && input[5] == 't' as u8 {
            proof {
                assert(input@ =~= seq![
                    's' as u8, 't' as u8, 'r' as u8, 'u' as u8, 'c' as u8, 't' as u8,
                ]);
            }
            return Token::Struct;
        }
        if input[0] == 'r' as u8 && input[1] == 'e' as u8 && input[2] == 't' as u8 && input[3]
            == 'u' as u8 && input[4] == 'r' as u8 && input[5] == 'n' as u8 {
            proof {
                assert(input@ =~= seq![
                    'r' as u8, 'e' as u8, 't' as u8, 'u' as u8, 'r' as u8, 'n' as u8,
                ]);
            }
            return Token::Return;
        }
    }
    Token::IdentifierNoData
}

} // verus!
