use vstd::prelude::*;

verus! {

/// The metacharacters of the expression language.
#[allow(non_camel_case_types)]
#[derive(Debug, Clone, Copy, PartialEq, Eq)]
pub enum Token {
    /// opens a group of string sets
    SP_S,
    /// closes a group of string sets
    SP_E,
    /// intersection of string sets
    AND,
    /// union of string sets
    OR,
    /// complement of a string set
    INVT,
    /// one or more repetitions
    REPT,
    /// opens a character class
    CH_S,
    /// closes a character class
    CH_E,
    /// the class of every character
    WHOL,
    /// negation inside a character class
    DENY,
    /// escape
    ESC,
}

/// The character that a token is written as.
pub open spec fn token_char(t: Token) -> char {
    match t {
        Token::SP_S => '(',
        Token::SP_E => ')',
        Token::AND => '&',
        Token::OR => '|',
        Token::INVT => '!',
        Token::REPT => '+',
        Token::CH_S => '[',
        Token::CH_E => ']',
        Token::WHOL => '.',
        Token::DENY => '^',
        Token::ESC => '\\',
    }
}

/// The characters that a backslash turns into literals.
pub open spec fn escapable_chars() -> Seq<char> {
    seq!['&', '|', '!', '[', ']', '.', '^', '+', '(', ')']
}

impl Token {
    pub fn value(&self) -> (r: char)
        ensures
            r == token_char(*self),
    {
        match self {
            Token::SP_S => '(',
            Token::SP_E => ')',
            Token::AND => '&',
            Token::OR => '|',
            Token::INVT => '!',
            Token::REPT => '+',
            Token::CH_S => '[',
            Token::CH_E => ']',
            Token::WHOL => '.',
            Token::DENY => '^',
            Token::ESC => '\\',
        }
    }

    pub fn escapes() -> (r: [char; 10])
        ensures
            r@ == escapable_chars(),
    {
        let r = [
            Token::AND.value(),
            Token::OR.value(),
            Token::INVT.value(),
            Token::CH_S.value(),
            Token::CH_E.value(),
            Token::WHOL.value(),
            Token::DENY.value(),
            Token::REPT.value(),
            Token::SP_S.value(),
            Token::SP_E.value(),
        ];
        assert(r@ =~= escapable_chars());
        r
    }
}

} // verus!
