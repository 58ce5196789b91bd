use vstd::prelude::*;

verus! {

/// The kinds of tokens that the lexer produces.
#[derive(Debug, PartialEq, Eq, Clone, Copy, Structural)]
pub enum TokenType {
    Number,
    Operator,
    LParen,
    RParen,
    Assign,
    Begin,
    End,
    ID,
    SEMI,
    Dot,
}

/// A token: its kind and the text it was read from.
#[derive(Debug, PartialEq, Clone)]
pub struct Token {
    pub _type: TokenType,
    pub value: String,
}

impl View for Token {
    type V = (TokenType, Seq<char>);

    open spec fn view(&self) -> (TokenType, Seq<char>) {
        (self._type, self.value@)
    }
}

impl Token {
    /// A copy of this token.
    pub(crate) fn duplicate(&self) -> (t: Token)
        ensures
            t@ == self@,
    {
        Token { _type: self._type, value: self.value.clone() }
    }
}

} // verus!
