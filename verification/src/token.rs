//! Classification of source lines into tokens.

use vstd::prelude::*;
use vstd::string::*;
use std::collections::VecDeque;
use crate::text::{lines_spec, split_lines, trim, trim_spec};

verus! {

/// One classified source line, carrying its trimmed text.
#[derive(Debug)]
pub enum Token {
    /// A line that is none of the cases below: an operation to perform.
    Operation(String),
    /// A line starting with `;`.
    Comment(String),
    /// A line starting with `#`.
    Label(String),
    /// A line starting with `.`.
    Directive(String),
    /// A line starting with `@`: a variable declaration.
    Variable(String),
    /// A blank line.
    End,
}

/// The spec-level value of a [`Token`].
pub enum TokenV {
    Operation(Seq<char>),
    Comment(Seq<char>),
    Label(Seq<char>),
    Directive(Seq<char>),
    Variable(Seq<char>),
    End,
}

impl View for Token {
    type V = TokenV;

    open spec fn view(&self) -> TokenV {
        match self {
            Token::Operation(s) => TokenV::Operation(s@),
            Token::Comment(s) => TokenV::Comment(s@),
            Token::Label(s) => TokenV::Label(s@),
            Token::Directive(s) => TokenV::Directive(s@),
            Token::Variable(s) => TokenV::Variable(s@),
            Token::End => TokenV::End,
        }
    }
}

impl DeepView for Token {
    type V = TokenV;

    open spec fn deep_view(&self) -> TokenV {
        self.view()
    }
}

/// The token a source line yields.  The line is trimmed of surrounding
/// whitespace; a blank result is the end marker, and otherwise the first
/// character decides: `;` comment, `.` directive, `#` label, `@` variable
/// declaration, anything else an operation.  The token keeps the trimmed
/// text.
pub open spec fn classify_spec(line: Seq<char>) -> TokenV {
    let t = trim_spec(line);
    if t.len() == 0 {
        TokenV::End
    } else if t[0] == ';' {
        TokenV::Comment(t)
    } else if t[0] == '.' {
        TokenV::Directive(t)
    } else if t[0] == '#' {
        TokenV::Label(t)
    } else if t[0] == '@' {
        TokenV::Variable(t)
    } else {
        TokenV::Operation(t)
    }
}

/// The tokens of a whole source text: one token per line, in order.
pub open spec fn tokenize_spec(text: Seq<char>) -> Seq<TokenV> {
    lines_spec(text).map_values(|l: Seq<char>| classify_spec(l))
}

/// Law: tokenizing a blank line always yields the end marker, and a line
/// whose trimmed text begins with `;`, `.`, `#` or `@` always yields the
/// correspondingly tagged token holding the trimmed text verbatim.
pub proof fn lemma_classification(line: Seq<char>)
    ensures
        trim_spec(line).len() == 0 ==> classify_spec(line) == TokenV::End,
        trim_spec(line).len() > 0 && trim_spec(line)[0] == ';' ==> classify_spec(line)
            == TokenV::Comment(trim_spec(line)),
        trim_spec(line).len() > 0 && trim_spec(line)[0] == '.' ==> classify_spec(line)
            == TokenV::Directive(trim_spec(line)),
        trim_spec(line).len() > 0 && trim_spec(line)[0] == '#' ==> classify_spec(line)
            == TokenV::Label(trim_spec(line)),
        trim_spec(line).len() > 0 && trim_spec(line)[0] == '@' ==> classify_spec(line)
            == TokenV::Variable(trim_spec(line)),
{
}

impl Token {
    /// Duplicates the token.
    pub fn duplicate(&self) -> (t: Token)
        ensures
            t@ == self@,
    {
        match self {
            Token::Operation(s) => Token::Operation(s.clone()),
            Token::Comment(s) => Token::Comment(s.clone()),
            Token::Label(s) => Token::Label(s.clone()),
            Token::Directive(s) => Token::Directive(s.clone()),
            Token::Variable(s) => Token::Variable(s.clone()),
            Token::End => Token::End,
        }
    }

    /// Classifies one source line.
    pub fn classify_line(line: &str) -> (t: Token)
        ensures
            t@ == classify_spec(line@),
    {
        let tr = trim(line);
        let n = tr.as_str().unicode_len();
        if n == 0 {
            Token::End
        } else {
            let c = tr.as_str().get_char(0);
            if c == ';' {
                Token::Comment(tr)
            } else if c == '.' {
                Token::Directive(tr)
            } else if c == '#' {
                Token::Label(tr)
            } else if c == '@' {
                Token::Variable(tr)
            } else {
                Token::Operation(tr)
            }
        }
    }

    /// Tokenizes a whole source text, one token per line.
    pub fn tokenize(text: &str) -> (r: VecDeque<Token>)
        ensures
            r.deep_view() == tokenize_spec(text@),
    {
        let lines = split_lines(text);
        let mut toks: VecDeque<Token> = VecDeque::new();
        let mut i: usize = 0;
        while i < lines.len()
            invariant
                0 <= i <= lines@.len(),
                lines.deep_view() == lines_spec(text@),
                toks.deep_view() == tokenize_spec(text@).take(i as int),
            decreases lines@.len() - i,
        {
            let ghost old_toks = toks.deep_view();
            toks.push_back(Token::classify_line(lines[i].as_str()));
            proof {
                assert(lines.deep_view()[i as int] == lines[i as int]@);
                assert(toks.deep_view() =~~= old_toks.push(
                    classify_spec(lines.deep_view()[i as int]),
                ));
                assert(toks.deep_view() =~~= tokenize_spec(text@).take(i as int + 1));
            }
            i = i + 1;
        }
        proof {
            assert(tokenize_spec(text@).take(lines@.len() as int) =~~= tokenize_spec(text@));
        }
        toks
    }
}

} // verus!
