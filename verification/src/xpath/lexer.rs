//! XPath Lexer
//!
//! Tokenizes XPath expressions into tokens. A number literal is given as its text;
//! reading it as a floating-point value is left to the evaluator.

use vstd::prelude::*;

verus! {

// =============================================================================
// Character classes
// =============================================================================
/// Unicode `White_Space`, the characters for which `char::is_whitespace` holds:
/// tab, line feed, vertical tab, form feed, carriage return, space, next line,
/// no-break space, ogham space mark, the spaces U+2000 to U+200A, line and paragraph
/// separators, narrow no-break space, medium mathematical space and ideographic space.
pub open spec fn spec_is_whitespace(c: char) -> bool {
    ('\u{9}' <= c && c <= '\u{d}') || c == ' ' || c == '\u{85}' || c == '\u{a0}' || c == '\u{1680}'
        || ('\u{2000}' <= c && c <= '\u{200a}') || c == '\u{2028}' || c == '\u{2029}' || c
        == '\u{202f}' || c == '\u{205f}' || c == '\u{3000}'
}

/// `char::is_alphabetic` (Unicode `Alphabetic`).
pub uninterp spec fn spec_is_alphabetic(c: char) -> bool;

/// `char::is_alphanumeric` (Unicode `Alphabetic` or `Numeric`).
pub uninterp spec fn spec_is_alphanumeric(c: char) -> bool;

/// Whether `c` is Unicode white space, as `char::is_whitespace` tells.
pub(crate) fn char_is_whitespace(c: char) -> (r: bool)
    ensures
        r == spec_is_whitespace(c),
{
    ('\u{9}' <= c && c <= '\u{d}') || c == ' ' || c == '\u{85}' || c == '\u{a0}' || c == '\u{1680}'
        || ('\u{2000}' <= c && c <= '\u{200a}') || c == '\u{2028}' || c == '\u{2029}' || c
        == '\u{202f}' || c == '\u{205f}' || c == '\u{3000}'
}

/// `char::is_alphabetic`: the contract names the result.
#[verifier::external_body]
fn char_is_alphabetic(c: char) -> (r: bool)
    ensures
        r == spec_is_alphabetic(c),
{
    c.is_alphabetic()
}

/// `char::is_alphanumeric`: the contract names the result and states what its
/// documentation says of it, that every alphabetic character is alphanumeric.
#[verifier::external_body]
fn char_is_alphanumeric(c: char) -> (r: bool)
    ensures
        r == spec_is_alphanumeric(c),
        spec_is_alphabetic(c) ==> r,
{
    c.is_alphanumeric()
}

/// `String::from_iter` over characters: the string of the characters, in order.
#[verifier::external_body]
pub(crate) fn string_of(cs: &[char]) -> (r: String)
    ensures
        r@ == cs@,
{
    String::from_iter(cs)
}

pub open spec fn is_digit(c: char) -> bool {
    '0' <= c && c <= '9'
}

pub open spec fn name_start(c: char) -> bool {
    spec_is_alphabetic(c) || c == '_'
}

pub open spec fn name_char(c: char) -> bool {
    spec_is_alphanumeric(c) || c == '_' || c == '-' || c == '.'
}

// =============================================================================
// Tokens
// =============================================================================
/// XPath token types
#[derive(Debug, Clone, PartialEq)]
pub enum Token {
    // Operators
    Slash,
    DoubleSlash,
    Dot,
    DoubleDot,
    At,
    Pipe,
    Plus,
    Minus,
    Star,
    Eq,
    NotEq,
    Lt,
    LtEq,
    Gt,
    GtEq,
    And,
    Or,
    Mod,
    Div,
    // Brackets
    LeftParen,
    RightParen,
    LeftBracket,
    RightBracket,
    // Literals: a number is given by its text
    Number(String),
    String(String),
    // Names
    Name(String),
    NameTest(String),
    NodeType(String),
    // Axis
    Axis(String),
    // Special
    DoubleColon,
    Comma,
    Dollar,
    // End of input
    Eof,
}

/// A token with its text as characters.
pub enum TokenModel {
    Slash,
    DoubleSlash,
    Dot,
    DoubleDot,
    At,
    Pipe,
    Plus,
    Minus,
    Star,
    Eq,
    NotEq,
    Lt,
    LtEq,
    Gt,
    GtEq,
    And,
    Or,
    Mod,
    Div,
    LeftParen,
    RightParen,
    LeftBracket,
    RightBracket,
    Number(Seq<char>),
    String(Seq<char>),
    Name(Seq<char>),
    NameTest(Seq<char>),
    NodeType(Seq<char>),
    Axis(Seq<char>),
    DoubleColon,
    Comma,
    Dollar,
    Eof,
}

impl View for Token {
    type V = TokenModel;

    open spec fn view(&self) -> TokenModel {
        match self {
            Token::Slash => TokenModel::Slash,
            Token::DoubleSlash => TokenModel::DoubleSlash,
            Token::Dot => TokenModel::Dot,
            Token::DoubleDot => TokenModel::DoubleDot,
            Token::At => TokenModel::At,
            Token::Pipe => TokenModel::Pipe,
            Token::Plus => TokenModel::Plus,
            Token::Minus => TokenModel::Minus,
            Token::Star => TokenModel::Star,
            Token::Eq => TokenModel::Eq,
            Token::NotEq => TokenModel::NotEq,
            Token::Lt => TokenModel::Lt,
            Token::LtEq => TokenModel::LtEq,
            Token::Gt => TokenModel::Gt,
            Token::GtEq => TokenModel::GtEq,
            Token::And => TokenModel::And,
            Token::Or => TokenModel::Or,
            Token::Mod => TokenModel::Mod,
            Token::Div => TokenModel::Div,
            Token::LeftParen => TokenModel::LeftParen,
            Token::RightParen => TokenModel::RightParen,
            Token::LeftBracket => TokenModel::LeftBracket,
            Token::RightBracket => TokenModel::RightBracket,
            Token::Number(s) => TokenModel::Number(s@),
            Token::String(s) => TokenModel::String(s@),
            Token::Name(s) => TokenModel::Name(s@),
            Token::NameTest(s) => TokenModel::NameTest(s@),
            Token::NodeType(s) => TokenModel::NodeType(s@),
            Token::Axis(s) => TokenModel::Axis(s@),
            Token::DoubleColon => TokenModel::DoubleColon,
            Token::Comma => TokenModel::Comma,
            Token::Dollar => TokenModel::Dollar,
            Token::Eof => TokenModel::Eof,
        }
    }
}

// =============================================================================
// The token grammar
// =============================================================================
/// The first position at or after `p` that holds no whitespace.
pub open spec fn skip_ws(cs: Seq<char>, p: int) -> int
    decreases cs.len() - p,
{
    if 0 <= p < cs.len() && spec_is_whitespace(cs[p]) {
        skip_ws(cs, p + 1)
    } else {
        p
    }
}

/// The end of the run of digits from `p`.
pub open spec fn digits_end(cs: Seq<char>, p: int) -> int
    decreases cs.len() - p,
{
    if 0 <= p < cs.len() && is_digit(cs[p]) {
        digits_end(cs, p + 1)
    } else {
        p
    }
}

/// The end of the run of name characters from `p`.
pub open spec fn name_end(cs: Seq<char>, p: int) -> int
    decreases cs.len() - p,
{
    if 0 <= p < cs.len() && name_char(cs[p]) {
        name_end(cs, p + 1)
    } else {
        p
    }
}

/// The position of the first `q` at or after `p`, or the end.
pub open spec fn quote_end(cs: Seq<char>, p: int, q: char) -> int
    decreases cs.len() - p,
{
    if 0 <= p < cs.len() && cs[p] != q {
        quote_end(cs, p + 1, q)
    } else {
        p
    }
}

/// A number literal from `p`: digits, then a `.` and digits when a digit follows the
/// `.`.
pub open spec fn lex_number(cs: Seq<char>, p: int) -> (TokenModel, int) {
    let a = digits_end(cs, p);
    let b = if a + 1 < cs.len() && cs[a] == '.' && is_digit(cs[a + 1]) {
        digits_end(cs, a + 1)
    } else {
        a
    };
    (TokenModel::Number(cs.subrange(p, b)), b)
}

/// Whether the name is a node type (`node`, `text`, `comment`,
/// `processing-instruction`).
pub open spec fn is_node_type(n: Seq<char>) -> bool {
    n == seq!['n', 'o', 'd', 'e'] || n == seq!['t', 'e', 'x', 't'] || n == seq![
        'c',
        'o',
        'm',
        'm',
        'e',
        'n',
        't',
    ] || n == seq![
        'p',
        'r',
        'o',
        'c',
        'e',
        's',
        's',
        'i',
        'n',
        'g',
        '-',
        'i',
        'n',
        's',
        't',
        'r',
        'u',
        'c',
        't',
        'i',
        'o',
        'n',
    ]
}

/// A name from `p` and what follows it: an operator keyword; an axis name when `::`
/// follows (after whitespace); a node type or function name when `(` follows; a
/// `prefix:*` or `prefix:local` name test when one `:` follows; else a plain name. The
/// whitespace after a name that is not a keyword is consumed.
pub open spec fn lex_name(cs: Seq<char>, p: int) -> (TokenModel, int) {
    let e = name_end(cs, p);
    let name = cs.subrange(p, e);
    if name == seq!['a', 'n', 'd'] {
        (TokenModel::And, e)
    } else if name == seq!['o', 'r'] {
        (TokenModel::Or, e)
    } else if name == seq!['m', 'o', 'd'] {
        (TokenModel::Mod, e)
    } else if name == seq!['d', 'i', 'v'] {
        (TokenModel::Div, e)
    } else {
        let q = skip_ws(cs, e);
        if q + 1 < cs.len() && cs[q] == ':' && cs[q + 1] == ':' {
            (TokenModel::Axis(name), q)
        } else if q < cs.len() && cs[q] == '(' {
            if is_node_type(name) {
                (TokenModel::NodeType(name), q)
            } else {
                (TokenModel::Name(name), q)
            }
        } else if q < cs.len() && cs[q] == ':' {
            if q + 1 < cs.len() && cs[q + 1] == '*' {
                (TokenModel::NameTest(name + seq![':', '*']), q + 2)
            } else {
                let le = name_end(cs, q + 1);
                (TokenModel::NameTest(name + seq![':'] + cs.subrange(q + 1, le)), le)
            }
        } else {
            (TokenModel::Name(name), q)
        }
    }
}

/// The token that starts at or after position `p0` of `cs`, and the position after it.
pub open spec fn lex(cs: Seq<char>, p0: int) -> (TokenModel, int) {
    let p = skip_ws(cs, p0);
    if p >= cs.len() {
        (TokenModel::Eof, p)
    } else {
        let c = cs[p];
        let next = if p + 1 < cs.len() {
            Some(cs[p + 1])
        } else {
            None
        };
        if c == '/' {
            if next == Some('/') {
                (TokenModel::DoubleSlash, p + 2)
            } else {
                (TokenModel::Slash, p + 1)
            }
        } else if c == '.' {
            if next == Some('.') {
                (TokenModel::DoubleDot, p + 2)
            } else if next matches Some(d) && is_digit(d) {
                lex_number(cs, p)
            } else {
                (TokenModel::Dot, p + 1)
            }
        } else if c == '@' {
            (TokenModel::At, p + 1)
        } else if c == '|' {
            (TokenModel::Pipe, p + 1)
        } else if c == '+' {
            (TokenModel::Plus, p + 1)
        } else if c == '-' {
            (TokenModel::Minus, p + 1)
        } else if c == '*' {
            (TokenModel::Star, p + 1)
        } else if c == '=' {
            (TokenModel::Eq, p + 1)
        } else if c == '!' {
            if next == Some('=') {
                (TokenModel::NotEq, p + 2)
            } else {
                (TokenModel::Name(seq!['!']), p + 1)
            }
        } else if c == '<' {
            if next == Some('=') {
                (TokenModel::LtEq, p + 2)
            } else {
                (TokenModel::Lt, p + 1)
            }
        } else if c == '>' {
            if next == Some('=') {
                (TokenModel::GtEq, p + 2)
            } else {
                (TokenModel::Gt, p + 1)
            }
        } else if c == '(' {
            (TokenModel::LeftParen, p + 1)
        } else if c == ')' {
            (TokenModel::RightParen, p + 1)
        } else if c == '[' {
            (TokenModel::LeftBracket, p + 1)
        } else if c == ']' {
            (TokenModel::RightBracket, p + 1)
        } else if c == ',' {
            (TokenModel::Comma, p + 1)
        } else if c == '$' {
            (TokenModel::Dollar, p + 1)
        } else if c == ':' {
            if next == Some(':') {
                (TokenModel::DoubleColon, p + 2)
            } else {
                (TokenModel::Name(seq![':']), p + 1)
            }
        } else if c == '"' || c == '\'' {
            let e = quote_end(cs, p + 1, c);
            (TokenModel::String(cs.subrange(p + 1, e)), if e < cs.len() {
                e + 1
            } else {
                e
            })
        } else if is_digit(c) {
            lex_number(cs, p)
        } else if name_start(c) {
            lex_name(cs, p)
        } else {
            (TokenModel::Name(seq![c]), p + 1)
        }
    }
}

/// The models of tokens.
pub open spec fn views(v: Seq<Token>) -> Seq<TokenModel> {
    v.map_values(|t: Token| t@)
}

/// `toks` are the tokens read one after another from position `p` up to the end
/// (the end itself not included).
pub open spec fn lexes(cs: Seq<char>, p: int, toks: Seq<TokenModel>) -> bool
    decreases toks.len(),
{
    if toks.len() == 0 {
        lex(cs, p).0 == TokenModel::Eof
    } else {
        &&& lex(cs, p).0 == toks[0]
        &&& toks[0] != TokenModel::Eof
        &&& lexes(cs, lex(cs, p).1, toks.drop_first())
    }
}

/// The tokens of an expression, read from its start up to its end.
pub open spec fn lex_all(cs: Seq<char>) -> Seq<TokenModel> {
    choose|toks: Seq<TokenModel>| lexes(cs, 0, toks)
}

/// The tokens read from a position are determined by it.
pub proof fn lemma_lexes_unique(cs: Seq<char>, p: int, a: Seq<TokenModel>, b: Seq<TokenModel>)
    requires
        lexes(cs, p, a),
        lexes(cs, p, b),
    ensures
        a == b,
    decreases a.len(),
{
    if a.len() > 0 && b.len() > 0 {
        lemma_lexes_unique(cs, lex(cs, p).1, a.drop_first(), b.drop_first());
        assert(a =~= seq![a[0]] + a.drop_first());
        assert(b =~= seq![b[0]] + b.drop_first());
    }
}

// =============================================================================
// The lexer
// =============================================================================
/// The string of one character.
fn char_string(c: char) -> (r: String)
    ensures
        r@ == seq![c],
{
    let v: Vec<char> = vec![c];
    assert(v@ =~= seq![c]);
    string_of(v.as_slice())
}

/// The characters of a string, in order.
pub(crate) fn chars_of(s: &str) -> (r: Vec<char>)
    ensures
        r@ == s@,
{
    broadcast use vstd::string::axiom_spec_iter, vstd::string::next_postcondition;

    let mut v: Vec<char> = Vec::new();
    for c in iter: s.chars()
        invariant
            v@ == iter.seq().take(iter.index() as int),
            iter.seq() == s@,
    {
        v.push(c);
    }
    v
}

/// XPath lexer: the expression, its characters, and the position reached
pub struct Lexer<'a> {
    input: &'a str,
    chars: Vec<char>,
    pos: usize,
}

impl<'a> Lexer<'a> {
    /// The expression.
    pub closed spec fn spec_input(&self) -> Seq<char> {
        self.input@
    }

    /// The position reached, in characters.
    pub closed spec fn spec_pos(&self) -> int {
        self.pos as int
    }

    /// The characters are those of the expression and the position lies within them.
    pub closed spec fn wf(&self) -> bool {
        self.chars@ == self.input@ && self.pos <= self.chars@.len()
    }

    /// Create a new lexer
    pub fn new(input: &'a str) -> (r: Self)
        ensures
            r.wf(),
            r.spec_input() == input@,
            r.spec_pos() == 0,
    {
        Lexer { input, chars: chars_of(input), pos: 0 }
    }

    /// The expression
    pub fn input(&self) -> (r: &'a str)
        ensures
            r@ == self.spec_input(),
    {
        self.input
    }

    /// The position reached, in characters
    pub fn position(&self) -> (r: usize)
        ensures
            r == self.spec_pos(),
    {
        self.pos
    }

    /// The first position at or after the current one that holds no whitespace.
    fn skip_ws_from(&self, p: usize) -> (r: usize)
        requires
            self.wf(),
            p <= self.chars@.len(),
        ensures
            r == skip_ws(self.chars@, p as int),
            p <= r <= self.chars@.len(),
    {
        let mut q = p;
        while q < self.chars.len() && char_is_whitespace(self.chars[q])
            invariant
                p <= q <= self.chars@.len(),
                skip_ws(self.chars@, p as int) == skip_ws(self.chars@, q as int),
            decreases self.chars@.len() - q,
        {
            q += 1;
        }
        q
    }

    /// The end of the run of digits from `p`.
    fn digits_end_from(&self, p: usize) -> (r: usize)
        requires
            p <= self.chars@.len(),
        ensures
            r == digits_end(self.chars@, p as int),
            p <= r <= self.chars@.len(),
            p < self.chars@.len() && is_digit(self.chars@[p as int]) ==> p < r,
    {
        let mut q = p;
        while q < self.chars.len() && '0' <= self.chars[q] && self.chars[q] <= '9'
            invariant
                p <= q <= self.chars@.len(),
                digits_end(self.chars@, p as int) == digits_end(self.chars@, q as int),
            decreases self.chars@.len() - q,
        {
            q += 1;
        }
        q
    }

    /// Whether the character may continue a name.
    fn is_name_char(c: char) -> (r: bool)
        ensures
            r == name_char(c),
            spec_is_alphabetic(c) ==> r,
    {
        char_is_alphanumeric(c) || c == '_' || c == '-' || c == '.'
    }

    /// The end of the run of name characters from `p`.
    fn name_end_from(&self, p: usize) -> (r: usize)
        requires
            p <= self.chars@.len(),
        ensures
            r == name_end(self.chars@, p as int),
            p <= r <= self.chars@.len(),
            p < self.chars@.len() && (spec_is_alphabetic(self.chars@[p as int])
                || self.chars@[p as int] == '_') ==> p < r,
    {
        let mut q = p;
        while q < self.chars.len() && Self::is_name_char(self.chars[q])
            invariant
                p <= q <= self.chars@.len(),
                name_end(self.chars@, p as int) == name_end(self.chars@, q as int),
            decreases self.chars@.len() - q,
        {
            q += 1;
        }
        q
    }

    /// The string of the characters from `a` to `b`.
    fn text(&self, a: usize, b: usize) -> (r: String)
        requires
            a <= b <= self.chars@.len(),
        ensures
            r@ == self.chars@.subrange(a as int, b as int),
    {
        let s = &self.chars.as_slice()[a..b];
        string_of(s)
    }

    /// A number literal from `p`.
    fn read_number(&mut self, p: usize) -> (r: Token)
        requires
            old(self).wf(),
            p < old(self).chars@.len(),
        ensures
            final(self).wf(),
            final(self).chars == old(self).chars,
            final(self).input == old(self).input,
            (r@, final(self).spec_pos()) == lex_number(old(self).chars@, p as int),
            is_digit(old(self).chars@[p as int]) || (p + 1 < old(self).chars@.len()
                && old(self).chars@[p as int] == '.' && is_digit(old(self).chars@[p + 1]))
                ==> final(self).spec_pos() > p,
    {
        let a = self.digits_end_from(p);
        let b = if a < self.chars.len() && self.chars[a] == '.' && a + 1 < self.chars.len() && '0'
            <= self.chars[a + 1] && self.chars[a + 1] <= '9' {
            self.digits_end_from(a + 1)
        } else {
            a
        };
        let t = self.text(p, b);
        self.pos = b;
        Token::Number(t)
    }

    /// A name from `p`, an operator keyword, an axis, a node type or a name test.
    fn read_name_or_keyword(&mut self, p: usize) -> (r: Token)
        requires
            old(self).wf(),
            p < old(self).chars@.len(),
            spec_is_alphabetic(old(self).chars@[p as int]) || old(self).chars@[p as int] == '_',
        ensures
            final(self).wf(),
            final(self).chars == old(self).chars,
            final(self).input == old(self).input,
            (r@, final(self).spec_pos()) == lex_name(old(self).chars@, p as int),
            final(self).spec_pos() > p,
    {
        let ghost cs = self.chars@;
        let e = self.name_end_from(p);
        let n = e - p;
        let s = &self.chars.as_slice()[p..e];
        let ghost name = cs.subrange(p as int, e as int);
        assert(s@ == name);
        if n == 3 && s[0] == 'a' && s[1] == 'n' && s[2] == 'd' {
            assert(name =~= seq!['a', 'n', 'd']);
            self.pos = e;
            return Token::And;
        }
        if n == 2 && s[0] == 'o' && s[1] == 'r' {
            assert(name =~= seq!['o', 'r']);
            self.pos = e;
            return Token::Or;
        }
        if n == 3 && s[0] == 'm' && s[1] == 'o' && s[2] == 'd' {
            assert(name =~= seq!['m', 'o', 'd']);
            self.pos = e;
            return Token::Mod;
        }
        if n == 3 && s[0] == 'd' && s[1] == 'i' && s[2] == 'v' {
            assert(name =~= seq!['d', 'i', 'v']);
            self.pos = e;
            return Token::Div;
        }
        proof {
            if name == seq!['a', 'n', 'd'] || name == seq!['m', 'o', 'd'] || name == seq![
                'd',
                'i',
                'v',
            ] {
                assert(name.len() == 3 && name[0] == s@[0] && name[1] == s@[1] && name[2] == s@[2]);
            }
            if name == seq!['o', 'r'] {
                assert(name.len() == 2 && name[0] == s@[0] && name[1] == s@[1]);
            }
        }
        let name_s = string_of(s);
        let q = self.skip_ws_from(e);
        let len = self.chars.len();
        if q < len && self.chars[q] == ':' && q + 1 < len && self.chars[q + 1] == ':' {
            self.pos = q;
            return Token::Axis(name_s);
        }
        if q < len && self.chars[q] == '(' {
            self.pos = q;
            let node_type = (n == 4 && s[0] == 'n' && s[1] == 'o' && s[2] == 'd' && s[3] == 'e')
                || (n == 4 && s[0] == 't' && s[1] == 'e' && s[2] == 'x' && s[3] == 't') || (n
                == 7 && s[0] == 'c' && s[1] == 'o' && s[2] == 'm' && s[3] == 'm' && s[4] == 'e'
                && s[5] == 'n' && s[6] == 't') || (n == 22 && s[0] == 'p' && s[1] == 'r' && s[2]
                == 'o' && s[3] == 'c' && s[4] == 'e' && s[5] == 's' && s[6] == 's' && s[7] == 'i'
                && s[8] == 'n' && s[9] == 'g' && s[10] == '-' && s[11] == 'i' && s[12] == 'n'
                && s[13] == 's' && s[14] == 't' && s[15] == 'r' && s[16] == 'u' && s[17] == 'c'
                && s[18] == 't' && s[19] == 'i' && s[20] == 'o' && s[21] == 'n');
            proof {
                if node_type {
                    assert(is_node_type(name)) by {
                        if n == 4 && s[0] == 'n' {
                            assert(name =~= seq!['n', 'o', 'd', 'e']);
                        } else if n == 4 {
                            assert(name =~= seq!['t', 'e', 'x', 't']);
                        } else if n == 7 {
                            assert(name =~= seq!['c', 'o', 'm', 'm', 'e', 'n', 't']);
                        } else {
                            assert(name =~= seq![
                                'p',
                                'r',
                                'o',
                                'c',
                                'e',
                                's',
                                's',
                                'i',
                                'n',
                                'g',
                                '-',
                                'i',
                                'n',
                                's',
                                't',
                                'r',
                                'u',
                                'c',
                                't',
                                'i',
                                'o',
                                'n',
                            ]);
                        }
                    }
                } else {
                    assert(!is_node_type(name)) by {
                        if is_node_type(name) {
                            assert(forall|k: int| 0 <= k < name.len() ==> name[k] == s@[k]);
                        }
                    }
                }
            }
            if node_type {
                return Token::NodeType(name_s);
            }
            return Token::Name(name_s);
        }
        if q < len && self.chars[q] == ':' {
            let mut t: Vec<char> = vstd::slice::slice_to_vec(s);
            t.push(':');
            if q + 1 < len && self.chars[q + 1] == '*' {
                t.push('*');
                self.pos = q + 2;
                assert(t@ =~= name + seq![':', '*']);
                return Token::NameTest(string_of(t.as_slice()));
            }
            let le = self.name_end_from(q + 1);
            let mut k = q + 1;
            while k < le
                invariant
                    q + 1 <= k <= le <= self.chars@.len(),
                    self.chars@ == cs,
                    t@ == name + seq![':'] + cs.subrange(q + 1, k as int),
                decreases le - k,
            {
                t.push(self.chars[k]);
                assert(cs.subrange(q + 1, k + 1) =~= cs.subrange(q + 1, k as int).push(cs[k as int]));
                k += 1;
            }
            self.pos = le;
            return Token::NameTest(string_of(t.as_slice()));
        }
        self.pos = q;
        Token::Name(name_s)
    }

    /// Get the next token: the token that starts after any whitespace, as `lex` reads
    /// it, and the position after it. Every token but the end moves the position on.
    pub fn next_token(&mut self) -> (r: Token)
        requires
            old(self).wf(),
        ensures
            final(self).wf(),
            final(self).spec_input() == old(self).spec_input(),
            (r@, final(self).spec_pos()) == lex(old(self).spec_input(), old(self).spec_pos()),
            r@ != TokenModel::Eof ==> final(self).spec_pos() > old(self).spec_pos(),
    {
        let ghost cs = self.chars@;
        assert(cs == old(self).spec_input());
        let p = self.skip_ws_from(self.pos);
        let len = self.chars.len();
        if p >= len {
            self.pos = p;
            return Token::Eof;
        }
        let c = self.chars[p];
        let next: Option<char> = if p + 1 < len {
            Some(self.chars[p + 1])
        } else {
            None
        };
        self.pos = p + 1;
        if c == '/' {
            if next == Some('/') {
                self.pos = p + 2;
                Token::DoubleSlash
            } else {
                Token::Slash
            }
        } else if c == '.' {
            if next == Some('.') {
                self.pos = p + 2;
                Token::DoubleDot
            } else if p + 1 < len && '0' <= self.chars[p + 1] && self.chars[p + 1] <= '9' {
                self.pos = p;
                self.read_number(p)
            } else {
                Token::Dot
            }
        } else if c == '@' {
            Token::At
        } else if c == '|' {
            Token::Pipe
        } else if c == '+' {
            Token::Plus
        } else if c == '-' {
            Token::Minus
        } else if c == '*' {
            Token::Star
        } else if c == '=' {
            Token::Eq
        } else if c == '!' {
            if next == Some('=') {
                self.pos = p + 2;
                Token::NotEq
            } else {
                Token::Name(char_string(c))
            }
        } else if c == '<' {
            if next == Some('=') {
                self.pos = p + 2;
                Token::LtEq
            } else {
                Token::Lt
            }
        } else if c == '>' {
            if next == Some('=') {
                self.pos = p + 2;
                Token::GtEq
            } else {
                Token::Gt
            }
        } else if c == '(' {
            Token::LeftParen
        } else if c == ')' {
            Token::RightParen
        } else if c == '[' {
            Token::LeftBracket
        } else if c == ']' {
            Token::RightBracket
        } else if c == ',' {
            Token::Comma
        } else if c == '$' {
            Token::Dollar
        } else if c == ':' {
            if next == Some(':') {
                self.pos = p + 2;
                Token::DoubleColon
            } else {
                Token::Name(char_string(c))
            }
        } else if c == '"' || c == '\'' {
            let mut e = p + 1;
            while e < len && self.chars[e] != c
                invariant
                    p + 1 <= e <= len,
                    len == self.chars@.len(),
                    self.chars@ == cs,
                    quote_end(cs, p + 1, c) == quote_end(cs, e as int, c),
                decreases len - e,
            {
                e += 1;
            }
            let t = self.text(p + 1, e);
            self.pos = if e < len {
                e + 1
            } else {
                e
            };
            Token::String(t)
        } else if '0' <= c && c <= '9' {
            self.pos = p;
            self.read_number(p)
        } else if char_is_alphabetic(c) || c == '_' {
            self.pos = p;
            self.read_name_or_keyword(p)
        } else {
            Token::Name(char_string(c))
        }
    }

    /// Tokenize the rest of the input: the tokens up to the end, which is not included
    pub fn tokenize(&mut self) -> (r: Vec<Token>)
        requires
            old(self).wf(),
        ensures
            final(self).wf(),
            final(self).spec_input() == old(self).spec_input(),
            lexes(old(self).spec_input(), old(self).spec_pos(), views(r@)),
    {
        let ghost cs = self.spec_input();
        let ghost p0 = self.spec_pos();
        let mut tokens: Vec<Token> = Vec::new();
        loop
            invariant
                self.wf(),
                self.spec_input() == cs,
                cs == old(self).spec_input(),
                p0 == old(self).spec_pos(),
                p0 <= self.spec_pos() <= cs.len(),
                forall|rest: Seq<TokenModel>|
                    lexes(cs, self.spec_pos(), rest) ==> lexes(
                        cs,
                        p0,
                        #[trigger] (views(tokens@) + rest),
                    ),
            decreases cs.len() - self.spec_pos(),
        {
            let ghost before = self.spec_pos();
            let ghost toks0 = views(tokens@);
            let token = self.next_token();
            if let Token::Eof = token {
                assert(lexes(cs, before, seq![]));
                assert(toks0 + Seq::<TokenModel>::empty() =~= toks0);
                return tokens;
            }
            let ghost tm = token@;
            tokens.push(token);
            proof {
                assert(views(tokens@) =~= toks0.push(tm));
                assert forall|rest: Seq<TokenModel>|
                    lexes(cs, self.spec_pos(), rest) implies lexes(
                        cs,
                        p0,
                        #[trigger] (views(tokens@) + rest),
                    ) by {
                    let r2 = seq![tm] + rest;
                    assert(r2.drop_first() =~= rest);
                    assert(lexes(cs, before, r2));
                    assert(toks0 + r2 =~= toks0.push(tm) + rest);
                }
            }
        }
    }
}

} // verus!
