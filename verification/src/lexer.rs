//! The lexer: from source text to tokens.

use vstd::prelude::*;

verus! {

/// A token. A floating-point literal keeps its text: digits with one dot
/// among them.
#[derive(Debug, PartialEq)]
pub enum Tk {
    // Delimiters
    LParen,
    RParen,
    LBrace,
    RBrace,
    LSquare,
    RSquare,
    // Simple
    Comma,
    Dot,
    Colon,
    Semicolon,
    // Whitespace
    NewLine,
    // Literals
    LitFloat(String),
    LitInt(isize),
    LitStr(String),
    // Identifiers
    Name(String),
    NameInfix(String),
    // Special
    Eof,
    Error(String),
}

/// The mathematical model of a [`Tk`].
pub enum TkView {
    LParen,
    RParen,
    LBrace,
    RBrace,
    LSquare,
    RSquare,
    Comma,
    Dot,
    Colon,
    Semicolon,
    NewLine,
    LitFloat(Seq<char>),
    LitInt(int),
    LitStr(Seq<char>),
    Name(Seq<char>),
    NameInfix(Seq<char>),
    Eof,
    Error(Seq<char>),
}

impl View for Tk {
    type V = TkView;

    open spec fn view(&self) -> TkView {
        match self {
            Tk::LParen => TkView::LParen,
            Tk::RParen => TkView::RParen,
            Tk::LBrace => TkView::LBrace,
            Tk::RBrace => TkView::RBrace,
            Tk::LSquare => TkView::LSquare,
            Tk::RSquare => TkView::RSquare,
            Tk::Comma => TkView::Comma,
            Tk::Dot => TkView::Dot,
            Tk::Colon => TkView::Colon,
            Tk::Semicolon => TkView::Semicolon,
            Tk::NewLine => TkView::NewLine,
            Tk::LitFloat(s) => TkView::LitFloat(s@),
            Tk::LitInt(n) => TkView::LitInt(*n as int),
            Tk::LitStr(s) => TkView::LitStr(s@),
            Tk::Name(s) => TkView::Name(s@),
            Tk::NameInfix(s) => TkView::NameInfix(s@),
            Tk::Eof => TkView::Eof,
            Tk::Error(s) => TkView::Error(s@),
        }
    }
}

impl Clone for Tk {
    fn clone(&self) -> (r: Tk)
        ensures
            r@ == self@,
    {
        match self {
            Tk::LParen => Tk::LParen,
            Tk::RParen => Tk::RParen,
            Tk::LBrace => Tk::LBrace,
            Tk::RBrace => Tk::RBrace,
            Tk::LSquare => Tk::LSquare,
            Tk::RSquare => Tk::RSquare,
            Tk::Comma => Tk::Comma,
            Tk::Dot => Tk::Dot,
            Tk::Colon => Tk::Colon,
            Tk::Semicolon => Tk::Semicolon,
            Tk::NewLine => Tk::NewLine,
            Tk::LitFloat(s) => Tk::LitFloat(s.clone()),
            Tk::LitInt(n) => Tk::LitInt(*n),
            Tk::LitStr(s) => Tk::LitStr(s.clone()),
            Tk::Name(s) => Tk::Name(s.clone()),
            Tk::NameInfix(s) => Tk::NameInfix(s.clone()),
            Tk::Eof => Tk::Eof,
            Tk::Error(s) => Tk::Error(s.clone()),
        }
    }
}

/// The models of a sequence of tokens, element by element.
pub open spec fn tokens_view(s: Seq<Tk>) -> Seq<TkView> {
    Seq::new(s.len(), |i: int| s[i]@)
}

/// The kinds of character that tokens of more than one character are made
/// of.
#[derive(Clone, Copy, Debug, PartialEq, Eq, Structural)]
pub enum Class {
    /// What a number goes on with: a digit or a dot.
    Number,
    /// What stands in a string literal: anything but the closing quote.
    Text,
    /// What a name goes on with: a letter, a digit or an underscore.
    Name,
    /// What an operator is made of.
    Infix,
}

/// Whether `c` is one of the ten digits.
pub open spec fn is_digit(c: char) -> bool {
    '0' <= c <= '9'
}

/// Whether a name can begin with `c`: a letter or an underscore.
pub open spec fn is_name_start(c: char) -> bool {
    ('a' <= c <= 'z') || ('A' <= c <= 'Z') || c == '_'
}

/// Whether operators are made of `c`.
pub open spec fn is_special_spec(c: char) -> bool {
    c == '!' || c == '@' || c == '$' || c == '%' || c == '^' || c == '&' || c == '*' || c == '-'
        || c == '+' || c == '=' || c == '|' || c == '/' || c == '<' || c == '>'
}

impl Class {
    /// Whether `c` is of this kind.
    pub open spec fn holds(self, c: char) -> bool {
        match self {
            Class::Number => is_digit(c) || c == '.',
            Class::Text => c != '"',
            Class::Name => is_name_start(c) || is_digit(c),
            Class::Infix => is_special_spec(c),
        }
    }
}

/// The first position from `pos` on at which no character of `class`
/// stands.
pub open spec fn run_end(src: Seq<char>, pos: int, class: Class) -> int
    decreases src.len() - pos,
{
    if 0 <= pos < src.len() && class.holds(src[pos]) {
        run_end(src, pos + 1, class)
    } else {
        pos
    }
}

/// A run ends at or behind where it begins, and within the text.
pub proof fn lemma_run_end(src: Seq<char>, pos: int, class: Class)
    requires
        0 <= pos <= src.len(),
    ensures
        pos <= run_end(src, pos, class) <= src.len(),
    decreases src.len() - pos,
{
    if pos < src.len() && class.holds(src[pos]) {
        lemma_run_end(src, pos + 1, class);
    }
}

/// The number that the digits `s` spell in base ten.
pub open spec fn decimal(s: Seq<char>) -> int
    decreases s.len(),
{
    if s.len() == 0 {
        0
    } else {
        decimal(s.drop_last()) * 10 + (s.last() as int - '0' as int)
    }
}

/// How many of the characters of `s` are dots.
pub open spec fn dots(s: Seq<char>) -> int
    decreases s.len(),
{
    if s.len() == 0 {
        0
    } else {
        dots(s.drop_last()) + if s.last() == '.' {
            1int
        } else {
            0int
        }
    }
}

/// What the error token of a number that is none says.
pub open spec fn malformed_number() -> Seq<char> {
    "Malformed Number"@
}

/// What the error token of a string without its closing quote says.
pub open spec fn unterminated_string() -> Seq<char> {
    "Unterminated String"@
}

/// What the error token of a character that begins no token says.
pub open spec fn unexpected_character() -> Seq<char> {
    "Unexpected Character"@
}

/// The token that a run of digits and dots makes: an integer if there is
/// no dot and the number is one of the machine's, a floating-point
/// literal if there is one dot, and an error otherwise.
pub open spec fn number_token(text: Seq<char>) -> TkView {
    if dots(text) == 0 {
        if decimal(text) <= isize::MAX {
            TkView::LitInt(decimal(text))
        } else {
            TkView::Error(malformed_number())
        }
    } else if dots(text) == 1 {
        TkView::LitFloat(text)
    } else {
        TkView::Error(malformed_number())
    }
}

/// The token that `c` makes alone, if it makes one.
pub open spec fn simple_token(c: char) -> Option<TkView> {
    if c == '(' {
        Some(TkView::LParen)
    } else if c == ')' {
        Some(TkView::RParen)
    } else if c == '{' {
        Some(TkView::LBrace)
    } else if c == '}' {
        Some(TkView::RBrace)
    } else if c == '[' {
        Some(TkView::LSquare)
    } else if c == ']' {
        Some(TkView::RSquare)
    } else if c == '.' {
        Some(TkView::Dot)
    } else if c == ',' {
        Some(TkView::Comma)
    } else if c == ':' {
        Some(TkView::Colon)
    } else if c == ';' {
        Some(TkView::Semicolon)
    } else if c == '\n' {
        Some(TkView::NewLine)
    } else {
        None
    }
}

/// Whether `c` is a blank that separates tokens and is none itself.
pub open spec fn is_blank(c: char) -> bool {
    c == '\r' || c == '\t' || c == ' '
}

/// The tokens of `src` from `pos` on. The last one is `Eof`.
pub open spec fn lex_from(src: Seq<char>, pos: int) -> Seq<TkView>
    decreases src.len() - pos,
{
    if pos < 0 || pos >= src.len() {
        seq![TkView::Eof]
    } else {
        let c = src[pos];
        if is_digit(c) {
            let end = run_end(src, pos + 1, Class::Number);
            proof {
                lemma_run_end(src, pos + 1, Class::Number);
            }
            seq![number_token(src.subrange(pos, end))] + lex_from(src, end)
        } else if c == '"' {
            let end = run_end(src, pos + 1, Class::Text);
            proof {
                lemma_run_end(src, pos + 1, Class::Text);
            }
            if end < src.len() {
                seq![TkView::LitStr(src.subrange(pos + 1, end))] + lex_from(src, end + 1)
            } else {
                seq![TkView::Error(unterminated_string())] + lex_from(src, end)
            }
        } else if is_name_start(c) {
            let end = run_end(src, pos + 1, Class::Name);
            proof {
                lemma_run_end(src, pos + 1, Class::Name);
            }
            seq![TkView::Name(src.subrange(pos, end))] + lex_from(src, end)
        } else if is_special_spec(c) {
            let end = run_end(src, pos + 1, Class::Infix);
            proof {
                lemma_run_end(src, pos + 1, Class::Infix);
            }
            seq![TkView::NameInfix(src.subrange(pos, end))] + lex_from(src, end)
        } else if is_blank(c) {
            lex_from(src, pos + 1)
        } else {
            match simple_token(c) {
                Some(t) => seq![t] + lex_from(src, pos + 1),
                None => seq![TkView::Error(unexpected_character())] + lex_from(src, pos + 1),
            }
        }
    }
}

/// The tokens of `src`.
pub open spec fn lex_spec(src: Seq<char>) -> Seq<TkView> {
    lex_from(src, 0)
}

} // verus!

verus! {

/// Whether operators are made of `c`.
#[inline]
pub fn is_special(c: char) -> (b: bool)
    ensures
        b == is_special_spec(c),
{
    c == '!' || c == '@' || c == '$' || c == '%' || c == '^' || c == '&' || c == '*' || c == '-'
        || c == '+' || c == '=' || c == '|' || c == '/' || c == '<' || c == '>'
}

fn digit(c: char) -> (b: bool)
    ensures
        b == is_digit(c),
{
    let u = c as u32;
    48 <= u && u <= 57
}

fn name_start(c: char) -> (b: bool)
    ensures
        b == is_name_start(c),
{
    let u = c as u32;
    (97 <= u && u <= 122) || (65 <= u && u <= 90) || c == '_'
}

impl Class {
    /// Whether `c` is of this kind.
    pub fn test(self, c: char) -> (b: bool)
        ensures
            b == self.holds(c),
    {
        match self {
            Class::Number => digit(c) || c == '.',
            Class::Text => c != '"',
            Class::Name => name_start(c) || digit(c),
            Class::Infix => is_special(c),
        }
    }
}

/// The end of the run of characters of `class` that begins at `from`.
fn scan(chars: &Vec<char>, from: usize, class: Class) -> (end: usize)
    requires
        from <= chars.len(),
    ensures
        end == run_end(chars@, from as int, class),
        from <= end <= chars.len(),
        forall|i: int| from <= i < end ==> class.holds(#[trigger] chars[i]),
{
    let mut i = from;
    while i < chars.len() && class.test(chars[i])
        invariant
            from <= i <= chars.len(),
            run_end(chars@, i as int, class) == run_end(chars@, from as int, class),
            forall|j: int| from <= j < i ==> class.holds(#[trigger] chars[j]),
        decreases chars.len() - i,
    {
        i += 1;
    }
    i
}

proof fn lemma_decimal_nonnegative(s: Seq<char>)
    requires
        forall|i: int| 0 <= i < s.len() ==> is_digit(#[trigger] s[i]),
    ensures
        0 <= decimal(s),
    decreases s.len(),
{
    if s.len() > 0 {
        lemma_decimal_nonnegative(s.drop_last());
    }
}

/// The token of the number that `chars[from .. to]` spell.
fn number(chars: &Vec<char>, from: usize, to: usize) -> (t: Tk)
    requires
        from <= to <= chars.len(),
        forall|i: int| from <= i < to ==> Class::Number.holds(#[trigger] chars[i]),
    ensures
        t@ == number_token(chars@.subrange(from as int, to as int)),
{
    let ghost text = chars@.subrange(from as int, to as int);
    let mut seen: usize = 0;
    let mut value: isize = 0;
    let mut fits = true;
    let mut i = from;
    while i < to
        invariant
            from <= i <= to <= chars.len(),
            text == chars@.subrange(from as int, to as int),
            forall|j: int| from <= j < to ==> Class::Number.holds(#[trigger] chars[j]),
            seen <= 2,
            seen < 2 ==> seen == dots(text.take(i - from)),
            seen == 2 ==> dots(text.take(i - from)) >= 2,
            seen == 0 ==> forall|j: int| 0 <= j < i - from ==> is_digit(#[trigger] text[j]),
            seen == 0 && fits ==> value == decimal(text.take(i - from)),
            seen == 0 && !fits ==> decimal(text.take(i - from)) > isize::MAX,
            0 <= value,
        decreases to - i,
    {
        let c = chars[i];
        let ghost before = text.take(i - from);
        let ghost after = text.take(i + 1 - from);
        proof {
            assert(after.drop_last() =~= before);
            assert(after.last() == c);
        }
        if c == '.' {
            if seen < 2 {
                seen += 1;
            }
        } else if seen == 0 && fits {
            let d = (c as u32 - 48) as isize;
            match value.checked_mul(10) {
                Some(v) => match v.checked_add(d) {
                    Some(w) => {
                        value = w;
                    },
                    None => {
                        fits = false;
                    },
                },
                None => {
                    fits = false;
                },
            }
        } else if seen == 0 {
            proof {
                assert forall|j: int| 0 <= j < after.len() implies is_digit(
                    #[trigger] after[j],
                ) by {
                    assert(after[j] == text[j]);
                }
                lemma_decimal_nonnegative(before);
            }
        }
        i += 1;
    }
    proof {
        assert(text.take(to - from) =~= text);
    }
    if seen == 0 {
        if fits {
            Tk::LitInt(value)
        } else {
            Tk::Error(String::from_str("Malformed Number"))
        }
    } else if seen == 1 {
        Tk::LitFloat(crate::text::string_of(chars, from, to))
    } else {
        Tk::Error(String::from_str("Malformed Number"))
    }
}

/// The token that `c` makes alone, if it makes one.
fn simple(c: char) -> (t: Option<Tk>)
    ensures
        match t {
            Some(t) => simple_token(c) == Some(t@),
            None => simple_token(c) is None,
        },
{
    if c == '(' {
        Some(Tk::LParen)
    } else if c == ')' {
        Some(Tk::RParen)
    } else if c == '{' {
        Some(Tk::LBrace)
    } else if c == '}' {
        Some(Tk::RBrace)
    } else if c == '[' {
        Some(Tk::LSquare)
    } else if c == ']' {
        Some(Tk::RSquare)
    } else if c == '.' {
        Some(Tk::Dot)
    } else if c == ',' {
        Some(Tk::Comma)
    } else if c == ':' {
        Some(Tk::Colon)
    } else if c == ';' {
        Some(Tk::Semicolon)
    } else if c == '\n' {
        Some(Tk::NewLine)
    } else {
        None
    }
}

/// Divides `source` into tokens. The last token is `Eof`. A number that
/// is not one, a string without its closing quote and a character that
/// begins no token each give an `Error` token, and lexing goes on behind
/// them.
pub fn lex(source: String) -> (ts: Vec<Tk>)
    ensures
        tokens_view(ts@) == lex_spec(source@),
{
    let chars = crate::text::chars_of(source.as_str());
    let ghost src = chars@;
    let mut ts: Vec<Tk> = Vec::new();
    let mut pos: usize = 0;
    assert(tokens_view(ts@) + lex_from(src, 0) =~= lex_from(src, 0));
    while pos < chars.len()
        invariant
            pos <= chars.len(),
            src == chars@,
            tokens_view(ts@) + lex_from(src, pos as int) == lex_spec(src),
        decreases chars.len() - pos,
    {
        let c = chars[pos];
        let ghost done = tokens_view(ts@);
        let ghost rest = lex_from(src, pos as int);
        let next: usize;
        let token: Option<Tk>;
        if digit(c) {
            let end = scan(&chars, pos + 1, Class::Number);
            token = Some(number(&chars, pos, end));
            next = end;
        } else if c == '"' {
            let end = scan(&chars, pos + 1, Class::Text);
            if end < chars.len() {
                token = Some(Tk::LitStr(crate::text::string_of(&chars, pos + 1, end)));
                next = end + 1;
            } else {
                token = Some(Tk::Error(String::from_str("Unterminated String")));
                next = end;
            }
        } else if name_start(c) {
            let end = scan(&chars, pos + 1, Class::Name);
            token = Some(Tk::Name(crate::text::string_of(&chars, pos, end)));
            next = end;
        } else if is_special(c) {
            let end = scan(&chars, pos + 1, Class::Infix);
            token = Some(Tk::NameInfix(crate::text::string_of(&chars, pos, end)));
            next = end;
        } else if c == '\r' || c == '\t' || c == ' ' {
            token = None;
            next = pos + 1;
        } else {
            token = match simple(c) {
                Some(t) => Some(t),
                None => Some(Tk::Error(String::from_str("Unexpected Character"))),
            };
            next = pos + 1;
        }
        match token {
            Some(t) => {
                proof {
                    assert(rest =~= seq![t@] + lex_from(src, next as int));
                }
                ts.push(t);
                proof {
                    assert(tokens_view(ts@) =~= done.push(t@));
                    assert(done.push(t@) + lex_from(src, next as int) =~= done + (seq![t@]
                        + lex_from(src, next as int)));
                }
            },
            None => {},
        }
        pos = next;
    }
    let ghost done = tokens_view(ts@);
    proof {
        assert(lex_from(src, pos as int) =~= seq![TkView::Eof]);
        assert(done.push(TkView::Eof) =~= done + seq![TkView::Eof]);
    }
    ts.push(Tk::Eof);
    proof {
        assert(tokens_view(ts@) =~= done.push(TkView::Eof));
    }
    ts
}

} // verus!
