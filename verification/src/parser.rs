//! The parser, in two phases. The first reads the tokens into a tree of
//! delimited lists; the second turns that tree into `Core`, by precedence
//! for the infix operators and by rules for the keywords.

use crate::common::{cores_view, names_view, Core, CoreView};
use crate::lexer::{tokens_view, Tk, TkView};
use crate::value::{Value, ValueView};
use vstd::prelude::*;

verus! {

/// Why tokens do not parse.
#[derive(Debug, Clone, Copy, PartialEq, Eq, Structural)]
pub enum ParseError {
    /// The tokens end within a list.
    UnexpectedEnd,
    /// A token that cannot stand where it stands.
    UnexpectedToken,
    /// A list is to end with a token that ends no list.
    BadDelimiter,
    /// Nothing where an expression is needed.
    EmptyExpression,
    /// A tuple or a list, which have no meaning yet.
    Unsupported,
    /// `if` without `then`, or with the wrong number of parts.
    MalformedIf,
    /// Something else than names before `->`.
    MalformedLambda,
    /// Something else than a name, or `let` and a name, before `=`.
    MalformedAssignment,
    /// A floating-point literal that the context has no value for.
    UnknownFloat,
}

/// The tree that the first phase reads.
#[derive(Debug, PartialEq)]
pub enum Expr {
    /// Expressions side by side, not yet taken apart.
    FExpr(Vec<Expr>),
    Tuple(Vec<Expr>),
    List(Vec<Expr>),
    Block(Vec<Expr>),
    Name(String),
    NameInfix(String),
    LitStr(String),
    /// A floating-point literal, as its text.
    LitFloat(String),
    LitInt(isize),
}

/// The mathematical model of an [`Expr`].
pub enum ExprView {
    FExpr(Seq<ExprView>),
    Tuple(Seq<ExprView>),
    List(Seq<ExprView>),
    Block(Seq<ExprView>),
    Name(Seq<char>),
    NameInfix(Seq<char>),
    LitStr(Seq<char>),
    LitFloat(Seq<char>),
    LitInt(int),
}

/// The model of a tree.
pub open spec fn expr_view(e: Expr) -> ExprView
    decreases e,
{
    match e {
        Expr::FExpr(xs) => ExprView::FExpr(exprs_view(xs@)),
        Expr::Tuple(xs) => ExprView::Tuple(exprs_view(xs@)),
        Expr::List(xs) => ExprView::List(exprs_view(xs@)),
        Expr::Block(xs) => ExprView::Block(exprs_view(xs@)),
        Expr::Name(s) => ExprView::Name(s@),
        Expr::NameInfix(s) => ExprView::NameInfix(s@),
        Expr::LitStr(s) => ExprView::LitStr(s@),
        Expr::LitFloat(s) => ExprView::LitFloat(s@),
        Expr::LitInt(n) => ExprView::LitInt(n as int),
    }
}

/// The models of a sequence of trees, element by element.
pub open spec fn exprs_view(s: Seq<Expr>) -> Seq<ExprView>
    decreases s,
{
    Seq::new(
        s.len(),
        |i: int|
            if 0 <= i < s.len() {
                expr_view(s[i])
            } else {
                ExprView::LitInt(0)
            },
    )
}

impl View for Expr {
    type V = ExprView;

    open spec fn view(&self) -> ExprView {
        expr_view(*self)
    }
}

/// A copy of `xs`.
pub fn clone_exprs(xs: &Vec<Expr>) -> (r: Vec<Expr>)
    ensures
        exprs_view(r@) == exprs_view(xs@),
    decreases xs,
{
    let mut r: Vec<Expr> = Vec::new();
    let mut i: usize = 0;
    while i < xs.len()
        invariant
            i <= xs.len(),
            r.len() == i,
            forall|j: int| 0 <= j < i ==> r[j]@ == xs[j]@,
        decreases xs.len() - i,
    {
        r.push(xs[i].clone());
        i += 1;
    }
    assert(exprs_view(r@) =~= exprs_view(xs@));
    r
}

impl Clone for Expr {
    fn clone(&self) -> (r: Expr)
        ensures
            r@ == self@,
        decreases self,
    {
        match self {
            Expr::FExpr(xs) => Expr::FExpr(clone_exprs(xs)),
            Expr::Tuple(xs) => Expr::Tuple(clone_exprs(xs)),
            Expr::List(xs) => Expr::List(clone_exprs(xs)),
            Expr::Block(xs) => Expr::Block(clone_exprs(xs)),
            Expr::Name(s) => Expr::Name(s.clone()),
            Expr::NameInfix(s) => Expr::NameInfix(s.clone()),
            Expr::LitStr(s) => Expr::LitStr(s.clone()),
            Expr::LitFloat(s) => Expr::LitFloat(s.clone()),
            Expr::LitInt(n) => Expr::LitInt(*n),
        }
    }
}

/// Whether two tokens are the same.
pub fn same_token(a: &Tk, b: &Tk) -> (r: bool)
    ensures
        r == (a@ == b@),
{
    match (a, b) {
        (Tk::LParen, Tk::LParen) => true,
        (Tk::RParen, Tk::RParen) => true,
        (Tk::LBrace, Tk::LBrace) => true,
        (Tk::RBrace, Tk::RBrace) => true,
        (Tk::LSquare, Tk::LSquare) => true,
        (Tk::RSquare, Tk::RSquare) => true,
        (Tk::Comma, Tk::Comma) => true,
        (Tk::Dot, Tk::Dot) => true,
        (Tk::Colon, Tk::Colon) => true,
        (Tk::Semicolon, Tk::Semicolon) => true,
        (Tk::NewLine, Tk::NewLine) => true,
        (Tk::LitFloat(x), Tk::LitFloat(y)) => *x == *y,
        (Tk::LitInt(x), Tk::LitInt(y)) => *x == *y,
        (Tk::LitStr(x), Tk::LitStr(y)) => *x == *y,
        (Tk::Name(x), Tk::Name(y)) => *x == *y,
        (Tk::NameInfix(x), Tk::NameInfix(y)) => *x == *y,
        (Tk::Eof, Tk::Eof) => true,
        (Tk::Error(x), Tk::Error(y)) => *x == *y,
        _ => false,
    }
}

/// The list with the element that `elem` makes behind it: nothing if
/// `elem` is empty, its expression if it has one, all of them side by side
/// if it has more.
pub open spec fn flush(list: Seq<ExprView>, elem: Seq<ExprView>) -> Seq<ExprView> {
    if elem.len() == 0 {
        list
    } else if elem.len() == 1 {
        list.push(elem[0])
    } else {
        list.push(ExprView::FExpr(elem))
    }
}

/// What a list that `end` ends is: parentheses around one element are
/// grouping, around more a tuple; brackets make a list; braces, and the
/// end of the text, make a block.
pub open spec fn close(end: TkView, list: Seq<ExprView>) -> Result<ExprView, ParseError> {
    match end {
        TkView::RParen => if list.len() == 1 {
            Ok(list[0])
        } else {
            Ok(ExprView::Tuple(list))
        },
        TkView::RSquare => Ok(ExprView::List(list)),
        TkView::RBrace | TkView::Eof => Ok(ExprView::Block(list)),
        _ => Err(ParseError::BadDelimiter),
    }
}

/// The expression that a token is by itself, if it is one.
pub open spec fn atom(t: TkView) -> Option<ExprView> {
    match t {
        TkView::LitInt(n) => Some(ExprView::LitInt(n)),
        TkView::LitFloat(s) => Some(ExprView::LitFloat(s)),
        TkView::LitStr(s) => Some(ExprView::LitStr(s)),
        TkView::Name(s) => Some(ExprView::Name(s)),
        TkView::NameInfix(s) => Some(ExprView::NameInfix(s)),
        _ => None,
    }
}

/// The separator, the end and whether a new line separates, for the list
/// that the token `t` opens.
pub open spec fn opens(t: TkView) -> Option<(TkView, TkView, bool)> {
    match t {
        TkView::LBrace => Some((TkView::Semicolon, TkView::RBrace, true)),
        TkView::LParen => Some((TkView::Comma, TkView::RParen, true)),
        TkView::LSquare => Some((TkView::Comma, TkView::RSquare, false)),
        _ => None,
    }
}

/// The list that the tokens from `pos` on make, with `list` read already
/// and `elem` the element at hand, and the position behind its end.
pub open spec fn list_spec(
    ts: Seq<TkView>,
    pos: int,
    sep: TkView,
    end: TkView,
    newline_is_sep: bool,
    list: Seq<ExprView>,
    elem: Seq<ExprView>,
) -> Result<(ExprView, int), ParseError>
    decreases ts.len() - pos,
{
    if pos < 0 || pos >= ts.len() {
        Err(ParseError::UnexpectedEnd)
    } else {
        let t = ts[pos];
        if t == end {
            match close(end, flush(list, elem)) {
                Ok(e) => Ok((e, pos + 1)),
                Err(e) => Err(e),
            }
        } else if t == sep || sep == TkView::Eof || (t == TkView::NewLine && newline_is_sep) {
            list_spec(ts, pos + 1, sep, end, newline_is_sep, flush(list, elem), Seq::empty())
        } else {
            match opens(t) {
                Some((s, e, n)) => match list_spec(ts, pos + 1, s, e, n, Seq::empty(), Seq::empty()) {
                    Err(err) => Err(err),
                    Ok((inner, next)) => if pos < next <= ts.len() {
                        list_spec(ts, next, sep, end, newline_is_sep, list, elem.push(inner))
                    } else {
                        Err(ParseError::UnexpectedEnd)
                    },
                },
                None => match atom(t) {
                    Some(a) => list_spec(ts, pos + 1, sep, end, newline_is_sep, list, elem.push(a)),
                    None => Err(ParseError::UnexpectedToken),
                },
            }
        }
    }
}

/// A list ends behind where it begins, and within the tokens.
pub(crate) proof fn lemma_list_spec(
    ts: Seq<TkView>,
    pos: int,
    sep: TkView,
    end: TkView,
    newline_is_sep: bool,
    list: Seq<ExprView>,
    elem: Seq<ExprView>,
)
    ensures
        list_spec(ts, pos, sep, end, newline_is_sep, list, elem) matches Ok((_, next)) ==> pos
            < next <= ts.len(),
    decreases ts.len() - pos,
{
    if 0 <= pos < ts.len() {
        let t = ts[pos];
        if t == end {
        } else if t == sep || sep == TkView::Eof || (t == TkView::NewLine && newline_is_sep) {
            lemma_list_spec(ts, pos + 1, sep, end, newline_is_sep, flush(list, elem), Seq::empty());
        } else {
            match opens(t) {
                Some((s, e, n)) => {
                    lemma_list_spec(ts, pos + 1, s, e, n, Seq::empty(), Seq::empty());
                    match list_spec(ts, pos + 1, s, e, n, Seq::empty(), Seq::empty()) {
                        Ok((inner, next)) => {
                            lemma_list_spec(
                                ts,
                                next,
                                sep,
                                end,
                                newline_is_sep,
                                list,
                                elem.push(inner),
                            );
                        },
                        Err(_) => {},
                    }
                },
                None => match atom(t) {
                    Some(a) => {
                        lemma_list_spec(ts, pos + 1, sep, end, newline_is_sep, list, elem.push(a));
                    },
                    None => {},
                },
            }
        }
    }
}

/// The first phase of the parser: a reader of delimited lists.
pub struct LowerParser {
    tokens: Vec<Tk>,
    current: usize,
}

/// The mathematical model of a [`LowerParser`]: its tokens and how many
/// of them it has read.
pub struct LowerParserView {
    pub tokens: Seq<TkView>,
    pub current: int,
}

impl View for LowerParser {
    type V = LowerParserView;

    closed spec fn view(&self) -> LowerParserView {
        LowerParserView { tokens: tokens_view(self.tokens@), current: self.current as int }
    }
}

impl LowerParser {
    /// A reader at the first of the tokens `ts`.
    pub fn new(ts: Vec<Tk>) -> (p: LowerParser)
        ensures
            p@ == (LowerParserView { tokens: tokens_view(ts@), current: 0 }),
    {
        LowerParser { tokens: ts, current: 0 }
    }

    /// Reads the whole text: a block of expressions that semicolons and
    /// new lines separate.
    pub fn parse(&mut self) -> (r: Result<Expr, ParseError>)
        ensures
            final(self)@.tokens == old(self)@.tokens,
            match r {
                Ok(e) => list_spec(
                    old(self)@.tokens,
                    old(self)@.current,
                    TkView::Semicolon,
                    TkView::Eof,
                    true,
                    Seq::empty(),
                    Seq::empty(),
                ) == Ok::<(ExprView, int), ParseError>((e@, final(self)@.current)),
                Err(err) => list_spec(
                    old(self)@.tokens,
                    old(self)@.current,
                    TkView::Semicolon,
                    TkView::Eof,
                    true,
                    Seq::empty(),
                    Seq::empty(),
                ) == Err::<(ExprView, int), ParseError>(err),
            },
    {
        self.list_expr(Tk::Semicolon, Tk::Eof, true)
    }

    /// Reads a list up to the token `end`. The token `sep` separates its
    /// elements, and so does a new line if `newline_is_sep`.
    pub fn list_expr(&mut self, sep: Tk, end: Tk, newline_is_sep: bool) -> (r: Result<
        Expr,
        ParseError,
    >)
        ensures
            final(self)@.tokens == old(self)@.tokens,
            match r {
                Ok(e) => list_spec(
                    old(self)@.tokens,
                    old(self)@.current,
                    sep@,
                    end@,
                    newline_is_sep,
                    Seq::empty(),
                    Seq::empty(),
                ) == Ok::<(ExprView, int), ParseError>((e@, final(self)@.current)),
                Err(err) => list_spec(
                    old(self)@.tokens,
                    old(self)@.current,
                    sep@,
                    end@,
                    newline_is_sep,
                    Seq::empty(),
                    Seq::empty(),
                ) == Err::<(ExprView, int), ParseError>(err),
            },
        decreases old(self)@.tokens.len() - old(self)@.current,
    {
        let ghost ts = self@.tokens;
        let ghost start = self@.current;
        let mut list: Vec<Expr> = Vec::new();
        let mut elem: Vec<Expr> = Vec::new();
        proof {
            assert(exprs_view(list@) =~= Seq::empty());
            assert(exprs_view(elem@) =~= Seq::empty());
        }
        loop
            invariant
                self@.tokens == ts,
                ts == old(self)@.tokens,
                start == old(self)@.current,
                start <= self.current,
                self.current <= self.tokens.len() || start == self.current,
                list_spec(
                    ts,
                    self@.current,
                    sep@,
                    end@,
                    newline_is_sep,
                    exprs_view(list@),
                    exprs_view(elem@),
                ) == list_spec(
                    ts,
                    start,
                    sep@,
                    end@,
                    newline_is_sep,
                    Seq::empty(),
                    Seq::empty(),
                ),
            decreases self.tokens.len() - self.current,
        {
            if self.current >= self.tokens.len() {
                return Err(ParseError::UnexpectedEnd);
            }
            let pos = self.current;
            let ghost sofar = exprs_view(list@);
            let ghost part = exprs_view(elem@);
            if same_token(&self.tokens[pos], &end) {
                flush_into(&mut list, elem);
                self.current = pos + 1;
                return close_list(&end, list);
            }
            let separates = same_token(&self.tokens[pos], &sep) || matches!(sep, Tk::Eof) || (
            newline_is_sep && matches!(self.tokens[pos], Tk::NewLine));
            if separates {
                flush_into(&mut list, elem);
                elem = Vec::new();
                proof {
                    assert(exprs_view(elem@) =~= Seq::empty());
                }
                self.current = pos + 1;
            } else {
                let inner = match &self.tokens[pos] {
                    Tk::LBrace => Some((Tk::Semicolon, Tk::RBrace, true)),
                    Tk::LParen => Some((Tk::Comma, Tk::RParen, true)),
                    Tk::LSquare => Some((Tk::Comma, Tk::RSquare, false)),
                    _ => None,
                };
                match inner {
                    Some((s, e, n)) => {
                        self.current = pos + 1;
                        proof {
                            lemma_list_spec(ts, pos + 1, s@, e@, n, Seq::empty(), Seq::empty());
                        }
                        let x = match self.list_expr(s, e, n) {
                            Ok(x) => x,
                            Err(err) => {
                                return Err(err);
                            },
                        };
                        elem.push(x);
                        proof {
                            assert(exprs_view(elem@) =~= part.push(x@));
                        }
                    },
                    None => {
                        let a = match &self.tokens[pos] {
                            Tk::LitInt(n) => Expr::LitInt(*n),
                            Tk::LitFloat(s) => Expr::LitFloat(s.clone()),
                            Tk::LitStr(s) => Expr::LitStr(s.clone()),
                            Tk::Name(s) => Expr::Name(s.clone()),
                            Tk::NameInfix(s) => Expr::NameInfix(s.clone()),
                            _ => {
                                return Err(ParseError::UnexpectedToken);
                            },
                        };
                        elem.push(a);
                        proof {
                            assert(exprs_view(elem@) =~= part.push(a@));
                        }
                        self.current = pos + 1;
                    },
                }
            }
        }
    }
}

/// Puts the element that `elem` makes behind `list`.
fn flush_into(list: &mut Vec<Expr>, elem: Vec<Expr>)
    ensures
        exprs_view(final(list)@) == flush(exprs_view(old(list)@), exprs_view(elem@)),
{
    let ghost before = exprs_view(list@);
    let mut elem = elem;
    if elem.len() == 0 {
    } else if elem.len() == 1 {
        let x = elem.pop().unwrap();
        list.push(x);
        assert(exprs_view(list@) =~= before.push(x@));
    } else {
        let ghost part = exprs_view(elem@);
        let x = Expr::FExpr(elem);
        list.push(x);
        assert(exprs_view(list@) =~= before.push(ExprView::FExpr(part)));
    }
}

/// Makes of `list` what the token `end` ends.
fn close_list(end: &Tk, list: Vec<Expr>) -> (r: Result<Expr, ParseError>)
    ensures
        match r {
            Ok(e) => close(end@, exprs_view(list@)) == Ok::<ExprView, ParseError>(e@),
            Err(err) => close(end@, exprs_view(list@)) == Err::<ExprView, ParseError>(err),
        },
{
    let mut list = list;
    match end {
        Tk::RParen => {
            if list.len() == 1 {
                let x = list.pop().unwrap();
                Ok(x)
            } else {
                Ok(Expr::Tuple(list))
            }
        },
        Tk::RSquare => Ok(Expr::List(list)),
        Tk::RBrace | Tk::Eof => Ok(Expr::Block(list)),
        _ => Err(ParseError::BadDelimiter),
    }
}

} // verus!

verus! {

/// The rules for the keywords that begin an expression.
#[derive(Debug, Clone, Copy, PartialEq, Eq, Structural)]
pub enum PrefixRule {
    /// `return expr`
    Return,
    /// `break`
    Break,
    /// `continue`
    Continue,
    /// `if cond then expr` or `if cond then expr else expr`
    If,
    /// `loop expr`
    Loop,
}

/// The rules for the infix operators that are no calls.
#[derive(Debug, Clone, Copy, PartialEq, Eq, Structural)]
pub enum InfixRule {
    /// `names -> body`
    Lambda,
    /// `name = value` or `let name = value`
    Assign,
}

/// What the second phase goes by: the infix operators from the one that
/// binds tightest to the one that binds loosest (the first entry stands
/// for application and is no operator), the rules of some of them, the
/// rules of the keywords, and the values of the floating-point literals
/// of the text.
pub struct ParserContext {
    infix_operators: Vec<String>,
    infix_macros: Vec<(String, InfixRule)>,
    prefix_macros: Vec<(String, PrefixRule)>,
    floats: Vec<(String, u64)>,
}

/// The mathematical model of a [`ParserContext`].
pub struct ParserContextView {
    pub ops: Seq<Seq<char>>,
    pub infix: Seq<(Seq<char>, InfixRule)>,
    pub prefix: Seq<(Seq<char>, PrefixRule)>,
    pub floats: Seq<(Seq<char>, u64)>,
}

/// The model of a table: its entries with the models of their names.
pub open spec fn table_view<R>(t: Seq<(String, R)>) -> Seq<(Seq<char>, R)> {
    Seq::new(t.len(), |i: int| (t[i].0@, t[i].1))
}

impl View for ParserContext {
    type V = ParserContextView;

    closed spec fn view(&self) -> ParserContextView {
        ParserContextView {
            ops: names_view(self.infix_operators@),
            infix: table_view(self.infix_macros@),
            prefix: table_view(self.prefix_macros@),
            floats: table_view(self.floats@),
        }
    }
}

/// What the first entry of `table` from `from` on with the name `name`
/// holds.
pub open spec fn lookup<R>(table: Seq<(Seq<char>, R)>, name: Seq<char>, from: int) -> Option<R>
    decreases table.len() - from,
{
    if from < 0 || from >= table.len() {
        None
    } else if table[from].0 == name {
        Some(table[from].1)
    } else {
        lookup(table, name, from + 1)
    }
}

/// The size of a tree: the number of its nodes.
pub open spec fn weight(e: ExprView) -> nat
    decreases e,
{
    match e {
        ExprView::FExpr(xs) => 1 + weights(xs),
        ExprView::Tuple(xs) => 1 + weights(xs),
        ExprView::List(xs) => 1 + weights(xs),
        ExprView::Block(xs) => 1 + weights(xs),
        _ => 1,
    }
}

/// The size of a sequence of trees.
pub open spec fn weights(s: Seq<ExprView>) -> nat
    decreases s,
{
    if s.len() == 0 {
        0
    } else {
        weights(s.drop_last()) + weight(s.last())
    }
}

/// Every tree has a node.
pub proof fn lemma_weight_positive(e: ExprView)
    ensures
        weight(e) >= 1,
{
}

/// The size of two sequences one behind the other is the sum of their
/// sizes.
pub proof fn lemma_weights_concat(a: Seq<ExprView>, b: Seq<ExprView>)
    ensures
        weights(a + b) == weights(a) + weights(b),
    decreases b.len(),
{
    if b.len() == 0 {
        assert(a + b =~= a);
    } else {
        lemma_weights_concat(a, b.drop_last());
        assert((a + b).drop_last() =~= a + b.drop_last());
        assert((a + b).last() == b.last());
    }
}

/// A part of a sequence is no larger than the sequence, and smaller by
/// what is left out.
pub proof fn lemma_weights_subrange(s: Seq<ExprView>, from: int, to: int)
    requires
        0 <= from <= to <= s.len(),
    ensures
        weights(s) == weights(s.subrange(0, from)) + weights(s.subrange(from, to)) + weights(
            s.subrange(to, s.len() as int),
        ),
        weights(s.subrange(from, to)) <= weights(s),
{
    let a = s.subrange(0, from);
    let b = s.subrange(from, to);
    let c = s.subrange(to, s.len() as int);
    lemma_weights_concat(a, b);
    lemma_weights_concat(a + b, c);
    assert(a + b + c =~= s);
}

/// A sequence of one tree is as large as the tree.
pub proof fn lemma_weights_single(e: ExprView)
    ensures
        weights(seq![e]) == weight(e),
{
    assert(seq![e].drop_last() =~= Seq::<ExprView>::empty());
    assert(weights(Seq::<ExprView>::empty()) == 0);
}

/// An element is no larger than its sequence; a sequence of more than
/// one element is larger than each of them.
pub proof fn lemma_weights_index(s: Seq<ExprView>, i: int)
    requires
        0 <= i < s.len(),
    ensures
        weight(s[i]) <= weights(s),
        s.len() >= 2 ==> weight(s[i]) < weights(s),
        weights(s) >= s.len(),
    decreases s.len(),
{
    lemma_weights_length(s);
    lemma_weights_subrange(s, i, i + 1);
    assert(s.subrange(i, i + 1) =~= seq![s[i]]);
    lemma_weights_single(s[i]);
    if s.len() >= 2 {
        if i > 0 {
            lemma_weights_length(s.subrange(0, i));
        } else {
            lemma_weights_length(s.subrange(i + 1, s.len() as int));
        }
    }
}

/// A sequence is at least as large as it is long.
pub proof fn lemma_weights_length(s: Seq<ExprView>)
    ensures
        weights(s) >= s.len(),
    decreases s.len(),
{
    if s.len() > 0 {
        lemma_weights_length(s.drop_last());
        lemma_weight_positive(s.last());
    }
}

/// The word between the condition and the first branch of an `if`.
pub open spec fn then_word() -> Seq<char> {
    "then"@
}

/// The word between the two branches of an `if`.
pub open spec fn else_word() -> Seq<char> {
    "else"@
}

/// The word that makes an assignment a declaration.
pub open spec fn let_word() -> Seq<char> {
    "let"@
}

impl ParserContextView {
    /// Whether the operator `op` stands at `idx`.
    pub open spec fn check_infix(self, fexpr: Seq<ExprView>, idx: int, op: int) -> bool {
        0 <= idx < fexpr.len() && 0 <= op < self.ops.len() && fexpr[idx] == ExprView::NameInfix(
            self.ops[op],
        )
    }

    /// The first position from `idx` on at which the operator `op`
    /// stands; the end if it stands nowhere.
    pub open spec fn find_infix(self, fexpr: Seq<ExprView>, idx: int, op: int) -> int
        decreases fexpr.len() - idx,
    {
        if idx < 0 || idx >= fexpr.len() {
            fexpr.len() as int
        } else if self.check_infix(fexpr, idx, op) {
            idx
        } else {
            self.find_infix(fexpr, idx + 1, op)
        }
    }

    /// The operator is found at or behind where the search begins, and
    /// where it is found it stands.
    pub proof fn lemma_find_infix(self, fexpr: Seq<ExprView>, idx: int, op: int)
        requires
            0 <= idx <= fexpr.len(),
        ensures
            idx <= self.find_infix(fexpr, idx, op) <= fexpr.len(),
            self.find_infix(fexpr, idx, op) < fexpr.len() ==> self.check_infix(
                fexpr,
                self.find_infix(fexpr, idx, op),
                op,
            ),
        decreases fexpr.len() - idx,
    {
        if idx < fexpr.len() && !self.check_infix(fexpr, idx, op) {
            self.lemma_find_infix(fexpr, idx + 1, op);
        }
    }

    /// The names that `args` are, if they are names.
    pub open spec fn param_names(self, args: Seq<ExprView>, i: int) -> Result<
        Seq<Seq<char>>,
        ParseError,
    >
        decreases args.len() - i,
    {
        if i < 0 || i >= args.len() {
            Ok(Seq::empty())
        } else {
            match args[i] {
                ExprView::Name(n) => match self.param_names(args, i + 1) {
                    Ok(rest) => Ok(seq![n] + rest),
                    Err(e) => Err(e),
                },
                _ => Err(ParseError::MalformedLambda),
            }
        }
    }

    /// What the expressions `fexpr` side by side mean.
    pub open spec fn parse_seq(self, fexpr: Seq<ExprView>) -> Result<CoreView, ParseError>
        decreases weights(fexpr), self.ops.len() + 2, 0nat, 0nat,
    {
        match self.parse_infix(fexpr, 0, self.ops.len() - 1) {
            Ok((core, _)) => Ok(core),
            Err(e) => Err(e),
        }
    }

    /// What `fexpr` from `idx` on means up to the first operator that
    /// binds looser than `op`, and where that operator stands.
    pub open spec fn parse_infix(self, fexpr: Seq<ExprView>, idx: int, op: int) -> Result<
        (CoreView, int),
        ParseError,
    >
        decreases weights(fexpr), if 0 < op < self.ops.len() {
            (op + 1) as nat
        } else {
            1nat
        }, 1nat, 0nat,
    {
        if op <= 0 || op >= self.ops.len() || idx < 0 || idx > fexpr.len() {
            self.parse_prefix(fexpr, idx)
        } else {
            let at = self.find_infix(fexpr, idx, op);
            match lookup(self.infix, self.ops[op], 0) {
                Some(rule) if at < fexpr.len() => {
                    let end = self.find_infix(fexpr, at + 1, op);
                    proof {
                        self.lemma_find_infix(fexpr, idx, op);
                        self.lemma_find_infix(fexpr, at + 1, op);
                        lemma_weights_subrange(fexpr, idx, at);
                        lemma_weights_subrange(fexpr, at + 1, end);
                        lemma_weights_subrange(fexpr, idx, end);
                        lemma_weights_subrange(fexpr.subrange(idx, end), 0, at - idx);
                        assert(fexpr.subrange(idx, end).subrange(0, at - idx) =~= fexpr.subrange(
                            idx,
                            at,
                        ));
                        lemma_weights_subrange(fexpr.subrange(idx, end), at - idx, at - idx + 1);
                        assert(fexpr.subrange(idx, end).subrange(at - idx + 1, end - idx)
                            =~= fexpr.subrange(at + 1, end));
                        assert(fexpr.subrange(idx, end).subrange(at - idx, at - idx + 1)
                            =~= seq![fexpr[at]]);
                        lemma_weights_single(fexpr[at]);
                    }
                    match self.infix_macro(
                        rule,
                        fexpr.subrange(idx, at),
                        fexpr.subrange(at + 1, end),
                    ) {
                        Ok(core) => Ok((core, end)),
                        Err(e) => Err(e),
                    }
                },
                _ => match self.parse_infix(fexpr, idx, op - 1) {
                    Ok((left, next)) => self.infix_tail(fexpr, next, op, left),
                    Err(e) => Err(e),
                },
            }
        }
    }

    /// What `left` and the operands that the operator `op` joins to it
    /// from `idx` on mean.
    pub open spec fn infix_tail(self, fexpr: Seq<ExprView>, idx: int, op: int, left: CoreView) -> Result<
        (CoreView, int),
        ParseError,
    >
        decreases weights(fexpr), if 0 < op < self.ops.len() {
            (op + 1) as nat
        } else {
            1nat
        }, 0nat, fexpr.len() - idx,
    {
        if 0 < op < self.ops.len() && self.check_infix(fexpr, idx, op) {
            match self.parse_infix(fexpr, idx + 1, op - 1) {
                Ok((right, next)) => if idx < next <= fexpr.len() {
                    self.infix_tail(
                        fexpr,
                        next,
                        op,
                        CoreView::Call(
                            Box::new(CoreView::Get(self.ops[op])),
                            seq![left, right],
                        ),
                    )
                } else {
                    Err(ParseError::UnexpectedEnd)
                },
                Err(e) => Err(e),
            }
        } else {
            Ok((left, idx))
        }
    }

    /// What `left`, the operator of the rule `rule` and `right` mean.
    pub open spec fn infix_macro(self, rule: InfixRule, left: Seq<ExprView>, right: Seq<ExprView>) -> Result<
        CoreView,
        ParseError,
    >
        decreases weights(left) + weights(right) + 1, 0nat, 0nat, 0nat,
    {
        match rule {
            InfixRule::Lambda => match self.param_names(left, 0) {
                Err(e) => Err(e),
                Ok(names) => match self.parse_seq(right) {
                    Err(e) => Err(e),
                    Ok(body) => Ok(CoreView::Lambda(names, Box::new(CoreView::Block(seq![body])))),
                },
            },
            InfixRule::Assign => if left.len() == 0 || left.len() > 2 {
                Err(ParseError::MalformedAssignment)
            } else {
                match left.last() {
                    ExprView::Name(n) => match self.parse_seq(right) {
                        Err(e) => Err(e),
                        Ok(value) => if left.len() == 1 {
                            Ok(CoreView::Assign(n, Box::new(value)))
                        } else if left[0] == ExprView::Name(let_word()) {
                            Ok(CoreView::Let(n, Box::new(value)))
                        } else {
                            Err(ParseError::MalformedAssignment)
                        },
                    },
                    _ => Err(ParseError::MalformedAssignment),
                }
            },
        }
    }

    /// What the keyword of the rule `rule` with `body` behind it means.
    pub open spec fn prefix_macro(self, rule: PrefixRule, body: Seq<ExprView>) -> Result<
        CoreView,
        ParseError,
    >
        decreases weights(body) + 1, 0nat, 0nat, 0nat,
    {
        match rule {
            PrefixRule::Return => match self.parse_seq(body) {
                Ok(x) => Ok(CoreView::Return(Box::new(x))),
                Err(e) => Err(e),
            },
            PrefixRule::Break => Ok(CoreView::Break),
            PrefixRule::Continue => Ok(CoreView::Continue),
            PrefixRule::Loop => match self.parse_seq(body) {
                Ok(x) => Ok(CoreView::Loop(Box::new(x))),
                Err(e) => Err(e),
            },
            PrefixRule::If => if (body.len() == 3 || body.len() == 5) && body[1] is Name {
                if body[1] != ExprView::Name(then_word()) {
                    Err(ParseError::MalformedIf)
                } else if body.len() == 5 && body[3] is Name && body[3] != ExprView::Name(
                    else_word(),
                ) {
                    Err(ParseError::MalformedIf)
                } else {
                    let otherwise = if body.len() == 5 && body[3] is Name {
                        body[4]
                    } else {
                        ExprView::LitInt(0)
                    };
                    proof {
                        lemma_weights_index(body, 0);
                        lemma_weights_index(body, 2);
                        if body.len() == 5 {
                            lemma_weights_index(body, 4);
                        }
                        lemma_weights_single(body[0]);
                        lemma_weights_single(body[2]);
                        lemma_weights_single(otherwise);
                    }
                    match self.parse_seq(seq![body[0]]) {
                        Err(e) => Err(e),
                        Ok(c) => match self.parse_seq(seq![body[2]]) {
                            Err(e) => Err(e),
                            Ok(t) => match self.parse_seq(seq![otherwise]) {
                                Err(e) => Err(e),
                                Ok(e) => Ok(CoreView::If(Box::new(c), Box::new(t), Box::new(e))),
                            },
                        },
                    }
                }
            } else {
                Err(ParseError::MalformedIf)
            },
        }
    }

    /// What `fexpr` from `idx` on means up to the first operator: what a
    /// keyword at `idx` makes of all of `fexpr` behind its first
    /// expression, else the first expression alone, or called with the
    /// others as its arguments.
    pub open spec fn parse_prefix(self, fexpr: Seq<ExprView>, idx: int) -> Result<
        (CoreView, int),
        ParseError,
    >
        decreases weights(fexpr), 1nat, 0nat, 1nat,
    {
        let rule = if 0 <= idx < fexpr.len() {
            match fexpr[idx] {
                ExprView::Name(x) => lookup(self.prefix, x, 0),
                _ => None,
            }
        } else {
            None
        };
        match rule {
            Some(rule) => {
                proof {
                    lemma_weights_subrange(fexpr, 1, fexpr.len() as int);
                    assert(fexpr.subrange(0, 1) =~= seq![fexpr[0]]);
                    lemma_weights_single(fexpr[0]);
                }
                match self.prefix_macro(rule, fexpr.subrange(1, fexpr.len() as int)) {
                    Ok(core) => Ok((core, idx)),
                    Err(e) => Err(e),
                }
            },
            None => self.prefix_tail(fexpr, idx, Seq::empty()),
        }
    }

    /// What the operands `fcall` and those of `fexpr` from `idx` on up to
    /// the first operator mean.
    pub open spec fn prefix_tail(self, fexpr: Seq<ExprView>, idx: int, fcall: Seq<CoreView>) -> Result<
        (CoreView, int),
        ParseError,
    >
        decreases weights(fexpr), 1nat, 0nat, 0nat, fexpr.len() - idx,
    {
        if idx < 0 || idx >= fexpr.len() || fexpr[idx] is NameInfix {
            if fcall.len() == 0 {
                Err(ParseError::EmptyExpression)
            } else if fcall.len() == 1 {
                Ok((fcall[0], idx))
            } else {
                Ok((CoreView::Call(Box::new(fcall[0]), fcall.subrange(1, fcall.len() as int)), idx))
            }
        } else {
            proof {
                lemma_weights_index(fexpr, idx);
            }
            match self.operand(fexpr[idx]) {
                Ok(arg) => self.prefix_tail(fexpr, idx + 1, fcall.push(arg)),
                Err(e) => Err(e),
            }
        }
    }

    /// What one operand means.
    pub open spec fn operand(self, x: ExprView) -> Result<CoreView, ParseError>
        decreases weight(x), 0nat, 0nat, 3nat,
    {
        match x {
            ExprView::LitStr(s) => Ok(CoreView::Lit(ValueView::Str(s))),
            ExprView::LitFloat(t) => match lookup(self.floats, t, 0) {
                Some(bits) => Ok(CoreView::Lit(ValueView::Float(bits))),
                None => Err(ParseError::UnknownFloat),
            },
            ExprView::LitInt(i) => Ok(CoreView::Lit(ValueView::Int(i))),
            ExprView::FExpr(xs) => self.parse_seq(xs),
            ExprView::Block(xs) => match self.block_items(xs, 0) {
                Ok(items) => Ok(CoreView::Block(items)),
                Err(e) => Err(e),
            },
            ExprView::Name(n) => Ok(CoreView::Get(n)),
            _ => Err(ParseError::Unsupported),
        }
    }

    /// What the expressions `xs[i ..]` of a block mean, each by itself.
    pub open spec fn block_items(self, xs: Seq<ExprView>, i: int) -> Result<
        Seq<CoreView>,
        ParseError,
    >
        decreases weights(xs) + 1, 0nat, 0nat, 2nat, xs.len() - i,
    {
        if i < 0 || i >= xs.len() {
            Ok(Seq::empty())
        } else {
            proof {
                lemma_weights_index(xs, i);
                lemma_weights_single(xs[i]);
            }
            match self.parse_seq(seq![xs[i]]) {
                Err(e) => Err(e),
                Ok(first) => match self.block_items(xs, i + 1) {
                    Err(e) => Err(e),
                    Ok(rest) => Ok(seq![first] + rest),
                },
            }
        }
    }
}

} // verus!

verus! {

/// What the first entry of `table` with the name `name` holds.
fn find<R: Copy>(table: &Vec<(String, R)>, name: &String) -> (r: Option<R>)
    ensures
        r == lookup(table_view(table@), name@, 0),
{
    let mut i: usize = 0;
    while i < table.len()
        invariant
            i <= table.len(),
            lookup(table_view(table@), name@, 0) == lookup(table_view(table@), name@, i as int),
        decreases table.len() - i,
    {
        if table[i].0 == *name {
            return Some(table[i].1);
        }
        i += 1;
    }
    None
}

impl ParserContext {
    /// A context with the infix operators `infix_operators`, from the one
    /// that binds tightest on, and the rules `infix_macros` and
    /// `prefix_macros`. It knows no floating-point literal yet.
    pub fn new(
        infix_operators: Vec<String>,
        infix_macros: Vec<(String, InfixRule)>,
        prefix_macros: Vec<(String, PrefixRule)>,
    ) -> (c: ParserContext)
        ensures
            c@ == (ParserContextView {
                ops: names_view(infix_operators@),
                infix: table_view(infix_macros@),
                prefix: table_view(prefix_macros@),
                floats: Seq::empty(),
            }),
    {
        let c = ParserContext { infix_operators, infix_macros, prefix_macros, floats: Vec::new() };
        assert(c@.floats =~= Seq::empty());
        c
    }

    /// Tells the context that the floating-point literal `text` is the
    /// double with the bit pattern `bits`.
    pub fn define_float(&mut self, text: String, bits: u64)
        ensures
            final(self)@ == (ParserContextView {
                floats: old(self)@.floats.push((text@, bits)),
                ..old(self)@
            }),
    {
        self.floats.push((text, bits));
        assert(self@.floats =~= old(self)@.floats.push((text@, bits)));
    }

    /// Whether the context knows the floating-point literal `text`.
    pub fn knows_float(&self, text: &String) -> (b: bool)
        ensures
            b == lookup(self@.floats, text@, 0).is_some(),
    {
        find(&self.floats, text).is_some()
    }
}

/// The second phase of the parser, at work on expressions side by side.
pub struct HigherParser<'a> {
    fexpr: Vec<Expr>,
    current_idx: usize,
    ctx: &'a ParserContext,
}

impl<'a> HigherParser<'a> {
    /// The expressions that the parser works on.
    pub closed spec fn fexpr(&self) -> Seq<ExprView> {
        exprs_view(self.fexpr@)
    }

    /// How many of them it has read.
    pub closed spec fn idx(&self) -> int {
        self.current_idx as int
    }

    /// What the parser goes by.
    pub closed spec fn context(&self) -> ParserContextView {
        self.ctx@
    }

    /// A parser at the first of the expressions `fexpr`, which goes by `ctx`.
    pub fn new(fexpr: Vec<Expr>, ctx: &'a ParserContext) -> (p: HigherParser<'a>)
        ensures
            p.fexpr() == exprs_view(fexpr@),
            p.idx() == 0,
            p.context() == ctx@,
    {
        HigherParser { fexpr, current_idx: 0, ctx }
    }

    fn check_infix(&self, op_id: usize) -> (b: bool)
        requires
            op_id < self.context().ops.len(),
        ensures
            b == self.context().check_infix(self.fexpr(), self.idx(), op_id as int),
    {
        if self.current_idx < self.fexpr.len() {
            match &self.fexpr[self.current_idx] {
                Expr::NameInfix(y) => self.ctx.infix_operators[op_id] == *y,
                _ => false,
            }
        } else {
            false
        }
    }

    /// Where the operator `op_id` stands first from the place at hand on.
    fn find_infix(&self, from: usize, op_id: usize) -> (at: usize)
        requires
            op_id < self.context().ops.len(),
            from <= self.fexpr().len(),
        ensures
            at == self.context().find_infix(self.fexpr(), from as int, op_id as int),
            from <= at <= self.fexpr().len(),
    {
        let mut i = from;
        while i < self.fexpr.len()
            invariant
                from <= i <= self.fexpr.len(),
                op_id < self.context().ops.len(),
                self.context().find_infix(self.fexpr(), from as int, op_id as int)
                    == self.context().find_infix(self.fexpr(), i as int, op_id as int),
            decreases self.fexpr.len() - i,
        {
            let hit = match &self.fexpr[i] {
                Expr::NameInfix(y) => self.ctx.infix_operators[op_id] == *y,
                _ => false,
            };
            if hit {
                return i;
            }
            i += 1;
        }
        i
    }

    /// A copy of the expressions from `from` up to `to`.
    fn part(&self, from: usize, to: usize) -> (xs: Vec<Expr>)
        requires
            from <= to <= self.fexpr().len(),
        ensures
            exprs_view(xs@) == self.fexpr().subrange(from as int, to as int),
    {
        let mut xs: Vec<Expr> = Vec::new();
        let mut i = from;
        while i < to
            invariant
                from <= i <= to <= self.fexpr.len(),
                xs.len() == i - from,
                forall|j: int| 0 <= j < xs.len() ==> xs[j]@ == self.fexpr[from + j]@,
            decreases to - i,
        {
            xs.push(self.fexpr[i].clone());
            i += 1;
        }
        assert(exprs_view(xs@) =~= self.fexpr().subrange(from as int, to as int));
        xs
    }

    /// Parses the expressions from the place at hand on.
    pub fn parse(&mut self) -> (r: Result<Core, ParseError>)
        requires
            old(self).idx() <= old(self).fexpr().len(),
        ensures
            final(self).fexpr() == old(self).fexpr(),
            final(self).context() == old(self).context(),
            match r {
                Ok(core) => old(self).context().parse_infix(
                    old(self).fexpr(),
                    old(self).idx(),
                    old(self).context().ops.len() - 1,
                ) == Ok::<(CoreView, int), ParseError>((core@, final(self).idx())),
                Err(e) => old(self).context().parse_infix(
                    old(self).fexpr(),
                    old(self).idx(),
                    old(self).context().ops.len() - 1,
                ) == Err::<(CoreView, int), ParseError>(e),
            },
            r is Ok ==> old(self).idx() <= final(self).idx() <= final(self).fexpr().len(),
            r matches Ok(core) ==> crate::layout::literals_sealed(core@),
        decreases weights(old(self).fexpr()), old(self).context().ops.len() + 2, 0nat, 0nat,
    {
        let n = self.ctx.infix_operators.len();
        if n == 0 {
            self.parse_prefix()
        } else {
            self.parse_infix(n - 1)
        }
    }

    fn parse_infix(&mut self, op_id: usize) -> (r: Result<Core, ParseError>)
        requires
            old(self).idx() <= old(self).fexpr().len(),
            op_id < old(self).context().ops.len(),
        ensures
            final(self).fexpr() == old(self).fexpr(),
            final(self).context() == old(self).context(),
            match r {
                Ok(core) => old(self).context().parse_infix(
                    old(self).fexpr(),
                    old(self).idx(),
                    op_id as int,
                ) == Ok::<(CoreView, int), ParseError>((core@, final(self).idx())),
                Err(e) => old(self).context().parse_infix(
                    old(self).fexpr(),
                    old(self).idx(),
                    op_id as int,
                ) == Err::<(CoreView, int), ParseError>(e),
            },
            r is Ok ==> old(self).idx() <= final(self).idx() <= final(self).fexpr().len(),
            r matches Ok(core) ==> crate::layout::literals_sealed(core@),
        decreases weights(old(self).fexpr()), op_id + 1, 1nat, 0nat,
    {
        if op_id == 0 {
            return self.parse_prefix();
        }
        let ghost c = self.context();
        let ghost fexpr = self.fexpr();
        let idx = self.current_idx;
        let at = self.find_infix(idx, op_id);
        let rule = find(&self.ctx.infix_macros, &self.ctx.infix_operators[op_id]);
        match rule {
            Some(rule) => {
                if at < self.fexpr.len() {
                    let end = self.find_infix(at + 1, op_id);
                    let left = self.part(idx, at);
                    let right = self.part(at + 1, end);
                    proof {
                        lemma_weights_subrange(fexpr, idx as int, end as int);
                        lemma_weights_subrange(fexpr.subrange(idx as int, end as int), 0, at - idx);
                        assert(fexpr.subrange(idx as int, end as int).subrange(0, at - idx)
                            =~= fexpr.subrange(idx as int, at as int));
                        lemma_weights_subrange(
                            fexpr.subrange(idx as int, end as int),
                            at - idx,
                            at - idx + 1,
                        );
                        assert(fexpr.subrange(idx as int, end as int).subrange(
                            at - idx + 1,
                            end - idx,
                        ) =~= fexpr.subrange(at + 1, end as int));
                        assert(fexpr.subrange(idx as int, end as int).subrange(
                            at - idx,
                            at - idx + 1,
                        ) =~= seq![fexpr[at as int]]);
                        lemma_weights_single(fexpr[at as int]);
                    }
                    self.current_idx = end;
                    return infix_macro(self.ctx, rule, left, right);
                }
            },
            None => {},
        }
        let mut left = match self.parse_infix(op_id - 1) {
            Ok(left) => left,
            Err(e) => {
                return Err(e);
            },
        };
        let ghost first = left@;
        let ghost begin = self.idx();
        loop
            invariant
                self.fexpr() == fexpr,
                self.context() == c,
                fexpr == old(self).fexpr(),
                c == old(self).context(),
                0 < op_id < c.ops.len(),
                crate::layout::literals_sealed(left@),
                old(self).idx() <= self.idx() <= fexpr.len(),
                c.infix_tail(fexpr, self.idx(), op_id as int, left@) == c.infix_tail(
                    fexpr,
                    begin,
                    op_id as int,
                    first,
                ),
                c.parse_infix(fexpr, old(self).idx(), op_id as int) == c.infix_tail(
                    fexpr,
                    begin,
                    op_id as int,
                    first,
                ),
            ensures
                c.infix_tail(fexpr, begin, op_id as int, first) == Ok::<
                    (CoreView, int),
                    ParseError,
                >((left@, self.idx())),
            decreases fexpr.len() - self.idx(),
        {
            if !self.check_infix(op_id) {
                break ;
            }
            let ghost at = self.idx();
            let ghost l = left@;
            assert(self.current_idx < self.fexpr.len());
            self.current_idx += 1;
            let right = match self.parse_infix(op_id - 1) {
                Ok(right) => right,
                Err(e) => {
                    return Err(e);
                },
            };
            proof {
                assert(c.infix_tail(fexpr, at, op_id as int, l) == c.infix_tail(
                    fexpr,
                    self.idx(),
                    op_id as int,
                    CoreView::Call(
                        Box::new(CoreView::Get(c.ops[op_id as int])),
                        seq![l, right@],
                    ),
                ));
            }
            let ghost r = right@;
            let mut args: Vec<Core> = Vec::new();
            args.push(left);
            args.push(right);
            proof {
                assert(cores_view(args@) =~= seq![l, r]);
            }
            let name = self.ctx.infix_operators[op_id].clone();
            assert(name@ == c.ops[op_id as int]);
            let callee = Core::Get(name);
            assert(callee@ == CoreView::Get(c.ops[op_id as int]));
            left = Core::Call(Box::new(callee), args);
            assert(left@ == CoreView::Call(
                Box::new(CoreView::Get(c.ops[op_id as int])),
                seq![l, r],
            ));
            assert(crate::layout::literals_sealed(l));
            assert(crate::layout::literals_sealed(r));
            assert(crate::layout::all_literals_sealed(seq![l, r]));
            assert(crate::layout::literals_sealed(CoreView::Get(c.ops[op_id as int])));
            assert(crate::layout::literals_sealed(left@));
        }
        Ok(left)
    }

    /// Parses what stands at the place at hand up to the first operator.
    pub fn parse_prefix(&mut self) -> (r: Result<Core, ParseError>)
        requires
            old(self).idx() <= old(self).fexpr().len(),
        ensures
            final(self).fexpr() == old(self).fexpr(),
            final(self).context() == old(self).context(),
            match r {
                Ok(core) => old(self).context().parse_prefix(old(self).fexpr(), old(self).idx())
                    == Ok::<(CoreView, int), ParseError>((core@, final(self).idx())),
                Err(e) => old(self).context().parse_prefix(old(self).fexpr(), old(self).idx())
                    == Err::<(CoreView, int), ParseError>(e),
            },
            r is Ok ==> old(self).idx() <= final(self).idx() <= final(self).fexpr().len(),
            r matches Ok(core) ==> crate::layout::literals_sealed(core@),
        decreases weights(old(self).fexpr()), 1nat, 0nat, 1nat,
    {
        let ghost c = self.context();
        let ghost fexpr = self.fexpr();
        let rule = if self.current_idx < self.fexpr.len() {
            match &self.fexpr[self.current_idx] {
                Expr::Name(x) => find(&self.ctx.prefix_macros, x),
                _ => None,
            }
        } else {
            None
        };
        match rule {
            Some(rule) => {
                let body = self.part(1, self.fexpr.len());
                proof {
                    lemma_weights_subrange(fexpr, 1, fexpr.len() as int);
                    assert(fexpr.subrange(0, 1) =~= seq![fexpr[0]]);
                    lemma_weights_single(fexpr[0]);
                }
                return prefix_macro(self.ctx, rule, body);
            },
            None => {},
        }
        let mut fcall: Vec<Core> = Vec::new();
        let ghost begin = self.idx();
        proof {
            assert(cores_view(fcall@) =~= Seq::empty());
        }
        while self.current_idx < self.fexpr.len() && !matches!(
            self.fexpr[self.current_idx],
            Expr::NameInfix(_)
        )
            invariant
                self.fexpr() == fexpr,
                self.context() == c,
                fexpr == old(self).fexpr(),
                c == old(self).context(),
                begin <= self.idx() <= fexpr.len(),
                crate::layout::all_literals_sealed(cores_view(fcall@)),
                c.prefix_tail(fexpr, self.idx(), cores_view(fcall@)) == c.prefix_tail(
                    fexpr,
                    begin,
                    Seq::empty(),
                ),
                c.parse_prefix(fexpr, old(self).idx()) == c.prefix_tail(fexpr, begin, Seq::empty()),
            decreases fexpr.len() - self.idx(),
        {
            let ghost sofar = cores_view(fcall@);
            proof {
                lemma_weights_index(fexpr, self.idx());
            }
            let arg = match operand(self.ctx, &self.fexpr[self.current_idx]) {
                Ok(arg) => arg,
                Err(e) => {
                    return Err(e);
                },
            };
            fcall.push(arg);
            proof {
                assert(cores_view(fcall@) =~= sofar.push(arg@));
            }
            self.current_idx += 1;
        }
        let ghost all = cores_view(fcall@);
        if fcall.len() == 0 {
            Err(ParseError::EmptyExpression)
        } else if fcall.len() == 1 {
            let only = fcall.pop().unwrap();
            assert(only@ == all[0]);
            assert(crate::layout::literals_sealed(all[0]));
            Ok(only)
        } else {
            let callee = fcall.remove(0);
            proof {
                let rest = all.subrange(1, all.len() as int);
                assert(cores_view(fcall@) =~= rest);
                assert(callee@ == all[0]);
                assert(crate::layout::literals_sealed(all[0]));
                assert forall|i: int| 0 <= i < rest.len() implies crate::layout::literals_sealed(
                    #[trigger] rest[i],
                ) by {
                    assert(crate::layout::literals_sealed(all[i + 1]));
                }
                assert(crate::layout::all_literals_sealed(rest));
            }
            let core = Core::Call(Box::new(callee), fcall);
            assert(core@ == CoreView::Call(Box::new(all[0]), all.subrange(1, all.len() as int)));
            assert(crate::layout::literals_sealed(core@));
            Ok(core)
        }
    }
}

/// Parses the expressions `fexpr`, which stand side by side.
pub fn parse_seq(ctx: &ParserContext, fexpr: Vec<Expr>) -> (r: Result<Core, ParseError>)
    ensures
        match r {
            Ok(core) => ctx@.parse_seq(exprs_view(fexpr@)) == Ok::<CoreView, ParseError>(core@),
            Err(e) => ctx@.parse_seq(exprs_view(fexpr@)) == Err::<CoreView, ParseError>(e),
        },
        r matches Ok(core) ==> crate::layout::literals_sealed(core@),
    decreases weights(exprs_view(fexpr@)), ctx@.ops.len() + 3, 0nat, 0nat,
{
    let mut p = HigherParser::new(fexpr, ctx);
    p.parse()
}

/// Parses one expression by itself.
fn parse_one(ctx: &ParserContext, x: &Expr) -> (r: Result<Core, ParseError>)
    ensures
        match r {
            Ok(core) => ctx@.parse_seq(seq![x@]) == Ok::<CoreView, ParseError>(core@),
            Err(e) => ctx@.parse_seq(seq![x@]) == Err::<CoreView, ParseError>(e),
        },
        r matches Ok(core) ==> crate::layout::literals_sealed(core@),
    decreases weight(x@), ctx@.ops.len() + 4, 0nat, 0nat,
{
    let mut one: Vec<Expr> = Vec::new();
    one.push(x.clone());
    proof {
        assert(exprs_view(one@) =~= seq![x@]);
        lemma_weights_single(x@);
    }
    parse_seq(ctx, one)
}

/// The names that `args` are.
fn param_names(ctx: &ParserContext, args: &Vec<Expr>) -> (r: Result<Vec<String>, ParseError>)
    ensures
        match r {
            Ok(names) => ctx@.param_names(exprs_view(args@), 0) == Ok::<
                Seq<Seq<char>>,
                ParseError,
            >(names_view(names@)),
            Err(e) => ctx@.param_names(exprs_view(args@), 0) == Err::<Seq<Seq<char>>, ParseError>(
                e,
            ),
        },
{
    let ghost views = exprs_view(args@);
    let mut names: Vec<String> = Vec::new();
    let mut i = args.len();
    proof {
        assert(names_view(names@) =~= Seq::empty());
    }
    // from the last to the first, so that what is read is what follows
    while i > 0
        invariant
            i <= args.len(),
            views == exprs_view(args@),
            ctx@.param_names(views, i as int) == Ok::<Seq<Seq<char>>, ParseError>(
                names_view(names@),
            ),
        decreases i,
    {
        let ghost rest = names_view(names@);
        match &args[i - 1] {
            Expr::Name(n) => {
                names.insert(0, n.clone());
                proof {
                    assert(names_view(names@) =~= seq![n@] + rest);
                }
            },
            _ => {
                proof {
                    lemma_param_names_fail(ctx@, views, i - 1);
                }
                return Err(ParseError::MalformedLambda);
            },
        }
        i -= 1;
    }
    Ok(names)
}

/// Something that is no name among the parameters fails the lambda,
/// wherever it stands.
proof fn lemma_param_names_fail(c: ParserContextView, args: Seq<ExprView>, at: int)
    requires
        0 <= at < args.len(),
        !(args[at] is Name),
    ensures
        c.param_names(args, 0) == Err::<Seq<Seq<char>>, ParseError>(ParseError::MalformedLambda),
{
    lemma_param_names_fail_from(c, args, at, 0);
}

proof fn lemma_param_names_fail_from(c: ParserContextView, args: Seq<ExprView>, at: int, i: int)
    requires
        0 <= i <= at < args.len(),
        !(args[at] is Name),
    ensures
        c.param_names(args, i) == Err::<Seq<Seq<char>>, ParseError>(ParseError::MalformedLambda),
    decreases at - i,
{
    if i < at {
        lemma_param_names_fail_from(c, args, at, i + 1);
    }
}

fn infix_macro(ctx: &ParserContext, rule: InfixRule, left: Vec<Expr>, right: Vec<Expr>) -> (r:
    Result<Core, ParseError>)
    ensures
        match r {
            Ok(core) => ctx@.infix_macro(rule, exprs_view(left@), exprs_view(right@)) == Ok::<
                CoreView,
                ParseError,
            >(core@),
            Err(e) => ctx@.infix_macro(rule, exprs_view(left@), exprs_view(right@)) == Err::<
                CoreView,
                ParseError,
            >(e),
        },
        r matches Ok(core) ==> crate::layout::literals_sealed(core@),
    decreases weights(exprs_view(left@)) + weights(exprs_view(right@)) + 1, 0nat, 0nat, 0nat,
{
    match rule {
        InfixRule::Lambda => {
            let names = match param_names(ctx, &left) {
                Ok(names) => names,
                Err(e) => {
                    return Err(e);
                },
            };
            let body = match parse_seq(ctx, right) {
                Ok(body) => body,
                Err(e) => {
                    return Err(e);
                },
            };
            let ghost b = body@;
            let ghost ns = names_view(names@);
            let mut block: Vec<Core> = Vec::new();
            block.push(body);
            proof {
                assert(cores_view(block@) =~= seq![b]);
            }
            let inner = Core::Block(block);
            assert(inner@ == CoreView::Block(seq![b]));
            assert(crate::layout::literals_sealed(b));
            assert(crate::layout::all_literals_sealed(seq![b]));
            assert(crate::layout::literals_sealed(CoreView::Block(seq![b])));
            let core = Core::Lambda(names, Box::new(inner));
            assert(core@ == CoreView::Lambda(ns, Box::new(CoreView::Block(seq![b]))));
            Ok(core)
        },
        InfixRule::Assign => {
            let n = left.len();
            if n == 0 || n > 2 {
                return Err(ParseError::MalformedAssignment);
            }
            let name = match &left[n - 1] {
                Expr::Name(name) => name.clone(),
                _ => {
                    return Err(ParseError::MalformedAssignment);
                },
            };
            let value = match parse_seq(ctx, right) {
                Ok(value) => value,
                Err(e) => {
                    return Err(e);
                },
            };
            if n == 1 {
                Ok(Core::Assign(name, Box::new(value)))
            } else {
                let declares = match &left[0] {
                    Expr::Name(l) => *l == String::from_str("let"),
                    _ => false,
                };
                if declares {
                    Ok(Core::Let(name, Box::new(value)))
                } else {
                    Err(ParseError::MalformedAssignment)
                }
            }
        },
    }
}

fn prefix_macro(ctx: &ParserContext, rule: PrefixRule, body: Vec<Expr>) -> (r: Result<
    Core,
    ParseError,
>)
    ensures
        match r {
            Ok(core) => ctx@.prefix_macro(rule, exprs_view(body@)) == Ok::<CoreView, ParseError>(
                core@,
            ),
            Err(e) => ctx@.prefix_macro(rule, exprs_view(body@)) == Err::<CoreView, ParseError>(e),
        },
        r matches Ok(core) ==> crate::layout::literals_sealed(core@),
    decreases weights(exprs_view(body@)) + 1, 0nat, 0nat, 0nat,
{
    let ghost views = exprs_view(body@);
    match rule {
        PrefixRule::Return => match parse_seq(ctx, body) {
            Ok(x) => Ok(Core::Return(Box::new(x))),
            Err(e) => Err(e),
        },
        PrefixRule::Break => Ok(Core::Break),
        PrefixRule::Continue => Ok(Core::Continue),
        PrefixRule::Loop => match parse_seq(ctx, body) {
            Ok(x) => Ok(Core::Loop(Box::new(x))),
            Err(e) => Err(e),
        },
        PrefixRule::If => {
            let n = body.len();
            if !(n == 3 || n == 5) {
                return Err(ParseError::MalformedIf);
            }
            match &body[1] {
                Expr::Name(word) => {
                    if !(*word == String::from_str("then")) {
                        return Err(ParseError::MalformedIf);
                    }
                },
                _ => {
                    return Err(ParseError::MalformedIf);
                },
            }
            let mut has_else = false;
            if n == 5 {
                match &body[3] {
                    Expr::Name(word) => {
                        if !(*word == String::from_str("else")) {
                            return Err(ParseError::MalformedIf);
                        }
                        has_else = true;
                    },
                    _ => {},
                }
            }
            let zero = Expr::LitInt(0);
            proof {
                lemma_weights_index(views, 0);
                lemma_weights_index(views, 2);
                if n == 5 {
                    lemma_weights_index(views, 4);
                }
            }
            let c = match parse_one(ctx, &body[0]) {
                Ok(c) => c,
                Err(e) => {
                    return Err(e);
                },
            };
            let t = match parse_one(ctx, &body[2]) {
                Ok(t) => t,
                Err(e) => {
                    return Err(e);
                },
            };
            let otherwise = if has_else {
                &body[4]
            } else {
                &zero
            };
            let e = match parse_one(ctx, otherwise) {
                Ok(e) => e,
                Err(e) => {
                    return Err(e);
                },
            };
            Ok(Core::If(Box::new(c), Box::new(t), Box::new(e)))
        },
    }
}

fn operand(ctx: &ParserContext, x: &Expr) -> (r: Result<Core, ParseError>)
    ensures
        match r {
            Ok(core) => ctx@.operand(x@) == Ok::<CoreView, ParseError>(core@),
            Err(e) => ctx@.operand(x@) == Err::<CoreView, ParseError>(e),
        },
        r matches Ok(core) ==> crate::layout::literals_sealed(core@),
    decreases weight(x@), 0nat, 0nat, 3nat,
{
    match x {
        Expr::LitStr(s) => Ok(Core::Lit(Value::Str(s.clone()))),
        Expr::LitFloat(t) => match find(&ctx.floats, t) {
            Some(bits) => Ok(Core::Lit(Value::Float(bits))),
            None => Err(ParseError::UnknownFloat),
        },
        Expr::LitInt(i) => Ok(Core::Lit(Value::Int(*i))),
        Expr::FExpr(xs) => parse_seq(ctx, clone_exprs(xs)),
        Expr::Block(xs) => {
            let ghost views = exprs_view(xs@);
            let mut items: Vec<Core> = Vec::new();
            let mut i = xs.len();
            proof {
                assert(cores_view(items@) =~= Seq::empty());
            }
            // from the last to the first; the first that fails is the
            // one that the block fails with
            let mut failed: Option<ParseError> = None;
            while i > 0
                invariant
                    i <= xs.len(),
                    views == exprs_view(xs@),
                    weight(x@) == weights(views) + 1,
                    crate::layout::all_literals_sealed(cores_view(items@)),
                    match failed {
                        None => ctx@.block_items(views, i as int) == Ok::<
                            Seq<CoreView>,
                            ParseError,
                        >(cores_view(items@)),
                        Some(e) => ctx@.block_items(views, i as int) == Err::<
                            Seq<CoreView>,
                            ParseError,
                        >(e),
                    },
                decreases i,
            {
                let ghost rest = cores_view(items@);
                proof {
                    lemma_weights_index(views, i - 1);
                }
                match parse_one(ctx, &xs[i - 1]) {
                    Ok(first) => {
                        if failed.is_none() {
                            items.insert(0, first);
                            proof {
                                assert(cores_view(items@) =~= seq![first@] + rest);
                            }
                        }
                    },
                    Err(e) => {
                        failed = Some(e);
                    },
                }
                i -= 1;
            }
            match failed {
                None => Ok(Core::Block(items)),
                Some(e) => Err(e),
            }
        },
        Expr::Name(n) => Ok(Core::Get(n.clone())),
        _ => Err(ParseError::Unsupported),
    }
}

} // verus!

verus! {

impl ParserContextView {
    /// The tables of the language: the operators `/ * - + == -> =` from
    /// the one that binds tightest on, of which `->` makes a function and
    /// `=` assigns, and the keywords `return`, `continue`, `break`, `if`
    /// and `loop`.
    pub open spec fn standard() -> ParserContextView {
        ParserContextView {
            ops: seq![""@, "/"@, "*"@, "-"@, "+"@, "=="@, "->"@, "="@],
            infix: seq![("->"@, InfixRule::Lambda), ("="@, InfixRule::Assign)],
            prefix: seq![
                ("return"@, PrefixRule::Return),
                ("continue"@, PrefixRule::Continue),
                ("break"@, PrefixRule::Break),
                ("if"@, PrefixRule::If),
                ("loop"@, PrefixRule::Loop),
            ],
            floats: Seq::empty(),
        }
    }
}

impl ParserContext {
    /// The context of the language, which knows no floating-point literal
    /// yet.
    pub fn standard() -> (c: ParserContext)
        ensures
            c@ == ParserContextView::standard(),
    {
        let mut ops: Vec<String> = Vec::new();
        ops.push(String::from_str(""));
        ops.push(String::from_str("/"));
        ops.push(String::from_str("*"));
        ops.push(String::from_str("-"));
        ops.push(String::from_str("+"));
        ops.push(String::from_str("=="));
        ops.push(String::from_str("->"));
        ops.push(String::from_str("="));
        let mut infix: Vec<(String, InfixRule)> = Vec::new();
        infix.push((String::from_str("->"), InfixRule::Lambda));
        infix.push((String::from_str("="), InfixRule::Assign));
        let mut prefix: Vec<(String, PrefixRule)> = Vec::new();
        prefix.push((String::from_str("return"), PrefixRule::Return));
        prefix.push((String::from_str("continue"), PrefixRule::Continue));
        prefix.push((String::from_str("break"), PrefixRule::Break));
        prefix.push((String::from_str("if"), PrefixRule::If));
        prefix.push((String::from_str("loop"), PrefixRule::Loop));
        proof {
            let want = ParserContextView::standard();
            assert(names_view(ops@) =~= want.ops);
            assert(table_view(infix@) =~= want.infix);
            assert(table_view(prefix@) =~= want.prefix);
        }
        ParserContext::new(ops, infix, prefix)
    }
}

/// The texts of the floating-point literals among `tokens[i ..]`, in
/// order.
pub open spec fn float_texts(tokens: Seq<TkView>, i: int) -> Seq<Seq<char>>
    decreases tokens.len() - i,
{
    if i < 0 || i >= tokens.len() {
        Seq::empty()
    } else {
        match tokens[i] {
            TkView::LitFloat(t) => seq![t] + float_texts(tokens, i + 1),
            _ => float_texts(tokens, i + 1),
        }
    }
}

/// The texts of the floating-point literals among `tokens`, in order:
/// what the context has to be told the values of before these tokens
/// parse.
pub fn float_literals(tokens: &Vec<Tk>) -> (texts: Vec<String>)
    ensures
        names_view(texts@) == float_texts(tokens_view(tokens@), 0),
{
    let ghost views = tokens_view(tokens@);
    let mut texts: Vec<String> = Vec::new();
    let mut i: usize = 0;
    assert(names_view(texts@) + float_texts(views, 0) =~= float_texts(views, 0));
    while i < tokens.len()
        invariant
            i <= tokens.len(),
            views == tokens_view(tokens@),
            names_view(texts@) + float_texts(views, i as int) == float_texts(views, 0),
        decreases tokens.len() - i,
    {
        let ghost done = names_view(texts@);
        match &tokens[i] {
            Tk::LitFloat(t) => {
                texts.push(t.clone());
                assert(names_view(texts@) =~= done.push(t@));
                assert(done.push(t@) + float_texts(views, i + 1) =~= done + (seq![t@]
                    + float_texts(views, i + 1)));
            },
            _ => {},
        }
        i += 1;
    }
    assert(names_view(texts@) + Seq::<Seq<char>>::empty() =~= names_view(texts@));
    texts
}

} // verus!
