//! The scanner: turns source text into a sequence of spanned tokens.
//!
//! At each position, after skipping whitespace, the rules are tried in a
//! fixed order: atom (identifier or keyword), string literal, number, symbol.
//! A rule that fails leaves the cursor where it found it.
use vstd::prelude::*;

use crate::lines::{
    lemma_offset_char, lemma_offset_next_row, lemma_pos_offset, line_seqs, lines_wf, offset_of,
    pos_valid, split_at_newlines, split_lines, text_of,
};
use crate::prefix::{contains_char, entries_map, entries_view, key_chars, last_value, PrefixTree};
use crate::types::{Point, Span, SpanData};

verus! {

/// A classified unit of source text.
#[derive(Debug, Clone, PartialEq, Eq)]
pub enum Token {
    /// A decimal numeral: digits, optionally followed by a point and more digits.
    Number(String),
    Boolean(bool),
    /// The characters between the quotes, escapes left as written.
    String(String),
    Identifier(String),
    Public,
    Function,
    Let,
    If,
    Else,
    Loop,
    While,
    For,
    In,
    Return,
    Break,
    Continue,
    ExclusiveRange,
    InclusiveRange,
    OpenBracket,
    CloseBracket,
    OpenBrace,
    CloseBrace,
    OpenParen,
    CloseParen,
    Period,
    Comma,
    Semicolon,
    Colon,
    Equals,
    DoubleEquals,
    Plus,
    PlusEquals,
    Minus,
    MinusEquals,
    Times,
    TimesEquals,
    Divide,
    DivideEquals,
    Modulo,
    ModuloEquals,
    GreaterThan,
    GreaterThanEquals,
    LessThan,
    LessThanEquals,
    NotEquals,
    Not,
    SingleArrow,
    DoubleArrow,
}

/// What a token says, with its text as a character sequence. A token without
/// text stands for itself.
pub enum TokenView {
    Number(Seq<char>),
    Boolean(bool),
    Str(Seq<char>),
    Identifier(Seq<char>),
    Fixed(Token),
}

impl View for Token {
    type V = TokenView;

    open spec fn view(&self) -> TokenView {
        match self {
            Token::Number(s) => TokenView::Number(s@),
            Token::Boolean(b) => TokenView::Boolean(*b),
            Token::String(s) => TokenView::Str(s@),
            Token::Identifier(s) => TokenView::Identifier(s@),
            _ => TokenView::Fixed(*self),
        }
    }
}

impl Token {
    /// An equal copy of the token.
    pub fn duplicate(&self) -> (r: Token)
        ensures
            r == *self,
    {
        match self {
            Token::Number(s) => Token::Number(s.clone()),
            Token::Boolean(b) => Token::Boolean(*b),
            Token::String(s) => Token::String(s.clone()),
            Token::Identifier(s) => Token::Identifier(s.clone()),
            Token::Public => Token::Public,
            Token::Function => Token::Function,
            Token::Let => Token::Let,
            Token::If => Token::If,
            Token::Else => Token::Else,
            Token::Loop => Token::Loop,
            Token::While => Token::While,
            Token::For => Token::For,
            Token::In => Token::In,
            Token::Return => Token::Return,
            Token::Break => Token::Break,
            Token::Continue => Token::Continue,
            Token::ExclusiveRange => Token::ExclusiveRange,
            Token::InclusiveRange => Token::InclusiveRange,
            Token::OpenBracket => Token::OpenBracket,
            Token::CloseBracket => Token::CloseBracket,
            Token::OpenBrace => Token::OpenBrace,
            Token::CloseBrace => Token::CloseBrace,
            Token::OpenParen => Token::OpenParen,
            Token::CloseParen => Token::CloseParen,
            Token::Period => Token::Period,
            Token::Comma => Token::Comma,
            Token::Semicolon => Token::Semicolon,
            Token::Colon => Token::Colon,
            Token::Equals => Token::Equals,
            Token::DoubleEquals => Token::DoubleEquals,
            Token::Plus => Token::Plus,
            Token::PlusEquals => Token::PlusEquals,
            Token::Minus => Token::Minus,
            Token::MinusEquals => Token::MinusEquals,
            Token::Times => Token::Times,
            Token::TimesEquals => Token::TimesEquals,
            Token::Divide => Token::Divide,
            Token::DivideEquals => Token::DivideEquals,
            Token::Modulo => Token::Modulo,
            Token::ModuloEquals => Token::ModuloEquals,
            Token::GreaterThan => Token::GreaterThan,
            Token::GreaterThanEquals => Token::GreaterThanEquals,
            Token::LessThan => Token::LessThan,
            Token::LessThanEquals => Token::LessThanEquals,
            Token::NotEquals => Token::NotEquals,
            Token::Not => Token::Not,
            Token::SingleArrow => Token::SingleArrow,
            Token::DoubleArrow => Token::DoubleArrow,
        }
    }
}

/// The reserved words, in the order they are registered.
pub open spec fn word_entries() -> Seq<(Seq<char>, Token)> {
    seq![
        ("pub"@, Token::Public),
        ("fn"@, Token::Function),
        ("let"@, Token::Let),
        ("if"@, Token::If),
        ("else"@, Token::Else),
        ("loop"@, Token::Loop),
        ("while"@, Token::While),
        ("for"@, Token::For),
        ("in"@, Token::In),
        ("break"@, Token::Break),
        ("continue"@, Token::Continue),
        ("return"@, Token::Return),
    ]
}

/// The symbols, in the order they are registered.
pub open spec fn symbol_entries() -> Seq<(Seq<char>, Token)> {
    seq![
        ("."@, Token::Period),
        (","@, Token::Comma),
        (";"@, Token::Semicolon),
        (":"@, Token::Colon),
        ("("@, Token::OpenParen),
        (")"@, Token::CloseParen),
        ("["@, Token::OpenBracket),
        ("]"@, Token::CloseBracket),
        ("{"@, Token::OpenBrace),
        ("}"@, Token::CloseBrace),
        ("="@, Token::Equals),
        ("+"@, Token::Plus),
        ("+="@, Token::PlusEquals),
        ("-"@, Token::Minus),
        ("-="@, Token::MinusEquals),
        ("*"@, Token::Times),
        ("*="@, Token::TimesEquals),
        ("/"@, Token::Divide),
        ("/="@, Token::DivideEquals),
        ("%"@, Token::Modulo),
        ("%="@, Token::ModuloEquals),
        (">"@, Token::GreaterThan),
        (">="@, Token::GreaterThanEquals),
        ("<"@, Token::LessThan),
        ("<="@, Token::LessThanEquals),
        ("=="@, Token::DoubleEquals),
        ("!="@, Token::NotEquals),
        ("!"@, Token::Not),
        (".."@, Token::ExclusiveRange),
        ("..="@, Token::InclusiveRange),
        ("->"@, Token::SingleArrow),
        ("=>"@, Token::DoubleArrow),
    ]
}

/// Reserved words and the tokens they stand for.
pub open spec fn word_map() -> Map<Seq<char>, Token> {
    entries_map(word_entries())
}

/// Symbols and the tokens they stand for.
pub open spec fn symbol_map() -> Map<Seq<char>, Token> {
    entries_map(symbol_entries())
}

/// The characters that occur in some symbol.
pub open spec fn is_symbol_char(c: char) -> bool {
    key_chars(symbol_map()).contains(c)
}

fn get_word_tree() -> (r: PrefixTree<Token>)
    ensures
        r.wf(),
        r@ == word_map(),
{
    let entries = vec![
        ("pub", Token::Public),
        ("fn", Token::Function),
        ("let", Token::Let),
        ("if", Token::If),
        ("else", Token::Else),
        ("loop", Token::Loop),
        ("while", Token::While),
        ("for", Token::For),
        ("in", Token::In),
        ("break", Token::Break),
        ("continue", Token::Continue),
        ("return", Token::Return),
    ];
    assert(entries_view(entries@) =~= word_entries());
    PrefixTree::from_entries(entries)
}

/// The tree of all symbols.
pub fn get_symbol_tree() -> (r: PrefixTree<Token>)
    ensures
        r.wf(),
        r@ == symbol_map(),
{
    let entries = vec![
        (".", Token::Period),
        (",", Token::Comma),
        (";", Token::Semicolon),
        (":", Token::Colon),
        ("(", Token::OpenParen),
        (")", Token::CloseParen),
        ("[", Token::OpenBracket),
        ("]", Token::CloseBracket),
        ("{", Token::OpenBrace),
        ("}", Token::CloseBrace),
        ("=", Token::Equals),
        ("+", Token::Plus),
        ("+=", Token::PlusEquals),
        ("-", Token::Minus),
        ("-=", Token::MinusEquals),
        ("*", Token::Times),
        ("*=", Token::TimesEquals),
        ("/", Token::Divide),
        ("/=", Token::DivideEquals),
        ("%", Token::Modulo),
        ("%=", Token::ModuloEquals),
        (">", Token::GreaterThan),
        (">=", Token::GreaterThanEquals),
        ("<", Token::LessThan),
        ("<=", Token::LessThanEquals),
        ("==", Token::DoubleEquals),
        ("!=", Token::NotEquals),
        ("!", Token::Not),
        ("..", Token::ExclusiveRange),
        ("..=", Token::InclusiveRange),
        ("->", Token::SingleArrow),
        ("=>", Token::DoubleArrow),
    ];
    assert(entries_view(entries@) =~= symbol_entries());
    PrefixTree::from_entries(entries)
}

/// No symbol is empty, so the symbol rule consumes a character when it
/// succeeds.
proof fn lemma_no_empty_symbol()
    ensures
        !symbol_map().contains_key(Seq::<char>::empty()),
{
    reveal_strlit(".");
    reveal_strlit(",");
    reveal_strlit(";");
    reveal_strlit(":");
    reveal_strlit("(");
    reveal_strlit(")");
    reveal_strlit("[");
    reveal_strlit("]");
    reveal_strlit("{");
    reveal_strlit("}");
    reveal_strlit("=");
    reveal_strlit("+");
    reveal_strlit("+=");
    reveal_strlit("-");
    reveal_strlit("-=");
    reveal_strlit("*");
    reveal_strlit("*=");
    reveal_strlit("/");
    reveal_strlit("/=");
    reveal_strlit("%");
    reveal_strlit("%=");
    reveal_strlit(">");
    reveal_strlit(">=");
    reveal_strlit("<");
    reveal_strlit("<=");
    reveal_strlit("==");
    reveal_strlit("!=");
    reveal_strlit("!");
    reveal_strlit("..");
    reveal_strlit("..=");
    reveal_strlit("->");
    reveal_strlit("=>");
    let es = symbol_entries();
    assert forall|i: int| 0 <= i < es.len() implies (#[trigger] es[i]).0.len() > 0 by {}
    lemma_last_value_absent(es, Seq::<char>::empty());
}

proof fn lemma_last_value_absent<T>(es: Seq<(Seq<char>, T)>, k: Seq<char>)
    requires
        forall|i: int| 0 <= i < es.len() ==> (#[trigger] es[i]).0 != k,
    ensures
        last_value(es, k) is None,
    decreases es.len(),
{
    if es.len() > 0 {
        assert(es.last() == es[es.len() - 1]);
        lemma_last_value_absent(es.drop_last(), k);
    }
}

#[derive(Debug)]
pub enum LexError {
    EndOfInput,
    ExpectedNumber,
    ExpectedAtom,
    UnknownSymbol(String),
    Custom(String),
}

/// What an error says, with its text as a character sequence.
pub enum LexErrorView {
    EndOfInput,
    ExpectedNumber,
    ExpectedAtom,
    UnknownSymbol(Seq<char>),
    Custom(Seq<char>),
}

impl View for LexError {
    type V = LexErrorView;

    open spec fn view(&self) -> LexErrorView {
        match self {
            LexError::EndOfInput => LexErrorView::EndOfInput,
            LexError::ExpectedNumber => LexErrorView::ExpectedNumber,
            LexError::ExpectedAtom => LexErrorView::ExpectedAtom,
            LexError::UnknownSymbol(s) => LexErrorView::UnknownSymbol(s@),
            LexError::Custom(s) => LexErrorView::Custom(s@),
        }
    }
}

impl LexError {
    pub fn unknown_symbol(msg: &str) -> (r: LexError)
        ensures
            r@ == LexErrorView::UnknownSymbol(msg@),
    {
        LexError::UnknownSymbol(String::from_str(msg))
    }

    pub fn custom(msg: &str) -> (r: LexError)
        ensures
            r@ == LexErrorView::Custom(msg@),
    {
        LexError::Custom(String::from_str(msg))
    }
}

pub type LexResult<T> = Result<T, LexError>;

/// Whether `c` has the Unicode White_Space property: the characters that the
/// Unicode Character Database (PropList.txt) lists under it.
pub open spec fn white_space(c: char) -> bool {
    ||| ('\u{9}' <= c && c <= '\u{D}')
    ||| c == ' '
    ||| c == '\u{85}'
    ||| c == '\u{A0}'
    ||| c == '\u{1680}'
    ||| ('\u{2000}' <= c && c <= '\u{200A}')
    ||| c == '\u{2028}'
    ||| c == '\u{2029}'
    ||| c == '\u{202F}'
    ||| c == '\u{205F}'
    ||| c == '\u{3000}'
}

/// Relies on `char::is_whitespace`, which tells whether `ch` has the Unicode
/// White_Space property.
#[verifier::external_body]
fn is_whitespace(ch: char) -> (r: bool)
    ensures
        r == white_space(ch),
{
    ch.is_whitespace()
}

/// Relies on `String::push`, which appends `c` to the end of `s`.
#[verifier::external_body]
fn push_char(s: &mut String, c: char)
    ensures
        final(s)@ == old(s)@.push(c),
{
    s.push(c)
}

pub open spec fn is_digit(c: char) -> bool {
    '0' <= c && c <= '9'
}

pub open spec fn is_atom_first(c: char) -> bool {
    ('a' <= c && c <= 'z') || ('A' <= c && c <= 'Z') || c == '_'
}

pub open spec fn is_atom_rest(c: char) -> bool {
    is_digit(c) || is_atom_first(c)
}

fn is_numeric(ch: char) -> (r: bool)
    ensures
        r == is_digit(ch),
{
    '0' <= ch && ch <= '9'
}

fn is_atom_first_char(ch: char) -> (r: bool)
    ensures
        r == is_atom_first(ch),
{
    ('a' <= ch && ch <= 'z') || ('A' <= ch && ch <= 'Z') || ch == '_'
}

fn is_atom_char(ch: char) -> (r: bool)
    ensures
        r == is_atom_rest(ch),
{
    is_numeric(ch) || is_atom_first_char(ch)
}

/// The classes of characters that the rules read runs of.
#[derive(Clone, Copy)]
pub enum CharClass {
    Whitespace,
    Digit,
    AtomFirst,
    AtomRest,
    Symbol,
    Quote,
}

pub open spec fn class_has(class: CharClass, c: char) -> bool {
    match class {
        CharClass::Whitespace => white_space(c),
        CharClass::Digit => is_digit(c),
        CharClass::AtomFirst => is_atom_first(c),
        CharClass::AtomRest => is_atom_rest(c),
        CharClass::Symbol => is_symbol_char(c),
        CharClass::Quote => c == '"',
    }
}

/// The end of the longest run of `class` characters from `i`.
pub open spec fn run_end(t: Seq<char>, i: int, class: CharClass) -> int
    decreases t.len() - i,
{
    if 0 <= i < t.len() && class_has(class, t[i]) {
        run_end(t, i + 1, class)
    } else {
        i
    }
}

/// Where a string body that starts at `j` is closed: the first quote that no
/// backslash escapes. `escaped` tells whether the character at `j` is escaped.
pub open spec fn string_close(t: Seq<char>, j: int, escaped: bool) -> Option<int>
    decreases t.len() - j,
{
    if !(0 <= j < t.len()) {
        None
    } else if escaped {
        string_close(t, j + 1, false)
    } else if t[j] == '\\' {
        string_close(t, j + 1, true)
    } else if t[j] == '"' {
        Some(j)
    } else {
        string_close(t, j + 1, false)
    }
}

/// An item of the token sequence: start offset, end offset, token.
pub type Item = (int, int, TokenView);

/// An atom: a letter or underscore, followed by letters, digits and underscores.
/// A reserved word gives its token, anything else an identifier.
pub open spec fn atom_rule(t: Seq<char>, i: int) -> Result<(int, TokenView), LexErrorView> {
    if 0 <= i < t.len() && is_atom_first(t[i]) {
        let e = run_end(t, i + 1, CharClass::AtomRest);
        let s = t.subrange(i, e);
        Ok(
            (
                e,
                if word_map().contains_key(s) {
                    word_map()[s]@
                } else {
                    TokenView::Identifier(s)
                },
            ),
        )
    } else {
        Err(LexErrorView::ExpectedAtom)
    }
}

/// A string literal: a quote, a body, and the closing quote.
pub open spec fn string_rule(t: Seq<char>, i: int) -> Result<(int, TokenView), LexErrorView> {
    if 0 <= i < t.len() && t[i] == '"' {
        match string_close(t, i + 1, false) {
            Some(q) => Ok((q + 1, TokenView::Str(t.subrange(i + 1, q)))),
            None => Err(LexErrorView::EndOfInput),
        }
    } else if 0 <= i < t.len() {
        Err(LexErrorView::Custom("character failed predicate"@))
    } else {
        Err(LexErrorView::EndOfInput)
    }
}

/// The end of a numeral at `i`: digits, followed by a point and digits where a
/// digit follows the point.
pub open spec fn number_end(t: Seq<char>, i: int) -> Option<int> {
    if 0 <= i < t.len() && is_digit(t[i]) {
        let d = run_end(t, i, CharClass::Digit);
        if d + 1 < t.len() && t[d] == '.' && is_digit(t[d + 1]) {
            Some(run_end(t, d + 1, CharClass::Digit))
        } else {
            Some(d)
        }
    } else {
        None
    }
}

pub open spec fn number_rule(t: Seq<char>, i: int) -> Result<(int, TokenView), LexErrorView> {
    match number_end(t, i) {
        Some(e) => Ok((e, TokenView::Number(t.subrange(i, e)))),
        None => Err(LexErrorView::ExpectedNumber),
    }
}

/// A symbol: the longest run of symbol characters, which must be a symbol
/// as a whole.
pub open spec fn symbol_rule(t: Seq<char>, i: int) -> Result<(int, TokenView), LexErrorView> {
    let e = run_end(t, i, CharClass::Symbol);
    let s = t.subrange(i, e);
    if symbol_map().contains_key(s) {
        Ok((e, symbol_map()[s]@))
    } else {
        Err(LexErrorView::UnknownSymbol(s))
    }
}

/// The first rule that succeeds at `i`, or the error of the last one.
pub open spec fn token_rule(t: Seq<char>, i: int) -> Result<(int, TokenView), LexErrorView> {
    match atom_rule(t, i) {
        Ok(r) => Ok(r),
        Err(_) => match string_rule(t, i) {
            Ok(r) => Ok(r),
            Err(_) => match number_rule(t, i) {
                Ok(r) => Ok(r),
                Err(_) => symbol_rule(t, i),
            },
        },
    }
}

/// The tokens of `t` from offset `i` to the end, or the first error. The
/// branch without progress is never taken: every rule that succeeds ends
/// past where it starts.
pub open spec fn lex_from(t: Seq<char>, i: int) -> Result<Seq<Item>, LexErrorView>
    decreases t.len() - i,
{
    let j = run_end(t, i, CharClass::Whitespace);
    if !(0 <= i <= j < t.len()) {
        Ok(Seq::empty())
    } else {
        match token_rule(t, j) {
            Ok((e, tok)) => if j < e <= t.len() {
                match lex_from(t, e) {
                    Ok(rest) => Ok(seq![(j, e, tok)] + rest),
                    Err(x) => Err(x),
                }
            } else {
                Ok(Seq::empty())
            },
            Err(x) => Err(x),
        }
    }
}

proof fn lemma_run_end(t: Seq<char>, i: int, class: CharClass)
    requires
        0 <= i <= t.len(),
    ensures
        i <= run_end(t, i, class) <= t.len(),
        forall|j: int| i <= j < run_end(t, i, class) ==> class_has(class, #[trigger] t[j]),
        run_end(t, i, class) < t.len() ==> !class_has(class, t[run_end(t, i, class)]),
    decreases t.len() - i,
{
    if i < t.len() && class_has(class, t[i]) {
        lemma_run_end(t, i + 1, class);
    }
}

proof fn lemma_string_close(t: Seq<char>, j: int, escaped: bool)
    requires
        0 <= j,
    ensures
        string_close(t, j, escaped) matches Some(q) ==> j <= q < t.len() && t[q] == '"',
    decreases t.len() - j,
{
    if 0 <= j < t.len() {
        lemma_string_close(t, j + 1, false);
        lemma_string_close(t, j + 1, true);
    }
}

/// Every rule that succeeds at `i` ends past `i`, within the text.
proof fn lemma_token_rule_progress(t: Seq<char>, i: int)
    requires
        0 <= i < t.len(),
    ensures
        token_rule(t, i) matches Ok((e, _)) ==> i < e <= t.len(),
{
    lemma_run_end(t, i + 1, CharClass::AtomRest);
    lemma_run_end(t, i, CharClass::Digit);
    let d = run_end(t, i, CharClass::Digit);
    if d + 1 < t.len() {
        lemma_run_end(t, d + 1, CharClass::Digit);
    }
    lemma_string_close(t, i + 1, false);
    lemma_run_end(t, i, CharClass::Symbol);
    lemma_no_empty_symbol();
    assert(t.subrange(i, i) =~= Seq::<char>::empty());
}

/// The scanner over one source text.
pub struct Lexer {
    lines: Vec<Vec<char>>,
    pos: Point,
    name: String,
    words: PrefixTree<Token>,
    symbols: PrefixTree<Token>,
    symbol_chars: Vec<char>,
}

impl Lexer {
    /// The source split into lines.
    pub closed spec fn lines_view(&self) -> Seq<Seq<char>> {
        line_seqs(self.lines@)
    }

    /// The whole source text.
    pub open spec fn text(&self) -> Seq<char> {
        text_of(self.lines_view())
    }

    /// The name of the source, which every span carries.
    pub closed spec fn source_name(&self) -> Seq<char> {
        self.name@
    }

    /// The offset into the text of a point.
    pub open spec fn offset_at(&self, p: Point) -> int {
        offset_of(self.lines_view(), p.row as int, p.col as int)
    }

    /// Whether a point is a cursor position of this source.
    pub open spec fn point_valid(&self, p: Point) -> bool {
        pos_valid(self.lines_view(), p.row as int, p.col as int)
    }

    /// The offset of the cursor.
    pub closed spec fn offset(&self) -> int {
        self.offset_at(self.pos)
    }

    pub closed spec fn wf(&self) -> bool {
        &&& lines_wf(self.lines_view())
        &&& self.point_valid(self.pos)
        &&& self.words.wf()
        &&& self.words@ == word_map()
        &&& self.symbols.wf()
        &&& self.symbols@ == symbol_map()
        &&& forall|c: char| #[trigger] self.symbol_chars@.contains(c) <==> is_symbol_char(c)
    }

    /// Everything but the cursor is as in `other`.
    pub closed spec fn same_source(&self, other: &Lexer) -> bool {
        &&& self.lines == other.lines
        &&& self.name == other.name
        &&& self.words == other.words
        &&& self.symbols == other.symbols
        &&& self.symbol_chars == other.symbol_chars
    }

    /// `span` is named after this source and runs from offset `a` to `b`.
    pub open spec fn spans(&self, span: Span, a: int, b: int) -> bool {
        &&& span.name@ == self.source_name()
        &&& self.point_valid(span.start)
        &&& self.point_valid(span.stop)
        &&& self.offset_at(span.start) == a
        &&& self.offset_at(span.stop) == b
    }

    /// `sd` is the token `item`: the same token, over the same offsets.
    pub open spec fn matches_item(&self, sd: SpanData<Token>, item: Item) -> bool {
        &&& self.spans(sd.span, item.0, item.1)
        &&& sd.value@ == item.2
    }

    /// A scanner at the start of `src`.
    pub fn new(name: &str, src: &str) -> (r: Lexer)
        ensures
            r.wf(),
            r.text() == src@,
            split_at_newlines(r.lines_view()),
            r.source_name() == name@,
            r.offset() == 0,
    {
        let lines = split_lines(src);
        let symbols = get_symbol_tree();
        let symbol_chars = symbols.get_all_chars();
        let r = Lexer {
            lines,
            pos: Point { row: 0, col: 0 },
            name: String::from_str(name),
            words: get_word_tree(),
            symbols,
            symbol_chars,
        };
        proof {
            let ls = r.lines_view();
            assert(ls.take(0) =~= Seq::<Seq<char>>::empty());
            if ls[0].len() == 0 {
                assert(ls.len() == 1);
            }
        }
        r
    }

    /// The character under the cursor.
    fn get_char(&self) -> (r: LexResult<char>)
        requires
            self.wf(),
        ensures
            self.offset() < self.text().len() ==> r == Ok::<char, LexError>(
                self.text()[self.offset()],
            ),
            self.offset() >= self.text().len() ==> r matches Err(LexError::EndOfInput),
    {
        proof {
            lemma_pos_offset(self.lines_view(), self.pos.row as int, self.pos.col as int);
        }
        let (row, col) = self.pos.as_tuple();
        if row < self.lines.len() && col < self.lines[row].len() {
            proof {
                lemma_offset_char(self.lines_view(), row as int, col as int);
                assert(self.lines_view()[row as int] == self.lines@[row as int]@);
            }
            Ok(self.lines[row][col])
        } else {
            Err(LexError::EndOfInput)
        }
    }

    /// Moves the cursor one character back.
    fn decrement_pos(&mut self)
        requires
            old(self).wf(),
            old(self).offset() > 0,
        ensures
            final(self).wf(),
            final(self).same_source(old(self)),
            final(self).offset() == old(self).offset() - 1,
    {
        let ghost ls = self.lines_view();
        proof {
            lemma_pos_offset(ls, self.pos.row as int, self.pos.col as int);
            assert(ls.take(0) =~= Seq::<Seq<char>>::empty());
        }
        // Past the final line: back to its last character.
        if self.pos.row >= self.lines.len() {
            let row = self.lines.len() - 1;
            proof {
                assert(ls[row as int] == self.lines@[row as int]@);
                lemma_offset_next_row(ls, row as int);
            }
            self.pos.row = row;
            self.pos.col = self.lines[row].len() - 1;
            return;
        }
        // At the start of a line: back to the end of the line before.
        if self.pos.col == 0 {
            let row = self.pos.row - 1;
            proof {
                assert(ls[row as int] == self.lines@[row as int]@);
                lemma_offset_next_row(ls, row as int);
            }
            self.pos.row = row;
            self.pos.col = self.lines[row].len() - 1;
            return;
        }
        self.pos.col = self.pos.col - 1;
    }

    /// Moves the cursor one character on, if it is on one.
    fn advance_pos(&mut self) -> (r: Option<()>)
        requires
            old(self).wf(),
        ensures
            final(self).wf(),
            final(self).same_source(old(self)),
            old(self).offset() < old(self).text().len() ==> r is Some && final(self).offset()
                == old(self).offset() + 1,
            old(self).offset() >= old(self).text().len() ==> r is None && final(self).pos == old(
                self,
            ).pos,
    {
        let ghost ls = self.lines_view();
        proof {
            lemma_pos_offset(ls, self.pos.row as int, self.pos.col as int);
        }
        let row = self.pos.row;
        if row >= self.lines.len() || self.pos.col >= self.lines[row].len() {
            return None;
        }
        proof {
            assert(ls[row as int] == self.lines@[row as int]@);
        }
        if self.pos.col >= self.lines[row].len() - 1 {
            proof {
                lemma_offset_next_row(ls, row as int);
                if row + 1 < ls.len() {
                    assert(ls[row + 1] == self.lines@[row + 1]@);
                }
            }
            self.pos.col = 0;
            self.pos.row = row + 1;
        } else {
            self.pos.col = self.pos.col + 1;
        }
        Some(())
    }

    /// The character under the cursor, which the cursor moves past.
    fn next_char(&mut self) -> (r: LexResult<char>)
        requires
            old(self).wf(),
        ensures
            final(self).wf(),
            final(self).same_source(old(self)),
            old(self).offset() < old(self).text().len() ==> r == Ok::<char, LexError>(
                old(self).text()[old(self).offset()],
            ) && final(self).offset() == old(self).offset() + 1,
            old(self).offset() >= old(self).text().len() ==> (r matches Err(LexError::EndOfInput))
                && final(self).pos == old(self).pos,
    {
        let ch = self.get_char();
        match ch {
            Ok(c) => {
                self.advance_pos();
                Ok(c)
            },
            Err(e) => Err(e),
        }
    }

    /// Ends an attempt that began with the cursor at `start`: where it failed,
    /// the cursor goes back to `start`.
    fn try_run<T>(&mut self, start: Point, res: LexResult<T>) -> (r: LexResult<T>)
        requires
            old(self).wf(),
            old(self).point_valid(start),
        ensures
            final(self).wf(),
            final(self).same_source(old(self)),
            r == res,
            res is Err ==> final(self).pos == start,
            res is Ok ==> final(self).pos == old(self).pos,
    {
        if res.is_err() {
            self.pos = start;
        }
        res
    }
}

impl Lexer {
    /// Whether `ch` belongs to `class`.
    fn accepts(&self, class: CharClass, ch: char) -> (r: bool)
        requires
            self.wf(),
        ensures
            r == class_has(class, ch),
    {
        match class {
            CharClass::Whitespace => is_whitespace(ch),
            CharClass::Digit => is_numeric(ch),
            CharClass::AtomFirst => is_atom_first_char(ch),
            CharClass::AtomRest => is_atom_char(ch),
            CharClass::Symbol => contains_char(&self.symbol_chars, ch),
            CharClass::Quote => ch == '"',
        }
    }

    /// Reads the run of `class` characters at the cursor onto the end of
    /// `buf`, and makes the span of `buf` stop after it.
    fn read_while_to(&mut self, class: CharClass, buf: &mut SpanData<String>)
        requires
            old(self).wf(),
        ensures
            final(self).wf(),
            final(self).same_source(old(self)),
            final(self).offset() == run_end(old(self).text(), old(self).offset(), class),
            final(buf).value@ == old(buf).value@ + old(self).text().subrange(
                old(self).offset(),
                final(self).offset(),
            ),
            final(buf).span.name == old(buf).span.name,
            final(buf).span.start == old(buf).span.start,
            final(buf).span.stop == final(self).pos,
    {
        let ghost t = self.text();
        let ghost o0 = self.offset();
        proof {
            lemma_pos_offset(self.lines_view(), self.pos.row as int, self.pos.col as int);
        }
        loop
            invariant
                self.wf(),
                self.same_source(old(self)),
                t == self.text(),
                0 <= o0 <= self.offset() <= t.len(),
                run_end(t, o0, class) == run_end(t, self.offset(), class),
                buf.value@ == old(buf).value@ + t.subrange(o0, self.offset()),
                buf.span.name == old(buf).span.name,
                buf.span.start == old(buf).span.start,
            ensures
                self.wf(),
                self.same_source(old(self)),
                self.offset() == run_end(t, o0, class),
                buf.value@ == old(buf).value@ + t.subrange(o0, self.offset()),
                buf.span.name == old(buf).span.name,
                buf.span.start == old(buf).span.start,
            decreases t.len() - self.offset(),
        {
            let ghost before = self.offset();
            match self.next_char() {
                Ok(ch) => {
                    if !self.accepts(class, ch) {
                        self.decrement_pos();
                        break;
                    }
                    let ghost old_value = buf.value@;
                    push_char(&mut buf.value, ch);
                    assert(t.subrange(o0, before + 1) =~= t.subrange(o0, before).push(ch));
                    assert(buf.value@ =~= old_value.push(ch));
                },
                Err(_) => {
                    break;
                },
            }
        }
        buf.span.stop = self.pos;
    }

    /// The run of `class` characters at the cursor, which the cursor
    /// moves past.
    fn read_while(&mut self, class: CharClass) -> (r: SpanData<String>)
        requires
            old(self).wf(),
        ensures
            final(self).wf(),
            final(self).same_source(old(self)),
            final(self).offset() == run_end(old(self).text(), old(self).offset(), class),
            r.value@ == old(self).text().subrange(old(self).offset(), final(self).offset()),
            old(self).spans(r.span, old(self).offset(), final(self).offset()),
    {
        let mut res = SpanData { span: self.empty_span(), value: String::new() };
        self.read_while_to(class, &mut res);
        proof {
            assert(res.value@ =~= self.text().subrange(old(self).offset(), self.offset()));
        }
        res
    }

    /// An empty span at the cursor.
    fn empty_span(&self) -> (r: Span)
        requires
            self.wf(),
        ensures
            self.spans(r, self.offset(), self.offset()),
    {
        Span { name: self.name.clone(), start: self.pos, stop: self.pos }
    }

    /// Moves the cursor past the whitespace under it.
    fn skip_whitespace(&mut self)
        requires
            old(self).wf(),
        ensures
            final(self).wf(),
            final(self).same_source(old(self)),
            final(self).offset() == run_end(
                old(self).text(),
                old(self).offset(),
                CharClass::Whitespace,
            ),
    {
        let ghost t = self.text();
        let ghost o0 = self.offset();
        proof {
            lemma_pos_offset(self.lines_view(), self.pos.row as int, self.pos.col as int);
        }
        loop
            invariant
                self.wf(),
                self.same_source(old(self)),
                t == self.text(),
                0 <= o0 <= self.offset() <= t.len(),
                run_end(t, o0, CharClass::Whitespace) == run_end(
                    t,
                    self.offset(),
                    CharClass::Whitespace,
                ),
            ensures
                self.wf(),
                self.same_source(old(self)),
                self.offset() == run_end(t, o0, CharClass::Whitespace),
            decreases t.len() - self.offset(),
        {
            match self.next_char() {
                Ok(ch) => {
                    if !is_whitespace(ch) {
                        self.decrement_pos();
                        break;
                    }
                },
                Err(_) => {
                    break;
                },
            }
        }
    }

    /// Reads the character under the cursor if it belongs to `class`.
    fn try_parse_char(&mut self, class: CharClass) -> (r: LexResult<char>)
        requires
            old(self).wf(),
        ensures
            final(self).wf(),
            final(self).same_source(old(self)),
            old(self).offset() < old(self).text().len() && class_has(
                class,
                old(self).text()[old(self).offset()],
            ) ==> r == Ok::<char, LexError>(old(self).text()[old(self).offset()])
                && final(self).offset() == old(self).offset() + 1,
            old(self).offset() < old(self).text().len() && !class_has(
                class,
                old(self).text()[old(self).offset()],
            ) ==> (r matches Err(e) && e@ == LexErrorView::Custom("character failed predicate"@))
                && final(self).pos == old(self).pos,
            old(self).offset() >= old(self).text().len() ==> (r matches Err(LexError::EndOfInput))
                && final(self).pos == old(self).pos,
    {
        let start = self.pos;
        let ch = self.next_char();
        match ch {
            Ok(c) => {
                if self.accepts(class, c) {
                    Ok(c)
                } else {
                    self.pos = start;
                    Err(LexError::custom("character failed predicate"))
                }
            },
            Err(e) => Err(e),
        }
    }

    /// Whether the cursor is past the last character.
    fn is_done(&self) -> (r: bool)
        requires
            self.wf(),
        ensures
            r == (self.offset() >= self.text().len()),
    {
        proof {
            lemma_pos_offset(self.lines_view(), self.pos.row as int, self.pos.col as int);
        }
        self.get_char().is_err()
    }
}

impl Lexer {
    /// What a rule at the cursor of `self` leaves in `after` and returns in
    /// `r`, given what the rule says of the text: on success the token and a
    /// cursor past it, on failure the error and the cursor where it was.
    pub closed spec fn rule_outcome(
        &self,
        after: &Lexer,
        rule: Result<(int, TokenView), LexErrorView>,
        r: LexResult<SpanData<Token>>,
    ) -> bool {
        match rule {
            Ok((e, tok)) => (r matches Ok(sd) && self.matches_item(sd, (self.offset(), e, tok)))
                && after.offset() == e,
            Err(x) => (r matches Err(err) && err@ == x) && after.pos == self.pos,
        }
    }

    /// Reads an identifier or a reserved word.
    fn try_parse_atom(&mut self) -> (r: LexResult<SpanData<Token>>)
        requires
            old(self).wf(),
        ensures
            final(self).wf(),
            final(self).same_source(old(self)),
            old(self).rule_outcome(final(self), atom_rule(old(self).text(), old(self).offset()), r),
    {
        let ghost t = self.text();
        let ghost o0 = self.offset();
        proof {
            lemma_pos_offset(self.lines_view(), self.pos.row as int, self.pos.col as int);
        }
        let start = self.pos;
        let res = match self.try_parse_char(CharClass::AtomFirst) {
            Err(_) => Err(LexError::ExpectedAtom),
            Ok(first) => {
                let mut buf = SpanData {
                    span: Span { name: self.name.clone(), start, stop: self.pos },
                    value: String::new(),
                };
                push_char(&mut buf.value, first);
                self.read_while_to(CharClass::AtomRest, &mut buf);
                proof {
                    lemma_run_end(t, o0 + 1, CharClass::AtomRest);
                    assert(buf.value@ =~= t.subrange(o0, self.offset()));
                }
                let text = buf.value;
                let token = match self.words.find(text.as_str()) {
                    Some(tok) => tok.duplicate(),
                    None => Token::Identifier(text),
                };
                Ok(SpanData { span: buf.span, value: token })
            },
        };
        self.try_run(start, res)
    }

    /// Reads a string literal.
    fn try_parse_string(&mut self) -> (r: LexResult<SpanData<Token>>)
        requires
            old(self).wf(),
        ensures
            final(self).wf(),
            final(self).same_source(old(self)),
            old(self).rule_outcome(
                final(self),
                string_rule(old(self).text(), old(self).offset()),
                r,
            ),
    {
        let ghost t = self.text();
        let ghost o0 = self.offset();
        proof {
            lemma_pos_offset(self.lines_view(), self.pos.row as int, self.pos.col as int);
        }
        let start = self.pos;
        let res = match self.try_parse_char(CharClass::Quote) {
            Err(e) => Err(e),
            Ok(_) => {
                let mut buf = String::new();
                let mut escaped = false;
                let mut closed = false;
                loop
                    invariant_except_break
                        buf@ == t.subrange(o0 + 1, self.offset()),
                        string_close(t, o0 + 1, false) == string_close(t, self.offset(), escaped),
                        !closed,
                    invariant
                        self.wf(),
                        self.same_source(old(self)),
                        t == self.text(),
                        0 <= o0,
                        o0 + 1 <= self.offset() <= t.len(),
                    ensures
                        self.wf(),
                        self.same_source(old(self)),
                        closed ==> o0 + 2 <= self.offset() && string_close(t, o0 + 1, false)
                            == Some(self.offset() - 1) && buf@ == t.subrange(
                            o0 + 1,
                            self.offset() - 1,
                        ),
                        !closed ==> string_close(t, o0 + 1, false) is None,
                    decreases t.len() - self.offset(),
                {
                    let ghost before = self.offset();
                    let ghost old_buf = buf@;
                    match self.next_char() {
                        Err(_) => {
                            break;
                        },
                        Ok(ch) => {
                            assert(t.subrange(o0 + 1, before + 1) =~= old_buf.push(ch));
                            if escaped {
                                push_char(&mut buf, ch);
                                escaped = false;
                            } else if ch == '\\' {
                                push_char(&mut buf, ch);
                                escaped = true;
                            } else if ch == '"' {
                                closed = true;
                                break;
                            } else {
                                push_char(&mut buf, ch);
                            }
                        },
                    }
                }
                if closed {
                    Ok(
                        SpanData {
                            span: Span { name: self.name.clone(), start, stop: self.pos },
                            value: Token::String(buf),
                        },
                    )
                } else {
                    Err(LexError::EndOfInput)
                }
            },
        };
        self.try_run(start, res)
    }

    /// Reads a numeral: its digits, and a point with the digits after it
    /// where a digit follows the point.
    fn try_parse_number(&mut self) -> (r: LexResult<SpanData<String>>)
        requires
            old(self).wf(),
        ensures
            final(self).wf(),
            final(self).same_source(old(self)),
            match number_end(old(self).text(), old(self).offset()) {
                Some(e) => (r matches Ok(sd) && sd.value@ == old(self).text().subrange(
                    old(self).offset(),
                    e,
                ) && old(self).spans(sd.span, old(self).offset(), e)) && final(self).offset()
                    == e,
                None => (r matches Err(LexError::ExpectedNumber)) && final(self).pos == old(
                    self,
                ).pos,
            },
    {
        let ghost t = self.text();
        let ghost o0 = self.offset();
        proof {
            lemma_pos_offset(self.lines_view(), self.pos.row as int, self.pos.col as int);
        }
        let start = self.pos;
        let res = match self.get_char() {
            Ok(c) => {
                if is_numeric(c) {
                    let mut number = self.read_while(CharClass::Digit);
                    let ghost d = self.offset();
                    proof {
                        lemma_run_end(t, o0, CharClass::Digit);
                    }
                    match self.next_char() {
                        Ok(ch) => {
                            let digit_follows = match self.get_char() {
                                Ok(c2) => is_numeric(c2),
                                Err(_) => false,
                            };
                            if ch == '.' && digit_follows {
                                push_char(&mut number.value, '.');
                                self.read_while_to(CharClass::Digit, &mut number);
                                proof {
                                    lemma_run_end(t, d + 1, CharClass::Digit);
                                    assert(number.value@ =~= t.subrange(o0, self.offset()));
                                }
                            } else {
                                self.decrement_pos();
                            }
                        },
                        Err(_) => {},
                    }
                    Ok(number)
                } else {
                    Err(LexError::ExpectedNumber)
                }
            },
            Err(_) => Err(LexError::ExpectedNumber),
        };
        self.try_run(start, res)
    }

    /// Reads a number token.
    fn try_parse_number_token(&mut self) -> (r: LexResult<SpanData<Token>>)
        requires
            old(self).wf(),
        ensures
            final(self).wf(),
            final(self).same_source(old(self)),
            old(self).rule_outcome(
                final(self),
                number_rule(old(self).text(), old(self).offset()),
                r,
            ),
    {
        let start = self.pos;
        let res = match self.try_parse_number() {
            Ok(num) => Ok(SpanData { span: num.span, value: Token::Number(num.value) }),
            Err(e) => Err(e),
        };
        self.try_run(start, res)
    }

    /// Reads the longest run of symbol characters, which must be a symbol.
    fn try_parse_symbol(&mut self) -> (r: LexResult<SpanData<Token>>)
        requires
            old(self).wf(),
        ensures
            final(self).wf(),
            final(self).same_source(old(self)),
            old(self).rule_outcome(
                final(self),
                symbol_rule(old(self).text(), old(self).offset()),
                r,
            ),
    {
        let start = self.pos;
        let symbol_text = self.read_while(CharClass::Symbol);
        let res = match self.symbols.find(symbol_text.value.as_str()) {
            Some(tok) => Ok(SpanData { span: symbol_text.span, value: tok.duplicate() }),
            None => Err(LexError::unknown_symbol(symbol_text.value.as_str())),
        };
        self.try_run(start, res)
    }
}

impl Lexer {
    /// Skips whitespace and reads the next token; `None` at the end of the
    /// text.
    fn next_token(&mut self) -> (r: LexResult<Option<SpanData<Token>>>)
        requires
            old(self).wf(),
        ensures
            final(self).wf(),
            final(self).same_source(old(self)),
            ({
                let t = old(self).text();
                let j = run_end(t, old(self).offset(), CharClass::Whitespace);
                if j >= t.len() {
                    (r matches Ok(None)) && final(self).offset() == j
                } else {
                    match token_rule(t, j) {
                        Ok((e, tok)) => (r matches Ok(Some(sd)) && old(self).matches_item(
                            sd,
                            (j, e, tok),
                        )) && final(self).offset() == e,
                        Err(x) => (r matches Err(err) && err@ == x) && final(self).offset() == j,
                    }
                }
            }),
    {
        self.skip_whitespace();
        if !self.is_done() {
            let token = match self.try_parse_atom() {
                Ok(t) => Ok(t),
                Err(_) => match self.try_parse_string() {
                    Ok(t) => Ok(t),
                    Err(_) => match self.try_parse_number_token() {
                        Ok(t) => Ok(t),
                        Err(_) => self.try_parse_symbol(),
                    },
                },
            };
            match token {
                Ok(t) => Ok(Some(t)),
                Err(e) => Err(e),
            }
        } else {
            Ok(None)
        }
    }

    /// All the tokens from the cursor to the end of the text, or the first
    /// error.
    pub fn try_parse_tokens(&mut self) -> (r: LexResult<Vec<SpanData<Token>>>)
        requires
            old(self).wf(),
        ensures
            final(self).wf(),
            final(self).same_source(old(self)),
            match lex_from(old(self).text(), old(self).offset()) {
                Ok(items) => (r matches Ok(v) && v@.len() == items.len() && forall|k: int|
                    0 <= k < items.len() ==> old(self).matches_item(#[trigger] v@[k], items[k])),
                Err(x) => (r matches Err(e) && e@ == x),
            },
    {
        let ghost t = self.text();
        let ghost o0 = self.offset();
        proof {
            lemma_pos_offset(self.lines_view(), self.pos.row as int, self.pos.col as int);
        }
        let mut out: Vec<SpanData<Token>> = Vec::new();
        let ghost mut done: Seq<Item> = Seq::empty();
        assert(done + Seq::<Item>::empty() =~= done);
        loop
            invariant
                self.wf(),
                self.same_source(old(self)),
                t == self.text(),
                t == old(self).text(),
                o0 == old(self).offset(),
                0 <= self.offset() <= t.len(),
                out@.len() == done.len(),
                forall|k: int| 0 <= k < done.len() ==> old(self).matches_item(#[trigger] out@[k], done[k]),
                lex_from(t, o0) == match lex_from(t, self.offset()) {
                    Ok(rest) => Ok(done + rest),
                    Err(x) => Err(x),
                },
            decreases t.len() - self.offset(),
        {
            let ghost i = self.offset();
            let ghost j = run_end(t, i, CharClass::Whitespace);
            proof {
                lemma_run_end(t, i, CharClass::Whitespace);
                if j < t.len() {
                    lemma_token_rule_progress(t, j);
                }
            }
            match self.next_token() {
                Ok(Some(token)) => {
                    let ghost item = (j, self.offset(), token.value@);
                    proof {
                        let rest = lex_from(t, self.offset());
                        if rest is Ok {
                            assert(done + (seq![item] + rest->Ok_0) =~= done.push(item) + rest->Ok_0);
                        }
                        done = done.push(item);
                    }
                    out.push(token);
                },
                Ok(None) => {
                    assert(lex_from(t, i) == Ok::<Seq<Item>, LexErrorView>(Seq::empty()));
                    assert(done + Seq::<Item>::empty() =~= done);
                    assert(lex_from(t, o0) == Ok::<Seq<Item>, LexErrorView>(done));
                    return Ok(out);
                },
                Err(e) => {
                    assert(lex_from(t, i) == Err::<Seq<Item>, LexErrorView>(e@));
                    assert(lex_from(t, o0) == Err::<Seq<Item>, LexErrorView>(e@));
                    return Err(e);
                },
            }
        }
    }
}

/// The text from `from` on, put back together from `items`: for each item,
/// the text before it and the text it spans; last, the text after the last item.
pub open spec fn rebuild(t: Seq<char>, from: int, items: Seq<Item>) -> Seq<char>
    decreases items.len(),
{
    if items.len() == 0 {
        t.subrange(from, t.len() as int)
    } else {
        t.subrange(from, items[0].0) + t.subrange(items[0].0, items[0].1) + rebuild(
            t,
            items[0].1,
            items.drop_first(),
        )
    }
}

/// The items are in order, and what lies before, between and after them is
/// whitespace.
pub open spec fn gaps_are_whitespace(t: Seq<char>, from: int, items: Seq<Item>) -> bool
    decreases items.len(),
{
    if items.len() == 0 {
        forall|j: int| from <= j < t.len() ==> white_space(#[trigger] t[j])
    } else {
        &&& from <= items[0].0 <= items[0].1
        &&& forall|j: int| from <= j < items[0].0 ==> white_space(#[trigger] t[j])
        &&& gaps_are_whitespace(t, items[0].1, items.drop_first())
    }
}

proof fn lemma_round_trip_from(t: Seq<char>, i: int)
    requires
        0 <= i <= t.len(),
        lex_from(t, i) is Ok,
    ensures
        rebuild(t, i, lex_from(t, i)->Ok_0) == t.subrange(i, t.len() as int),
        gaps_are_whitespace(t, i, lex_from(t, i)->Ok_0),
    decreases t.len() - i,
{
    let j = run_end(t, i, CharClass::Whitespace);
    lemma_run_end(t, i, CharClass::Whitespace);
    if j < t.len() {
        lemma_token_rule_progress(t, j);
        let e = token_rule(t, j)->Ok_0.0;
        lemma_round_trip_from(t, e);
        let items = lex_from(t, i)->Ok_0;
        let rest = lex_from(t, e)->Ok_0;
        assert(items.drop_first() =~= rest);
        assert(t.subrange(i, j) + t.subrange(j, e) + t.subrange(e, t.len() as int) =~= t.subrange(
            i,
            t.len() as int,
        ));
    }
}

/// Scanning gives back the whole text: when it succeeds, putting together,
/// in order, the text of every token and the whitespace around them yields
/// the source again, and nothing but whitespace lies outside the tokens.
pub proof fn lemma_round_trip(t: Seq<char>)
    requires
        lex_from(t, 0) is Ok,
    ensures
        rebuild(t, 0, lex_from(t, 0)->Ok_0) == t,
        gaps_are_whitespace(t, 0, lex_from(t, 0)->Ok_0),
{
    lemma_round_trip_from(t, 0);
    assert(t.subrange(0, t.len() as int) =~= t);
}

} // verus!
