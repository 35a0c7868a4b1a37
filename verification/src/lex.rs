//! The tokenizer: what a text's lexemes are, and the scanner that finds them.

use std::collections::VecDeque;
use vstd::prelude::*;
use crate::utils::{
    collect, lemma_location_bounds, lemma_location_monotone, location_at, span_between, Error,
    ErrorKind, Fault, LexingError, Location, Source, Span,
};

verus! {

/// What a lexeme is: a text, a number, a truth value, a name or a symbol.
/// A float holds the text of its literal: an optional sign, digits and one
/// decimal point, with a digit among them.
#[derive(Debug, Clone, PartialEq)]
pub enum LexemeKind {
    String(String),
    Ident(String),
    Integer(i64),
    Float(String),
    Bool(bool),
    LBrack,
    RBrack,
    LBrace,
    RBrace,
    Equal,
    Comma,
}

/// The model of a `LexemeKind`: texts are sequences of characters.
pub enum LexemeKindView {
    String(Seq<char>),
    Ident(Seq<char>),
    Integer(i64),
    Float(Seq<char>),
    Bool(bool),
    LBrack,
    RBrack,
    LBrace,
    RBrace,
    Equal,
    Comma,
}

impl View for LexemeKind {
    type V = LexemeKindView;

    open spec fn view(&self) -> LexemeKindView {
        match *self {
            LexemeKind::String(text) => LexemeKindView::String(text@),
            LexemeKind::Ident(text) => LexemeKindView::Ident(text@),
            LexemeKind::Integer(value) => LexemeKindView::Integer(value),
            LexemeKind::Float(text) => LexemeKindView::Float(text@),
            LexemeKind::Bool(value) => LexemeKindView::Bool(value),
            LexemeKind::LBrack => LexemeKindView::LBrack,
            LexemeKind::RBrack => LexemeKindView::RBrack,
            LexemeKind::LBrace => LexemeKindView::LBrace,
            LexemeKind::RBrace => LexemeKindView::RBrace,
            LexemeKind::Equal => LexemeKindView::Equal,
            LexemeKind::Comma => LexemeKindView::Comma,
        }
    }
}

/// A classified piece of the text, with its range.
#[derive(Debug, Clone, PartialEq)]
pub struct Lexeme {
    pub kind: LexemeKind,
    pub span: Span,
}

/// The model of a `Lexeme`.
pub struct LexemeView {
    pub kind: LexemeKindView,
    pub span: Span,
}

impl View for Lexeme {
    type V = LexemeView;

    open spec fn view(&self) -> LexemeView {
        LexemeView { kind: self.kind@, span: self.span }
    }
}

impl Lexeme {
    pub fn new(kind: LexemeKind, span: Span) -> (r: Self)
        ensures
            r.kind == kind,
            r.span == span,
    {
        Self { kind, span }
    }
}

/// The lexemes of a text, in the order of the text.
pub type LexemeStream = VecDeque<Lexeme>;

/// The models of the lexemes of a stream, in order.
pub open spec fn stream_view(stream: Seq<Lexeme>) -> Seq<LexemeView> {
    Seq::new(stream.len(), |k: int| stream[k]@)
}

/// A digit of ASCII.
pub open spec fn is_digit(c: char) -> bool {
    '0' <= c && c <= '9'
}

/// A character that opens a number: a digit, a sign or the decimal point.
pub open spec fn is_number_start(c: char) -> bool {
    is_digit(c) || c == '-' || c == '+' || c == '.'
}

/// A character of a name: a letter or digit of ASCII, or the underscore.
pub open spec fn is_identifier_char(c: char) -> bool {
    ('a' <= c && c <= 'z') || ('A' <= c && c <= 'Z') || is_digit(c) || c == '_'
}

/// A character that Unicode counts as white space.
pub open spec fn is_space(c: char) -> bool {
    let p = c as u32;
    (0x09 <= p && p <= 0x0D) || p == 0x20 || p == 0x85 || p == 0xA0 || p == 0x1680 || (0x2000 <= p
        && p <= 0x200A) || p == 0x2028 || p == 0x2029 || p == 0x202F || p == 0x205F || p == 0x3000
}

/// The lexeme that a structural symbol stands for.
pub open spec fn symbol_kind(c: char) -> Option<LexemeKindView> {
    if c == '=' {
        Some(LexemeKindView::Equal)
    } else if c == ',' {
        Some(LexemeKindView::Comma)
    } else if c == '[' {
        Some(LexemeKindView::LBrack)
    } else if c == ']' {
        Some(LexemeKindView::RBrack)
    } else if c == '{' {
        Some(LexemeKindView::LBrace)
    } else if c == '}' {
        Some(LexemeKindView::RBrace)
    } else {
        None
    }
}

/// Whether `chr` may stand in an identifier.
pub fn is_identifier(chr: char) -> (r: bool)
    ensures
        r == is_identifier_char(chr),
{
    ('a' <= chr && chr <= 'z') || ('A' <= chr && chr <= 'Z') || ('0' <= chr && chr <= '9') || chr
        == '_'
}

/// Whether `chr` opens a number.
pub fn is_numeric_or_symbol(chr: char) -> (r: bool)
    ensures
        r == is_number_start(chr),
{
    ('0' <= chr && chr <= '9') || chr == '-' || chr == '+' || chr == '.'
}

/// Whether `chr` is white space.
pub fn is_whitespace(chr: char) -> (r: bool)
    ensures
        r == is_space(chr),
{
    let p: u32 = chr as u32;
    (0x09 <= p && p <= 0x0D) || p == 0x20 || p == 0x85 || p == 0xA0 || p == 0x1680 || (0x2000 <= p
        && p <= 0x200A) || p == 0x2028 || p == 0x2029 || p == 0x202F || p == 0x205F || p == 0x3000
}

/// The classes of characters that the scanner reads in runs.
#[derive(Debug, Clone, Copy, PartialEq, Eq, Structural)]
pub enum CharClass {
    /// Digits of ASCII.
    Digit,
    /// Characters of a name.
    Word,
    /// Everything but the line feed: the body of a comment.
    Comment,
}

impl CharClass {
    pub open spec fn holds(self, c: char) -> bool {
        match self {
            CharClass::Digit => is_digit(c),
            CharClass::Word => is_identifier_char(c),
            CharClass::Comment => c != '\n',
        }
    }

    /// Whether `c` belongs to the class.
    pub fn contains(self, c: char) -> (r: bool)
        ensures
            r == self.holds(c),
    {
        match self {
            CharClass::Digit => '0' <= c && c <= '9',
            CharClass::Word => is_identifier(c),
            CharClass::Comment => c != '\n',
        }
    }
}

/// The length of the longest run of characters of `class` that starts at
/// the index `from`.
pub open spec fn run_len(s: Seq<char>, from: int, class: CharClass) -> nat
    decreases s.len() - from,
{
    if 0 <= from < s.len() && class.holds(s[from]) {
        1 + run_len(s, from + 1, class)
    } else {
        0
    }
}

/// Whether the character at the index `k` closes a string: a quote with no
/// backslash before it.
pub open spec fn closes_string(s: Seq<char>, k: int) -> bool {
    s[k] == '"' && s[k - 1] != '\\'
}

/// The length of the body of a string that starts at the index `from`, just
/// behind the opening quote: the characters up to the first quote that no
/// backslash stands before, or up to the end of the text.
pub open spec fn string_len(s: Seq<char>, from: int) -> nat
    decreases s.len() - from,
{
    if 0 < from < s.len() && !closes_string(s, from) {
        1 + string_len(s, from + 1)
    } else {
        0
    }
}

/// The value of a run of digits, read as a decimal number.
pub open spec fn digits_value(digits: Seq<char>) -> nat
    decreases digits.len(),
{
    if digits.len() == 0 {
        0
    } else {
        digits_value(digits.drop_last()) * 10 + (digits.last() as u32 - 0x30) as nat
    }
}

/// The integer that a sign and digits denote, where there is a digit and the
/// value fits in 64 bits.
pub open spec fn integer_of(text: Seq<char>) -> Option<i64> {
    let signed = text.len() > 0 && (text[0] == '-' || text[0] == '+');
    let digits = if signed { text.skip(1) } else { text };
    let value = if text.len() > 0 && text[0] == '-' {
        -(digits_value(digits) as int)
    } else {
        digits_value(digits) as int
    };
    if digits.len() > 0 && i64::MIN <= value <= i64::MAX {
        Some(value as i64)
    } else {
        None
    }
}

/// The extent of a number: the index behind its last character, whether it
/// has a decimal point, and whether a second point follows it.
pub struct NumberShape {
    pub end: int,
    pub dot: bool,
    pub twice: bool,
}

/// The number that starts at the index `i`: its first character, digits, at
/// most one decimal point and the digits behind that.
pub open spec fn number_shape(s: Seq<char>, i: int) -> NumberShape {
    let a = i + 1 + run_len(s, i + 1, CharClass::Digit);
    if s[i] == '.' {
        NumberShape { end: a, dot: true, twice: a < s.len() && s[a] == '.' }
    } else if a < s.len() && s[a] == '.' {
        let b = a + 1 + run_len(s, a + 1, CharClass::Digit);
        NumberShape { end: b, dot: true, twice: b < s.len() && s[b] == '.' }
    } else {
        NumberShape { end: a, dot: false, twice: false }
    }
}

/// Whether a text holds a digit.
pub open spec fn has_digit(text: Seq<char>) -> bool {
    exists|k: int| 0 <= k < text.len() && is_digit(#[trigger] text[k])
}

/// What the scanner does with the characters from one index on: it emits a
/// lexeme, skips them, or fails. `end` is the index behind the last character
/// that it has read.
pub enum Step {
    Emit { kind: LexemeKindView, end: int },
    Skip { end: int },
    Fail { reason: LexingError, end: int },
}

impl Step {
    /// The index behind the last character that the step has read.
    pub open spec fn end(self) -> int {
        match self {
            Step::Emit { kind, end } => end,
            Step::Skip { end } => end,
            Step::Fail { reason, end } => end,
        }
    }
}

/// The name or truth value that the characters of a word denote.
pub open spec fn word_kind(text: Seq<char>) -> LexemeKindView {
    if text == seq!['t', 'r', 'u', 'e'] {
        LexemeKindView::Bool(true)
    } else if text == seq!['f', 'a', 'l', 's', 'e'] {
        LexemeKindView::Bool(false)
    } else {
        LexemeKindView::Ident(text)
    }
}

/// The index behind the comment that starts at the index `i`: behind the line
/// feed that ends it, or the end of the text.
pub open spec fn comment_end(s: Seq<char>, i: int) -> int {
    let end = i + 1 + run_len(s, i + 1, CharClass::Comment);
    if end < s.len() {
        end + 1
    } else {
        end
    }
}

/// The step that the scanner takes at the index `i` of the text `s`.
pub open spec fn step_at(s: Seq<char>, i: int) -> Step
    recommends
        0 <= i < s.len(),
{
    let c = s[i];
    if symbol_kind(c) is Some {
        Step::Emit { kind: symbol_kind(c)->0, end: i + 1 }
    } else if c == '"' {
        let close = i + 1 + string_len(s, i + 1);
        if close < s.len() {
            Step::Emit { kind: LexemeKindView::String(s.subrange(i + 1, close)), end: close + 1 }
        } else {
            Step::Fail { reason: LexingError::UnterminatedString, end: s.len() as int }
        }
    } else if is_number_start(c) {
        let shape = number_shape(s, i);
        let text = s.subrange(i, shape.end);
        if shape.twice {
            Step::Fail { reason: LexingError::MalformedNumber, end: shape.end }
        } else if shape.dot {
            if has_digit(text) {
                Step::Emit { kind: LexemeKindView::Float(text), end: shape.end }
            } else {
                Step::Fail { reason: LexingError::MalformedNumber, end: shape.end }
            }
        } else {
            match integer_of(text) {
                Some(value) => Step::Emit { kind: LexemeKindView::Integer(value), end: shape.end },
                None => Step::Fail { reason: LexingError::MalformedNumber, end: shape.end },
            }
        }
    } else if is_identifier_char(c) {
        let end = i + 1 + run_len(s, i + 1, CharClass::Word);
        Step::Emit { kind: word_kind(s.subrange(i, end)), end }
    } else if c == '#' {
        Step::Skip { end: comment_end(s, i) }
    } else if c == '\n' || is_space(c) {
        Step::Skip { end: i + 1 }
    } else {
        Step::Fail { reason: LexingError::UnrecognizedToken, end: i + 1 }
    }
}

/// The lexemes `head`, followed by the outcome `tail` of the rest of the text.
pub open spec fn prepend(head: Seq<LexemeView>, tail: Result<Seq<LexemeView>, Fault>) -> Result<
    Seq<LexemeView>,
    Fault,
> {
    match tail {
        Ok(rest) => Ok(head + rest),
        Err(fault) => Err(fault),
    }
}

/// The lexemes of the text `s` from the index `i` on, or the first error.
pub open spec fn lex_from(s: Seq<char>, i: int) -> Result<Seq<LexemeView>, Fault>
    decreases s.len() - i,
    via lex_from_terminates
{
    if i < 0 || i >= s.len() {
        Ok(Seq::empty())
    } else {
        match step_at(s, i) {
            Step::Fail { reason, end } => Err(
                Fault { kind: ErrorKind::Lexing(reason), span: span_between(s, i, end) },
            ),
            Step::Skip { end } => lex_from(s, end),
            Step::Emit { kind, end } => prepend(
                seq![LexemeView { kind, span: span_between(s, i, end) }],
                lex_from(s, end),
            ),
        }
    }
}

#[via_fn]
proof fn lex_from_terminates(s: Seq<char>, i: int) {
    if 0 <= i < s.len() {
        lemma_step_forward(s, i);
    }
}

/// A run ends within the text.
pub proof fn lemma_run_within(s: Seq<char>, from: int, class: CharClass)
    requires
        0 <= from <= s.len(),
    ensures
        from + run_len(s, from, class) <= s.len(),
    decreases s.len() - from,
{
    if from < s.len() && class.holds(s[from]) {
        lemma_run_within(s, from + 1, class);
    }
}

/// The body of a string ends within the text.
pub proof fn lemma_string_within(s: Seq<char>, from: int)
    requires
        0 <= from <= s.len(),
    ensures
        from + string_len(s, from) <= s.len(),
    decreases s.len() - from,
{
    if 0 < from < s.len() && !closes_string(s, from) {
        lemma_string_within(s, from + 1);
    }
}

/// Every step reads at least one character, and none behind the text.
pub proof fn lemma_step_forward(s: Seq<char>, i: int)
    requires
        0 <= i < s.len(),
    ensures
        i < step_at(s, i).end() <= s.len(),
{
    lemma_run_within(s, i + 1, CharClass::Digit);
    lemma_run_within(s, i + 1, CharClass::Word);
    lemma_run_within(s, i + 1, CharClass::Comment);
    lemma_string_within(s, i + 1);
    let a = i + 1 + run_len(s, i + 1, CharClass::Digit);
    if a < s.len() {
        lemma_run_within(s, a + 1, CharClass::Digit);
    }
}

/// The lexemes of the text `s`, or the first error in it.
pub open spec fn tokenize(s: Seq<char>) -> Result<Seq<LexemeView>, Fault> {
    lex_from(s, 0)
}

/// Every character of a run belongs to its class.
pub proof fn lemma_run_holds(s: Seq<char>, from: int, class: CharClass, k: int)
    requires
        0 <= from <= k < from + run_len(s, from, class),
    ensures
        k < s.len(),
        class.holds(s[k]),
    decreases k - from,
{
    if k > from {
        lemma_run_holds(s, from + 1, class, k);
    }
}

/// A run is as long as it can be: the character behind it, if there is one,
/// is not of its class.
pub proof fn lemma_run_stops(s: Seq<char>, from: int, class: CharClass)
    requires
        0 <= from <= s.len(),
        from + run_len(s, from, class) < s.len(),
    ensures
        !class.holds(s[from + run_len(s, from, class)]),
    decreases s.len() - from,
{
    if from < s.len() && class.holds(s[from]) {
        lemma_run_stops(s, from + 1, class);
    }
}

/// The body of a string ends at the first quote that closes it, and holds
/// none.
pub proof fn lemma_string_closes(s: Seq<char>, from: int, k: int)
    requires
        0 < from <= s.len(),
        from <= k <= from + string_len(s, from),
    ensures
        k < from + string_len(s, from) ==> k < s.len() && !closes_string(s, k),
        k == from + string_len(s, from) && k < s.len() ==> closes_string(s, k),
    decreases k - from,
{
    lemma_string_within(s, from);
    if k > from {
        lemma_string_closes(s, from + 1, k);
    }
}

proof fn lemma_prepend_nothing(tail: Result<Seq<LexemeView>, Fault>)
    ensures
        prepend(Seq::empty(), tail) == tail,
{
    if let Ok(rest) = tail {
        assert(Seq::<LexemeView>::empty() + rest =~= rest);
    }
}

proof fn lemma_prepend_one(
    head: Seq<LexemeView>,
    one: LexemeView,
    tail: Result<Seq<LexemeView>, Fault>,
)
    ensures
        prepend(head, prepend(seq![one], tail)) == prepend(head.push(one), tail),
{
    if let Ok(rest) = tail {
        assert(head + (seq![one] + rest) =~= head.push(one) + rest);
    }
}

/// A number with a decimal point holds a digit just when it is longer than
/// its sign and the point.
proof fn lemma_float_digits(s: Seq<char>, i: int)
    requires
        0 <= i < s.len(),
        is_number_start(s[i]),
        number_shape(s, i).dot,
    ensures
        has_digit(s.subrange(i, number_shape(s, i).end)) <==> number_shape(s, i).end - i > (if s[i]
            == '-' || s[i] == '+' {
            2int
        } else {
            1int
        }),
{
    lemma_step_forward(s, i);
    let shape = number_shape(s, i);
    let text = s.subrange(i, shape.end);
    let a = i + 1 + run_len(s, i + 1, CharClass::Digit);
    lemma_run_within(s, i + 1, CharClass::Digit);
    if s[i] == '.' {
        if shape.end - i > 1 {
            lemma_run_holds(s, i + 1, CharClass::Digit, i + 1);
            assert(is_digit(text[1]));
        }
    } else {
        lemma_run_within(s, a + 1, CharClass::Digit);
        if is_digit(s[i]) {
            assert(is_digit(text[0]));
        } else if a > i + 1 {
            lemma_run_holds(s, i + 1, CharClass::Digit, i + 1);
            assert(is_digit(text[1]));
        } else if shape.end > a + 1 {
            lemma_run_holds(s, a + 1, CharClass::Digit, a + 1);
            assert(is_digit(text[2]));
        }
    }
}

/// Reads the run of `class` that starts at the index `from`, and moves `at`
/// past it.
fn skip_run(chars: &Vec<char>, from: usize, class: CharClass, at: &mut Location) -> (end: usize)
    requires
        from <= chars.len() < usize::MAX,
        *old(at) == location_at(chars@, from as int),
    ensures
        end == from + run_len(chars@, from as int, class),
        end <= chars.len(),
        *final(at) == location_at(chars@, end as int),
{
    let mut end: usize = from;
    while end < chars.len() && class.contains(chars[end])
        invariant
            from <= end <= chars.len() < usize::MAX,
            *at == location_at(chars@, end as int),
            run_len(chars@, from as int, class) == (end - from) + run_len(
                chars@,
                end as int,
                class,
            ),
        decreases chars.len() - end,
    {
        proof {
            lemma_location_bounds(chars@, end as int);
        }
        at.advance(chars[end]);
        end += 1;
    }
    assert(run_len(chars@, end as int, class) == 0);
    end
}

/// Reads the body of a string from the index `from`, just behind the opening
/// quote, up to the closing quote or the end of the text, and moves `at`
/// past it.
fn skip_string(chars: &Vec<char>, from: usize, at: &mut Location) -> (end: usize)
    requires
        0 < from <= chars.len() < usize::MAX,
        *old(at) == location_at(chars@, from as int),
    ensures
        end == from + string_len(chars@, from as int),
        end <= chars.len(),
        *final(at) == location_at(chars@, end as int),
{
    let mut end: usize = from;
    while end < chars.len() && !(chars[end] == '"' && chars[end - 1] != '\\')
        invariant
            0 < from <= end <= chars.len() < usize::MAX,
            *at == location_at(chars@, end as int),
            string_len(chars@, from as int) == (end - from) + string_len(chars@, end as int),
        decreases chars.len() - end,
    {
        proof {
            lemma_location_bounds(chars@, end as int);
        }
        at.advance(chars[end]);
        end += 1;
    }
    assert(string_len(chars@, end as int) == 0);
    end
}

/// The name or truth value that the characters from `from` up to `to` denote.
fn word(chars: &Vec<char>, from: usize, to: usize) -> (kind: LexemeKind)
    requires
        from <= to <= chars.len(),
    ensures
        kind@ == word_kind(chars@.subrange(from as int, to as int)),
{
    let ghost text = chars@.subrange(from as int, to as int);
    if to - from == 4 && chars[from] == 't' && chars[from + 1] == 'r' && chars[from + 2] == 'u'
        && chars[from + 3] == 'e' {
        assert(text =~= seq!['t', 'r', 'u', 'e']);
        LexemeKind::Bool(true)
    } else if to - from == 5 && chars[from] == 'f' && chars[from + 1] == 'a' && chars[from + 2]
        == 'l' && chars[from + 3] == 's' && chars[from + 4] == 'e' {
        assert(text =~= seq!['f', 'a', 'l', 's', 'e']);
        LexemeKind::Bool(false)
    } else {
        proof {
            let yes = seq!['t', 'r', 'u', 'e'];
            let no = seq!['f', 'a', 'l', 's', 'e'];
            if text == yes {
                assert(text.len() == 4);
                assert(text[0] == yes[0] && text[1] == yes[1] && text[2] == yes[2] && text[3]
                    == yes[3]);
            }
            if text == no {
                assert(text.len() == 5);
                assert(text[0] == no[0] && text[1] == no[1] && text[2] == no[2] && text[3] == no[3]
                    && text[4] == no[4]);
            }
        }
        LexemeKind::Ident(collect(chars, from, to))
    }
}

/// The integer that the characters from `from` up to `to` denote: a digit or
/// a sign first, then digits.
fn parse_integer(chars: &Vec<char>, from: usize, to: usize) -> (r: Option<i64>)
    requires
        from < to <= chars.len(),
        is_number_start(chars@[from as int]),
        chars@[from as int] != '.',
        forall|k: int| from < k < to ==> is_digit(#[trigger] chars@[k]),
    ensures
        r == integer_of(chars@.subrange(from as int, to as int)),
{
    let first = chars[from];
    let signed = first == '-' || first == '+';
    let start: usize = if signed { from + 1 } else { from };
    let ghost text = chars@.subrange(from as int, to as int);
    let ghost digits = chars@.subrange(start as int, to as int);
    assert(text[0] == first);
    assert(digits =~= if signed { text.skip(1) } else { text });
    let mut acc: u64 = 0;
    let mut over = false;
    let mut k: usize = start;
    assert(chars@.subrange(start as int, k as int) =~= Seq::<char>::empty());
    while k < to
        invariant
            from <= start <= k <= to <= chars.len(),
            forall|j: int| start <= j < to ==> is_digit(#[trigger] chars@[j]),
            !over ==> acc == digits_value(chars@.subrange(start as int, k as int)),
            acc <= 0x8000_0000_0000_0000,
            over ==> digits_value(chars@.subrange(start as int, k as int)) > 0x8000_0000_0000_0000,
        decreases to - k,
    {
        let c = chars[k];
        assert(is_digit(c));
        let d: u64 = (c as u32 - 0x30) as u64;
        proof {
            let longer = chars@.subrange(start as int, k + 1);
            assert(longer.drop_last() =~= chars@.subrange(start as int, k as int));
            assert(longer.last() == c);
        }
        if !over {
            let next: u128 = acc as u128 * 10 + d as u128;
            if next > 0x8000_0000_0000_0000 {
                over = true;
            } else {
                acc = next as u64;
            }
        }
        k += 1;
    }
    if start == to || over {
        None
    } else if first == '-' {
        if acc == 0x8000_0000_0000_0000 {
            Some(i64::MIN)
        } else {
            Some(-(acc as i64))
        }
    } else if acc > 0x7FFF_FFFF_FFFF_FFFF {
        None
    } else {
        Some(acc as i64)
    }
}

/// Every range lies between two positions and does not run backwards, and
/// each lexeme begins where the one before it ends or later.
pub open spec fn spans_ordered(lexemes: Seq<LexemeView>) -> bool {
    &&& forall|k: int| 0 <= k < lexemes.len() ==> (#[trigger] lexemes[k]).span.valid()
    &&& forall|k: int|
        0 <= k < lexemes.len() - 1 ==> (#[trigger] lexemes[k]).span.end.at_or_before(
            lexemes[k + 1].span.begin,
        )
}

/// The lexemes from the index `i` on lie in the order of the text, and none
/// begins before the position of `i`.
pub proof fn lemma_spans_ordered_from(s: Seq<char>, i: int)
    requires
        0 <= i <= s.len() < usize::MAX,
        lex_from(s, i) is Ok,
    ensures
        spans_ordered(lex_from(s, i)->Ok_0),
        forall|k: int|
            0 <= k < lex_from(s, i)->Ok_0.len() ==> location_at(s, i).at_or_before(
                (#[trigger] lex_from(s, i)->Ok_0[k]).span.begin,
            ),
    decreases s.len() - i,
{
    if i < s.len() {
        lemma_step_forward(s, i);
        let step = step_at(s, i);
        let end = step.end();
        lemma_location_monotone(s, i, end);
        lemma_location_bounds(s, i);
        lemma_location_bounds(s, end);
        match step {
            Step::Fail { reason, end } => {},
            Step::Skip { end } => {
                lemma_spans_ordered_from(s, end);
            },
            Step::Emit { kind, end } => {
                lemma_spans_ordered_from(s, end);
                let rest = lex_from(s, end)->Ok_0;
                let first = LexemeView { kind, span: span_between(s, i, end) };
                let all = lex_from(s, i)->Ok_0;
                assert(all =~= seq![first] + rest);
                assert forall|k: int| 0 <= k < all.len() implies location_at(s, i).at_or_before(
                    (#[trigger] all[k]).span.begin,
                ) && all[k].span.valid() by {
                    if k > 0 {
                        assert(all[k] == rest[k - 1]);
                    }
                }
                assert forall|k: int| 0 <= k < all.len() - 1 implies (#[trigger] all[k]).span.end
                    .at_or_before(all[k + 1].span.begin) by {
                    assert(all[k + 1] == rest[k]);
                    if k > 0 {
                        assert(all[k] == rest[k - 1]);
                    }
                }
            },
        }
    }
}

/// In the lexemes of a text no range runs backwards, and each lexeme begins
/// where the one before it ends or later.
pub proof fn lemma_spans_ordered(s: Seq<char>)
    requires
        s.len() < usize::MAX,
        tokenize(s) is Ok,
    ensures
        spans_ordered(tokenize(s)->Ok_0),
{
    lemma_spans_ordered_from(s, 0);
}

/// A text that is one structural symbol has one lexeme, that symbol's, one
/// column wide.
pub proof fn lemma_symbol_alone(c: char)
    requires
        symbol_kind(c) is Some,
    ensures
        tokenize(seq![c]) == Ok::<Seq<LexemeView>, Fault>(
            seq![
                LexemeView {
                    kind: symbol_kind(c)->0,
                    span: Span {
                        begin: Location { line: 1, col: 1 },
                        end: Location { line: 1, col: 2 },
                    },
                },
            ],
        ),
{
    let s = seq![c];
    assert(location_at(s, 0) == Location::origin());
    assert(location_at(s, 1) == location_at(s, 0).after(s[0]));
    assert(lex_from(s, 1) == Ok::<Seq<LexemeView>, Fault>(Seq::empty()));
    let one = LexemeView { kind: symbol_kind(c)->0, span: span_between(s, 0, 1) };
    assert(step_at(s, 0) == Step::Emit { kind: symbol_kind(c)->0, end: 1 });
    assert(seq![one] + Seq::<LexemeView>::empty() =~= seq![one]);
}

/// Whether a character opens nothing that the scanner knows: no symbol, string,
/// number, name or comment, and no white space.
pub open spec fn is_unrecognized(c: char) -> bool {
    symbol_kind(c) is None && c != '"' && !is_number_start(c) && !is_identifier_char(c) && c != '#'
        && c != '\n' && !is_space(c)
}

/// A text that is one character of no known class fails as an unrecognized
/// token, with a range of one column over that character.
pub proof fn lemma_unrecognized_alone(c: char)
    requires
        is_unrecognized(c),
    ensures
        tokenize(seq![c]) == Err::<Seq<LexemeView>, Fault>(
            Fault {
                kind: ErrorKind::Lexing(LexingError::UnrecognizedToken),
                span: Span {
                    begin: Location { line: 1, col: 1 },
                    end: Location { line: 1, col: 2 },
                },
            },
        ),
{
    let s = seq![c];
    assert(location_at(s, 0) == Location::origin());
    assert(location_at(s, 1) == location_at(s, 0).after(s[0]));
    assert(step_at(s, 0) == Step::Fail { reason: LexingError::UnrecognizedToken, end: 1 });
}

/// White space and line feeds give no lexeme: the outcome from such a
/// character on is that of the text behind it.
pub proof fn lemma_blank_skipped(s: Seq<char>, i: int)
    requires
        0 <= i < s.len(),
        s[i] == '\n' || is_space(s[i]),
    ensures
        lex_from(s, i) == lex_from(s, i + 1),
{
}

/// A text of white space and line feeds alone has no lexeme.
pub proof fn lemma_blank_text(s: Seq<char>, i: int)
    requires
        0 <= i <= s.len(),
        forall|k: int| i <= k < s.len() ==> s[k] == '\n' || is_space(#[trigger] s[k]),
    ensures
        lex_from(s, i) == Ok::<Seq<LexemeView>, Fault>(Seq::empty()),
    decreases s.len() - i,
{
    if i < s.len() {
        lemma_blank_skipped(s, i);
        lemma_blank_text(s, i + 1);
    }
}

/// A comment gives no lexeme: the outcome from its `#` on is that of the text
/// behind its line.
pub proof fn lemma_comment_skipped(s: Seq<char>, i: int)
    requires
        0 <= i < s.len(),
        s[i] == '#',
    ensures
        lex_from(s, i) == lex_from(s, comment_end(s, i)),
{
}

/// What the scanner has found at one index, and the index behind the last
/// character that it has read.
pub enum Scanned {
    Emit { kind: LexemeKind, end: usize },
    Skip { end: usize },
    Fail { reason: LexingError, end: usize },
}

impl View for Scanned {
    type V = Step;

    open spec fn view(&self) -> Step {
        match *self {
            Scanned::Emit { kind, end } => Step::Emit { kind: kind@, end: end as int },
            Scanned::Skip { end } => Step::Skip { end: end as int },
            Scanned::Fail { reason, end } => Step::Fail { reason, end: end as int },
        }
    }
}

/// Reads the string whose opening quote stands at the index `i`; `at` is the
/// position behind that quote.
fn scan_string(chars: &Vec<char>, i: usize, at: &mut Location) -> (r: Scanned)
    requires
        i < chars.len() < usize::MAX,
        chars@[i as int] == '"',
        *old(at) == location_at(chars@, i + 1),
    ensures
        r@ == step_at(chars@, i as int),
        *final(at) == location_at(chars@, r@.end()),
{
    let close = skip_string(chars, i + 1, at);
    if close >= chars.len() {
        return Scanned::Fail { reason: LexingError::UnterminatedString, end: close };
    }
    proof {
        lemma_location_bounds(chars@, close as int);
    }
    at.advance(chars[close]);
    Scanned::Emit { kind: LexemeKind::String(collect(chars, i + 1, close)), end: close + 1 }
}

/// Reads the number whose first character stands at the index `i`; `at` is
/// the position behind that character.
fn scan_number(chars: &Vec<char>, i: usize, at: &mut Location) -> (r: Scanned)
    requires
        i < chars.len() < usize::MAX,
        is_number_start(chars@[i as int]),
        chars@[i as int] != '"',
        symbol_kind(chars@[i as int]) is None,
        *old(at) == location_at(chars@, i + 1),
    ensures
        r@ == step_at(chars@, i as int),
        *final(at) == location_at(chars@, r@.end()),
{
    let n = chars.len();
    let tok = chars[i];
    let mut stop = skip_run(chars, i + 1, CharClass::Digit, at);
    let mut dot = tok == '.';
    if !dot && stop < n && chars[stop] == '.' {
        proof {
            lemma_location_bounds(chars@, stop as int);
        }
        at.advance('.');
        stop = skip_run(chars, stop + 1, CharClass::Digit, at);
        dot = true;
    }
    assert(stop == number_shape(chars@, i as int).end);
    assert(dot == number_shape(chars@, i as int).dot);
    if dot && stop < n && chars[stop] == '.' {
        return Scanned::Fail { reason: LexingError::MalformedNumber, end: stop };
    }
    if dot {
        let least: usize = if tok == '-' || tok == '+' { 2 } else { 1 };
        proof {
            lemma_float_digits(chars@, i as int);
        }
        if stop - i > least {
            Scanned::Emit { kind: LexemeKind::Float(collect(chars, i, stop)), end: stop }
        } else {
            Scanned::Fail { reason: LexingError::MalformedNumber, end: stop }
        }
    } else {
        assert forall|k: int| i < k < stop implies is_digit(#[trigger] chars@[k]) by {
            lemma_run_holds(chars@, i + 1, CharClass::Digit, k);
        }
        match parse_integer(chars, i, stop) {
            Some(value) => Scanned::Emit { kind: LexemeKind::Integer(value), end: stop },
            None => Scanned::Fail { reason: LexingError::MalformedNumber, end: stop },
        }
    }
}

/// The lexeme of a structural symbol.
fn symbol(tok: char) -> (r: Option<LexemeKind>)
    ensures
        match r {
            Some(kind) => symbol_kind(tok) == Some(kind@),
            None => symbol_kind(tok) is None,
        },
{
    if tok == '=' {
        Some(LexemeKind::Equal)
    } else if tok == ',' {
        Some(LexemeKind::Comma)
    } else if tok == '[' {
        Some(LexemeKind::LBrack)
    } else if tok == ']' {
        Some(LexemeKind::RBrack)
    } else if tok == '{' {
        Some(LexemeKind::LBrace)
    } else if tok == '}' {
        Some(LexemeKind::RBrace)
    } else {
        None
    }
}

/// Takes one step of the scanner at the index `i`, and moves `at` from the
/// position of `i` to the position behind the last character read.
fn scan_at(chars: &Vec<char>, i: usize, at: &mut Location) -> (r: Scanned)
    requires
        i < chars.len() < usize::MAX,
        *old(at) == location_at(chars@, i as int),
    ensures
        r@ == step_at(chars@, i as int),
        *final(at) == location_at(chars@, r@.end()),
{
    let n = chars.len();
    let tok = chars[i];
    proof {
        lemma_location_bounds(chars@, i as int);
    }
    at.advance(tok);
    if let Some(kind) = symbol(tok) {
        Scanned::Emit { kind, end: i + 1 }
    } else if tok == '"' {
        scan_string(chars, i, at)
    } else if is_numeric_or_symbol(tok) {
        scan_number(chars, i, at)
    } else if is_identifier(tok) {
        let stop = skip_run(chars, i + 1, CharClass::Word, at);
        Scanned::Emit { kind: word(chars, i, stop), end: stop }
    } else if tok == '#' {
        let stop = skip_run(chars, i + 1, CharClass::Comment, at);
        if stop < n {
            proof {
                lemma_location_bounds(chars@, stop as int);
            }
            at.advance(chars[stop]);
            Scanned::Skip { end: stop + 1 }
        } else {
            Scanned::Skip { end: stop }
        }
    } else if tok == '\n' || is_whitespace(tok) {
        Scanned::Skip { end: i + 1 }
    } else {
        Scanned::Fail { reason: LexingError::UnrecognizedToken, end: i + 1 }
    }
}

/// Tokenizes the content of `src`: the lexemes in the order of the text, or
/// the first error, with the range at which it was found. The content must
/// be short enough for the position behind its last character to fit in a
/// machine word.
pub fn lex<'a>(src: &'a Source<'a>) -> (r: Result<LexemeStream, Error<'a>>)
    requires
        src.content@.len() < usize::MAX,
    ensures
        match r {
            Ok(stream) => tokenize(src.content@) == Ok::<Seq<LexemeView>, Fault>(
                stream_view(stream@),
            ),
            Err(error) => tokenize(src.content@) == Err::<Seq<LexemeView>, Fault>(error.fault())
                && error.src == src,
        },
        r matches Ok(stream) ==> spans_ordered(stream_view(stream@)),
        r matches Err(error) ==> error.span.valid(),
{
    let chars = src.chars();
    let n = chars.len();
    let mut lexemes: LexemeStream = VecDeque::new();
    let mut at = Location::default();
    let mut i: usize = 0;
    proof {
        assert(stream_view(lexemes@) =~= Seq::<LexemeView>::empty());
        lemma_prepend_nothing(lex_from(chars@, 0));
    }
    while i < n
        invariant
            n == chars.len(),
            chars@ == src.content@,
            i <= n < usize::MAX,
            at == location_at(chars@, i as int),
            tokenize(chars@) == prepend(stream_view(lexemes@), lex_from(chars@, i as int)),
        decreases n - i,
    {
        let begin = at;
        proof {
            lemma_step_forward(chars@, i as int);
        }
        match scan_at(&chars, i, &mut at) {
            Scanned::Emit { kind, end } => {
                let lexeme = Lexeme::new(kind, Span::new(begin, at));
                proof {
                    lemma_prepend_one(
                        stream_view(lexemes@),
                        lexeme@,
                        lex_from(chars@, end as int),
                    );
                    assert(stream_view(lexemes@.push(lexeme)) =~= stream_view(lexemes@).push(
                        lexeme@,
                    ));
                }
                lexemes.push_back(lexeme);
                i = end;
            },
            Scanned::Skip { end } => {
                i = end;
            },
            Scanned::Fail { reason, end } => {
                proof {
                    lemma_location_monotone(chars@, i as int, end as int);
                    lemma_location_bounds(chars@, i as int);
                    lemma_location_bounds(chars@, end as int);
                }
                return Err(Error::lexing(reason, Span::new(begin, at), src));
            },
        }
    }
    proof {
        assert(stream_view(lexemes@) + Seq::<LexemeView>::empty() =~= stream_view(lexemes@));
        lemma_spans_ordered(chars@);
    }
    Ok(lexemes)
}

} // verus!
