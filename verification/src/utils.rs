//! Positions in a source text, the source itself, and lexical errors.

use vstd::prelude::*;
use vstd::string::StringExecFns;

verus! {

/// `String::push` appends one character to the text.
pub assume_specification[ std::string::String::push ](s: &mut std::string::String, ch: char)
    ensures
        final(s)@ == old(s)@.push(ch),
;

/// The characters from the index `from` up to `to`, as a text.
pub fn collect(chars: &Vec<char>, from: usize, to: usize) -> (text: String)
    requires
        from <= to <= chars.len(),
    ensures
        text@ == chars@.subrange(from as int, to as int),
{
    let mut text = String::new();
    let mut k: usize = from;
    while k < to
        invariant
            from <= k <= to <= chars.len(),
            text@ == chars@.subrange(from as int, k as int),
        decreases to - k,
    {
        text.push(chars[k]);
        k += 1;
        assert(text@ =~= chars@.subrange(from as int, k as int));
    }
    text
}

/// The decimal digit for a number below ten.
pub open spec fn digit_char(d: nat) -> char {
    (0x30 + d) as char
}

/// The decimal numeral of `n`, without leading zeros.
pub open spec fn decimal(n: nat) -> Seq<char>
    decreases n,
{
    if n < 10 {
        seq![digit_char(n)]
    } else {
        decimal(n / 10).push(digit_char(n % 10))
    }
}

/// Appends the decimal numeral of `n` to `out`.
pub fn push_decimal(out: &mut String, n: usize)
    ensures
        final(out)@ == old(out)@ + decimal(n as nat),
    decreases n,
{
    if n >= 10 {
        push_decimal(out, n / 10);
    }
    let d: u8 = (n % 10) as u8;
    out.push((0x30u8 + d) as char);
    assert(out@ =~= old(out)@ + decimal(n as nat));
}

/// The number of bytes that UTF-8 takes for a character.
pub open spec fn utf8_len(c: char) -> nat {
    let p = c as u32;
    if p < 0x80 {
        1
    } else if p < 0x800 {
        2
    } else if p < 0x10000 {
        3
    } else {
        4
    }
}

/// The number of bytes that UTF-8 takes for a text.
pub open spec fn byte_len(s: Seq<char>) -> nat
    decreases s.len(),
{
    if s.len() == 0 {
        0
    } else {
        utf8_len(s[0]) + byte_len(s.drop_first())
    }
}

/// A character more takes that character's bytes more.
pub proof fn lemma_byte_len_push(s: Seq<char>, c: char)
    ensures
        byte_len(s.push(c)) == byte_len(s) + utf8_len(c),
    decreases s.len(),
{
    if s.len() == 0 {
        assert(s.push(c).drop_first() =~= s);
    } else {
        assert(s.push(c).drop_first() =~= s.drop_first().push(c));
        lemma_byte_len_push(s.drop_first(), c);
    }
}

/// `byte_len` is the length of the text's encoding in UTF-8.
pub proof fn lemma_byte_len_encoded(s: Seq<char>)
    ensures
        byte_len(s) == vstd::utf8::encode_utf8(s).len(),
    decreases s.len(),
{
    if s.len() > 0 {
        let v = s[0] as u32;
        lemma_byte_len_encoded(s.drop_first());
        vstd::utf8::char_is_scalar(s[0]);
        assert(vstd::utf8::encode_utf8(s) == vstd::utf8::encode_scalar(v)
            + vstd::utf8::encode_utf8(s.drop_first()));
        assert(vstd::utf8::encode_scalar(v).len() == utf8_len(s[0]));
    }
}

/// A position in a text: line and column, both counted from 1.
#[derive(Debug, PartialEq, Eq, Structural, PartialOrd, Ord, Clone, Copy)]
pub struct Location {
    pub line: usize,
    pub col: usize,
}

impl Default for Location {
    fn default() -> (r: Self)
        ensures
            r == Location::origin(),
    {
        Self { line: 1, col: 1 }
    }
}

impl Location {
    /// The position of the first character of any text.
    pub open spec fn origin() -> Location {
        Location { line: 1, col: 1 }
    }

    /// Both coordinates are counted from 1.
    pub open spec fn valid(self) -> bool {
        self.line >= 1 && self.col >= 1
    }

    /// Lexicographic order by line, then column.
    pub open spec fn at_or_before(self, other: Location) -> bool {
        self.line < other.line || (self.line == other.line && self.col <= other.col)
    }

    /// The position that follows `self` once the character `c` has been read:
    /// a line feed opens the next line, any other character takes one column.
    pub open spec fn after(self, c: char) -> Location {
        if c == '\n' {
            Location { line: (self.line + 1) as usize, col: 1 }
        } else {
            Location { line: self.line, col: (self.col + 1) as usize }
        }
    }

    pub fn new(line: usize, col: usize) -> (r: Self)
        ensures
            r.line == line,
            r.col == col,
    {
        Self { line, col }
    }

    /// Moves to the first column of the next line.
    pub fn new_line(&mut self)
        requires
            old(self).line < usize::MAX,
        ensures
            final(self).line == old(self).line + 1,
            final(self).col == 1,
            *final(self) == old(self).after('\n'),
            (*old(self)).at_or_before(*final(self)),
            old(self).valid() ==> final(self).valid(),
    {
        self.line += 1;
        self.col = 1;
    }

    /// Moves past the character `c`.
    pub fn advance(&mut self, c: char)
        requires
            old(self).line < usize::MAX,
            old(self).col < usize::MAX,
        ensures
            *final(self) == old(self).after(c),
    {
        if c == '\n' {
            self.new_line();
        } else {
            self.new_col();
        }
    }

    /// Moves one column to the right.
    pub fn new_col(&mut self)
        requires
            old(self).col < usize::MAX,
        ensures
            final(self).line == old(self).line,
            final(self).col == old(self).col + 1,
            (*old(self)).at_or_before(*final(self)),
            old(self).valid() ==> final(self).valid(),
    {
        self.col += 1;
    }
}

/// The position of the character with index `i` in the text `s`: the position
/// reached from the first line and column by reading the `i` characters
/// before it.
pub open spec fn location_at(s: Seq<char>, i: int) -> Location
    decreases i,
{
    if i <= 0 {
        Location::origin()
    } else {
        location_at(s, i - 1).after(s[i - 1])
    }
}

/// The range between the characters with the indices `from` and `to`.
pub open spec fn span_between(s: Seq<char>, from: int, to: int) -> Span {
    Span { begin: location_at(s, from), end: location_at(s, to) }
}

/// In a text whose length a machine word holds, no position overflows: after
/// `i` characters neither coordinate has grown by more than `i`.
pub proof fn lemma_location_bounds(s: Seq<char>, i: int)
    requires
        0 <= i <= s.len() < usize::MAX,
    ensures
        1 <= location_at(s, i).line <= i + 1,
        1 <= location_at(s, i).col <= i + 1,
        location_at(s, i).valid(),
    decreases i,
{
    if i > 0 {
        lemma_location_bounds(s, i - 1);
    }
}

/// Positions grow with the index.
pub proof fn lemma_location_monotone(s: Seq<char>, i: int, j: int)
    requires
        0 <= i <= j <= s.len() < usize::MAX,
    ensures
        location_at(s, i).at_or_before(location_at(s, j)),
    decreases j - i,
{
    if i < j {
        lemma_location_monotone(s, i, j - 1);
        lemma_location_bounds(s, j - 1);
    }
}

/// The index of the first character from `from` on whose position is
/// `target`, or the length of the text where there is none.
pub open spec fn index_from(s: Seq<char>, target: Location, from: int) -> int
    decreases s.len() - from,
{
    if from < 0 || from >= s.len() {
        s.len() as int
    } else if location_at(s, from) == target {
        from
    } else {
        index_from(s, target, from + 1)
    }
}

/// The index of the first character whose position is `target`, or the
/// length of the text where no character stands there.
pub open spec fn index_of(s: Seq<char>, target: Location) -> int {
    index_from(s, target, 0)
}

/// `index_of` finds the first index at the target, and none behind the text.
pub proof fn lemma_index_of_first(s: Seq<char>, target: Location, from: int)
    requires
        0 <= from <= s.len(),
    ensures
        from <= index_from(s, target, from) <= s.len(),
        index_from(s, target, from) < s.len() ==> location_at(s, index_from(s, target, from))
            == target,
        forall|k: int| from <= k < index_from(s, target, from) ==> location_at(s, k) != target,
    decreases s.len() - from,
{
    if from < s.len() && location_at(s, from) != target {
        lemma_index_of_first(s, target, from + 1);
    }
}

/// Each character moves the position forward: no two indices of a text share
/// a position.
pub proof fn lemma_location_strict(s: Seq<char>, i: int, j: int)
    requires
        0 <= i < j <= s.len() < usize::MAX,
    ensures
        location_at(s, i).at_or_before(location_at(s, j)),
        location_at(s, i) != location_at(s, j),
    decreases j - i,
{
    lemma_location_bounds(s, j - 1);
    if i < j - 1 {
        lemma_location_strict(s, i, j - 1);
    }
}

/// Looking up the position of an index finds that index again.
pub proof fn lemma_index_of_location(s: Seq<char>, i: int)
    requires
        0 <= i <= s.len() < usize::MAX,
    ensures
        index_of(s, location_at(s, i)) == i,
{
    let target = location_at(s, i);
    let found = index_of(s, target);
    lemma_index_of_first(s, target, 0);
    if found < i {
        lemma_location_strict(s, found, i);
    }
}

/// The index of the first line feed from `from` on, or the length of the
/// text where none follows.
pub open spec fn line_end(s: Seq<char>, from: int) -> int
    decreases s.len() - from,
{
    if from < 0 || from >= s.len() || s[from] == '\n' {
        from
    } else {
        line_end(s, from + 1)
    }
}

/// A line ends at or behind its beginning, and within the text.
pub proof fn lemma_line_end_within(s: Seq<char>, from: int)
    requires
        0 <= from <= s.len(),
    ensures
        from <= line_end(s, from) <= s.len(),
    decreases s.len() - from,
{
    if from < s.len() && s[from] != '\n' {
        lemma_line_end_within(s, from + 1);
    }
}

/// The lines of the text from the index `from` on. A line ends with a line
/// feed, or with a carriage return and a line feed, and holds neither; the
/// last one may end with the text.
pub open spec fn lines_from(s: Seq<char>, from: int) -> Seq<Seq<char>>
    decreases s.len() - from,
    via lines_from_terminates
{
    if from < 0 || from >= s.len() {
        Seq::empty()
    } else {
        let end = line_end(s, from);
        let body = if from < end < s.len() && s[end - 1] == '\r' {
            end - 1
        } else {
            end
        };
        let rest = if end < s.len() {
            lines_from(s, end + 1)
        } else {
            Seq::empty()
        };
        seq![s.subrange(from, body)] + rest
    }
}

#[via_fn]
proof fn lines_from_terminates(s: Seq<char>, from: int) {
    if 0 <= from < s.len() {
        lemma_line_end_within(s, from);
    }
}

/// The lines of a text.
pub open spec fn lines_of(s: Seq<char>) -> Seq<Seq<char>> {
    lines_from(s, 0)
}

/// The texts of a list of strings, in order.
pub open spec fn texts(list: Seq<String>) -> Seq<Seq<char>> {
    Seq::new(list.len(), |k: int| list[k]@)
}

/// The range of a lexeme or of an error: `begin` is the position of its first
/// character, `end` the position just behind its last one.
#[derive(Debug, PartialEq, Eq, Structural, PartialOrd, Ord, Clone, Copy)]
pub struct Span {
    pub begin: Location,
    pub end: Location,
}

impl Default for Span {
    /// The empty range at the beginning of a text.
    fn default() -> (r: Self)
        ensures
            r.begin == Location::origin(),
            r.end == Location::origin(),
    {
        Self { begin: Location::default(), end: Location::default() }
    }
}

impl Span {
    /// The range does not run backwards, and both ends are positions.
    pub open spec fn valid(self) -> bool {
        self.begin.valid() && self.end.valid() && self.begin.at_or_before(self.end)
    }

    pub fn new(begin: Location, end: Location) -> (r: Self)
        ensures
            r.begin == begin,
            r.end == end,
    {
        Self { begin, end }
    }

    /// How the range reads in a diagnostic, behind the name of the file:
    /// `:line:col` where it is empty, `:line col..col` within one line,
    /// ` line:col..line:col` over several.
    pub open spec fn text(self) -> Seq<char> {
        if self.begin.line == self.end.line {
            if self.begin.col == self.end.col {
                seq![':'] + decimal(self.begin.line as nat) + seq![':'] + decimal(
                    self.begin.col as nat,
                )
            } else {
                seq![':'] + decimal(self.begin.line as nat) + seq![' '] + decimal(
                    self.begin.col as nat,
                ) + seq!['.', '.'] + decimal(self.end.col as nat)
            }
        } else {
            seq![' '] + decimal(self.begin.line as nat) + seq![':'] + decimal(
                self.begin.col as nat,
            ) + seq!['.', '.'] + decimal(self.end.line as nat) + seq![':'] + decimal(
                self.end.col as nat,
            )
        }
    }

    /// The range as it reads in a diagnostic.
    pub fn to_text(&self) -> (r: String)
        ensures
            r@ == self.text(),
    {
        let mut out = String::new();
        if self.begin.line == self.end.line {
            out.push(':');
            push_decimal(&mut out, self.begin.line);
            let ghost head = out@;
            assert(head =~= seq![':'] + decimal(self.begin.line as nat));
            if self.begin.col == self.end.col {
                out.push(':');
                push_decimal(&mut out, self.begin.col);
                assert(out@ =~= head + seq![':'] + decimal(self.begin.col as nat));
            } else {
                out.push(' ');
                push_decimal(&mut out, self.begin.col);
                let ghost left = out@;
                assert(left =~= head + seq![' '] + decimal(self.begin.col as nat));
                out.push('.');
                out.push('.');
                push_decimal(&mut out, self.end.col);
                assert(out@ =~= left + seq!['.', '.'] + decimal(self.end.col as nat));
            }
        } else {
            out.push(' ');
            push_decimal(&mut out, self.begin.line);
            let ghost head = out@;
            assert(head =~= seq![' '] + decimal(self.begin.line as nat));
            out.push(':');
            push_decimal(&mut out, self.begin.col);
            let ghost left = out@;
            assert(left =~= head + seq![':'] + decimal(self.begin.col as nat));
            out.push('.');
            out.push('.');
            push_decimal(&mut out, self.end.line);
            let ghost mid = out@;
            assert(mid =~= left + seq!['.', '.'] + decimal(self.end.line as nat));
            out.push(':');
            push_decimal(&mut out, self.end.col);
            assert(out@ =~= mid + seq![':'] + decimal(self.end.col as nat));
        }
        out
    }
}

/// A named text to tokenize.
#[derive(Debug, PartialEq, Eq, Clone)]
pub struct Source<'a> {
    pub file: &'a str,
    pub content: String,
}

impl<'a> Default for Source<'a> {
    /// The empty text without a name.
    fn default() -> (r: Self)
        ensures
            r.file@ == ""@,
            r.content@ == Seq::<char>::empty(),
    {
        Self { file: "", content: String::new() }
    }
}

impl<'a> Source<'a> {
    pub fn new(file: &'a str, content: String) -> (r: Self)
        ensures
            r.file == file,
            r.content == content,
    {
        Self { file, content }
    }

    /// The characters of the content, in order.
    pub fn chars(&self) -> (r: Vec<char>)
        ensures
            r@ == self.content@,
    {
        let text = self.content.as_str();
        let mut out: Vec<char> = Vec::new();
        for c in it: text.chars()
            invariant
                it.seq() == text@,
                out@ == it.seq().take(it.index()),
        {
            out.push(c);
        }
        out
    }

    /// The lines of the content, without their line endings.
    pub fn lines(&self) -> (r: Vec<String>)
        ensures
            texts(r@) == lines_of(self.content@),
    {
        let chars = self.chars();
        let n = chars.len();
        let mut out: Vec<String> = Vec::new();
        let mut from: usize = 0;
        assert(texts(out@) + lines_from(chars@, 0) =~= lines_of(chars@));
        while from < n
            invariant
                n == chars.len(),
                chars@ == self.content@,
                from <= n,
                lines_of(chars@) == texts(out@) + lines_from(chars@, from as int),
            decreases n - from,
        {
            let mut end: usize = from;
            while end < n && chars[end] != '\n'
                invariant
                    n == chars.len(),
                    from <= end <= n,
                    line_end(chars@, from as int) == line_end(chars@, end as int),
                decreases n - end,
            {
                end += 1;
            }
            let body: usize = if from < end && end < n && chars[end - 1] == '\r' {
                end - 1
            } else {
                end
            };
            let line = collect(&chars, from, body);
            proof {
                let rest = if end < n {
                    lines_from(chars@, end + 1)
                } else {
                    Seq::empty()
                };
                assert(texts(out@.push(line)) =~= texts(out@).push(line@));
                assert(texts(out@) + (seq![line@] + rest) =~= texts(out@).push(line@) + rest);
            }
            out.push(line);
            if end < n {
                from = end + 1;
            } else {
                from = n;
            }
        }
        assert(texts(out@) + lines_from(chars@, n as int) =~= texts(out@));
        out
    }

    /// The index of the first character at the position `tar`, or the number
    /// of characters where there is none.
    pub fn find_index(chars: &Vec<char>, tar: Location) -> (index: usize)
        requires
            chars.len() < usize::MAX,
        ensures
            index == index_of(chars@, tar),
            index <= chars.len(),
    {
        let mut loc = Location::default();
        let mut index: usize = 0;
        while index < chars.len() && !(loc.line == tar.line && loc.col == tar.col)
            invariant
                index <= chars.len() < usize::MAX,
                loc == location_at(chars@, index as int),
                index_of(chars@, tar) == index_from(chars@, tar, index as int),
            decreases chars.len() - index,
        {
            proof {
                lemma_location_bounds(chars@, index as int);
            }
            loc.advance(chars[index]);
            index += 1;
        }
        index
    }

    /// The offset in bytes of the first character at the position `tar`, or
    /// the length in bytes of the content where no character stands there.
    pub fn extract_offset(&self, tar: Location) -> (offset: usize)
        requires
            self.content@.len() < usize::MAX,
        ensures
            offset == byte_len(self.content@.take(index_of(self.content@, tar))),
    {
        let total = self.content.as_str().as_bytes().len();
        proof {
            lemma_byte_len_encoded(self.content@);
            assert(byte_len(self.content@) == total);
        }
        let chars = self.chars();
        let index = Self::find_index(&chars, tar);
        let mut offset: usize = 0;
        let mut k: usize = 0;
        assert(chars@.take(0) =~= Seq::<char>::empty());
        while k < index
            invariant
                k <= index <= chars.len(),
                offset == byte_len(chars@.take(k as int)),
                byte_len(chars@) <= usize::MAX,
            decreases index - k,
        {
            proof {
                assert(chars@.take(k + 1) =~= chars@.take(k as int).push(chars@[k as int]));
                lemma_byte_len_push(chars@.take(k as int), chars@[k as int]);
                lemma_byte_len_prefix(chars@, k + 1);
            }
            offset += len_utf8(chars[k]);
            k += 1;
        }
        offset
    }
}

/// A prefix of a text takes no more bytes than the text.
pub proof fn lemma_byte_len_prefix(s: Seq<char>, k: int)
    requires
        0 <= k <= s.len(),
    ensures
        byte_len(s.take(k)) <= byte_len(s),
    decreases s.len() - k,
{
    if k < s.len() {
        lemma_byte_len_prefix(s, k + 1);
        assert(s.take(k + 1) =~= s.take(k).push(s[k]));
        lemma_byte_len_push(s.take(k), s[k]);
    } else {
        assert(s.take(k) =~= s);
    }
}

/// The number of bytes that UTF-8 takes for `c`.
pub fn len_utf8(c: char) -> (n: usize)
    ensures
        n == utf8_len(c),
{
    let p: u32 = c as u32;
    if p < 0x80 {
        1
    } else if p < 0x800 {
        2
    } else if p < 0x10000 {
        3
    } else {
        4
    }
}

/// What went wrong while tokenizing.
#[derive(Debug, Clone, Copy, PartialEq, Eq, Structural)]
pub enum LexingError {
    MalformedNumber,
    UnrecognizedToken,
    UnterminatedString,
}

/// The stage that failed, with its reason.
#[derive(Debug, Clone, Copy, PartialEq, Eq, Structural)]
pub enum ErrorKind {
    Lexing(LexingError),
}

impl ErrorKind {
    /// The fixed sentence that names the error.
    pub open spec fn description(self) -> Seq<char> {
        match self {
            ErrorKind::Lexing(LexingError::MalformedNumber) => {
                "encountered malformed number during lexing"@
            },
            ErrorKind::Lexing(LexingError::UnrecognizedToken) => {
                "encountered unrecognized token during lexing"@
            },
            ErrorKind::Lexing(LexingError::UnterminatedString) => {
                "encountered unterminated string during lexing"@
            },
        }
    }

    /// The sentence that names the error.
    pub fn to_text(&self) -> (r: String)
        ensures
            r@ == self.description(),
    {
        match self {
            ErrorKind::Lexing(LexingError::MalformedNumber) => String::from_str(
                "encountered malformed number during lexing",
            ),
            ErrorKind::Lexing(LexingError::UnrecognizedToken) => String::from_str(
                "encountered unrecognized token during lexing",
            ),
            ErrorKind::Lexing(LexingError::UnterminatedString) => String::from_str(
                "encountered unterminated string during lexing",
            ),
        }
    }
}

/// An error, the range of the text it is about, and that text's source.
#[derive(Debug, Clone, PartialEq, Eq)]
pub struct Error<'a> {
    pub span: Span,
    pub src: &'a Source<'a>,
    pub kind: ErrorKind,
}

/// The model of an error: its reason and its range.
pub struct Fault {
    pub kind: ErrorKind,
    pub span: Span,
}

impl<'a> Error<'a> {
    /// The reason and range of the error, without its source.
    pub open spec fn fault(&self) -> Fault {
        Fault { kind: self.kind, span: self.span }
    }

    pub fn new(kind: ErrorKind, span: Span, src: &'a Source<'a>) -> (r: Self)
        ensures
            r.kind == kind,
            r.span == span,
            r.src == src,
    {
        Self { kind, span, src }
    }

    /// The text that the error is about: the characters of the content
    /// between the first one at the beginning of the range and the first one
    /// at its end, or a fixed notice where that end lies before the beginning.
    pub open spec fn excerpt(&self) -> Seq<char> {
        let from = index_of(self.src.content@, self.span.begin);
        let to = index_of(self.src.content@, self.span.end);
        if from <= to {
            self.src.content@.subrange(from, to)
        } else {
            "<failed to extract offsets of begin and end>"@
        }
    }

    /// Where the range of an error lies between the indices `from` and `to`
    /// of its source, the error is about the characters between them.
    pub proof fn lemma_excerpt_between(&self, from: int, to: int)
        requires
            0 <= from <= to <= self.src.content@.len() < usize::MAX,
            self.span == span_between(self.src.content@, from, to),
        ensures
            self.excerpt() == self.src.content@.subrange(from, to),
    {
        lemma_index_of_location(self.src.content@, from);
        lemma_index_of_location(self.src.content@, to);
    }

    /// The diagnostic: file and range in brackets, the sentence that names the
    /// error, and on a line of its own the text that the error is about.
    pub open spec fn text(&self) -> Seq<char> {
        seq!['['] + self.src.file@ + self.span.text() + seq![']', ' '] + self.kind.description()
            + seq!['\n'] + self.excerpt()
    }

    /// The diagnostic for the error.
    pub fn to_text(&self) -> (r: String)
        requires
            self.src.content@.len() < usize::MAX,
        ensures
            r@ == self.text(),
    {
        let chars = self.src.chars();
        let from = Source::find_index(&chars, self.span.begin);
        let to = Source::find_index(&chars, self.span.end);
        let mut out = String::new();
        out.push('[');
        out.append(self.src.file);
        out.append(self.span.to_text().as_str());
        let ghost head = out@;
        assert(head =~= seq!['['] + self.src.file@ + self.span.text());
        out.push(']');
        out.push(' ');
        out.append(self.kind.to_text().as_str());
        out.push('\n');
        let ghost left = out@;
        assert(left =~= head + seq![']', ' '] + self.kind.description() + seq!['\n']);
        if from <= to {
            out.append(collect(&chars, from, to).as_str());
        } else {
            out.append("<failed to extract offsets of begin and end>");
        }
        out
    }

    pub fn lexing(kind: LexingError, span: Span, src: &'a Source<'a>) -> (r: Self)
        ensures
            r.kind == ErrorKind::Lexing(kind),
            r.span == span,
            r.src == src,
    {
        Self::new(ErrorKind::Lexing(kind), span, src)
    }

}

} // verus!
