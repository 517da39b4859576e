//! Lexical analysis of a (La)TeX source.
use vstd::prelude::*;
use vstd::std_specs::iter::IteratorSpec;
use vstd::string::*;

verus! {

broadcast use vstd::string::group_string_axioms;

/// (La)TeX tokens.
///
/// A payload-bearing variant holds the part of the source that it stands for; the
/// others stand for a fixed piece of text.
#[derive(Clone, Debug, Eq, PartialEq)]
pub enum Token<S> {
    /// `\command`: the name, without the backslash.
    Command(S),
    /// `% comment`: what follows `%` on its line.
    Comment(S),
    /// Regular text (none of the other tokens).
    Text(S),
    /// `\\`
    Endline,
    /// `\[`
    BDisplayMath,
    /// `\]`
    EDisplayMath,
    /// `$$`
    TDisplayMath,
    /// `$`
    InlineMath,
    /// A run of `' '` and `'\t'`.
    Whitespace(S),
    /// `'\n'` or `"\r\n"`
    Newline,
    /// `{`
    LBrace,
    /// `}`
    RBrace,
    /// `[`
    LBracket,
    /// `]`
    RBracket,
}

impl<S: View> View for Token<S> {
    type V = Token<S::V>;

    open spec fn view(&self) -> Token<S::V> {
        match self {
            Token::Command(x) => Token::Command(x@),
            Token::Comment(x) => Token::Comment(x@),
            Token::Text(x) => Token::Text(x@),
            Token::Endline => Token::Endline,
            Token::BDisplayMath => Token::BDisplayMath,
            Token::EDisplayMath => Token::EDisplayMath,
            Token::TDisplayMath => Token::TDisplayMath,
            Token::InlineMath => Token::InlineMath,
            Token::Whitespace(x) => Token::Whitespace(x@),
            Token::Newline => Token::Newline,
            Token::LBrace => Token::LBrace,
            Token::RBrace => Token::RBrace,
            Token::LBracket => Token::LBracket,
            Token::RBracket => Token::RBracket,
        }
    }
}

/// Which expectation failed where a rule did not match.
#[derive(Clone, Copy, Debug, Eq, PartialEq)]
pub enum ErrorKind {
    /// A given single character was expected.
    Char,
    /// At least one letter was expected.
    Alpha,
    /// A given fixed sequence of characters was expected.
    Tag,
    /// At least one space or tab was expected.
    Space,
    /// A line terminator was expected.
    CrLf,
    /// One of a given set of characters was expected.
    OneOf,
}

/// A rule did not match: `input` is the source from the place of the failed
/// expectation on.
#[derive(Clone, Debug, Eq, PartialEq)]
pub struct LexError<'a> {
    pub input: &'a str,
    pub code: ErrorKind,
}

/// The outcome of one rule: the rest of the input and the token, or the error.
pub type LexResult<'a> = Result<(&'a str, Token<&'a str>), LexError<'a>>;

/// The outcome of a rule at a position of a source, as positions:
/// `Ok((end, token))` where the token covers `[start, end)`, or
/// `Err((pos, kind))` where the failed expectation stands at `pos`.
pub type Scan = Result<(int, Token<Seq<char>>), (int, ErrorKind)>;

pub open spec fn is_at(s: Seq<char>, i: int, c: char) -> bool {
    0 <= i < s.len() && s[i] == c
}

pub open spec fn letter(c: char) -> bool {
    ('a' <= c && c <= 'z') || ('A' <= c && c <= 'Z')
}

pub open spec fn blank(c: char) -> bool {
    c == ' ' || c == '\t'
}

/// A character that may stand unescaped in text.
pub open spec fn plain(c: char) -> bool {
    !(c == '\\' || c == '%' || c == '{' || c == '}' || c == '$' || c == ' ' || c == '\t' || c
        == '\n')
}

/// A character that text may hold after a backslash.
pub open spec fn escapable(c: char) -> bool {
    c == '%' || c == '{' || c == '}' || c == '$' || c == '&' || c == ',' || c == ';' || c == '!'
        || c == ' '
}

/// A line terminator (`\n` or `\r\n`) starts at `i`.
pub open spec fn line_end_at(s: Seq<char>, i: int) -> bool {
    is_at(s, i, '\n') || (is_at(s, i, '\r') && is_at(s, i + 1, '\n'))
}

/// The number of letters from `i` on.
pub open spec fn letters_from(s: Seq<char>, i: int) -> nat
    decreases s.len() - i,
{
    if 0 <= i < s.len() && letter(s[i]) {
        1 + letters_from(s, i + 1)
    } else {
        0
    }
}

/// The number of spaces and tabs from `i` on.
pub open spec fn blanks_from(s: Seq<char>, i: int) -> nat
    decreases s.len() - i,
{
    if 0 <= i < s.len() && blank(s[i]) {
        1 + blanks_from(s, i + 1)
    } else {
        0
    }
}

/// The number of characters from `i` up to the next line terminator or the end.
pub open spec fn line_from(s: Seq<char>, i: int) -> nat
    decreases s.len() - i,
{
    if 0 <= i < s.len() && !line_end_at(s, i) {
        1 + line_from(s, i + 1)
    } else {
        0
    }
}

/// The length of the longest run of text from `i` on: plain characters and
/// escapes (a backslash and an escapable character).
pub open spec fn text_from(s: Seq<char>, i: int) -> nat
    decreases s.len() - i,
{
    if 0 <= i < s.len() && plain(s[i]) {
        1 + text_from(s, i + 1)
    } else if is_at(s, i, '\\') && i + 1 < s.len() && escapable(s[i + 1]) {
        2 + text_from(s, i + 2)
    } else {
        0
    }
}

/// A backslash and one or more letters.
pub open spec fn command_at(s: Seq<char>, i: int) -> Scan {
    let n = letters_from(s, i + 1);
    if !is_at(s, i, '\\') {
        Err((i, ErrorKind::Char))
    } else if n == 0 {
        Err((i + 1, ErrorKind::Alpha))
    } else {
        Ok((i + 1 + n, Token::Command(s.subrange(i + 1, i + 1 + n))))
    }
}

/// `%` and the rest of its line.
pub open spec fn comment_at(s: Seq<char>, i: int) -> Scan {
    let n = line_from(s, i + 1);
    if !is_at(s, i, '%') {
        Err((i, ErrorKind::Char))
    } else {
        Ok((i + 1 + n, Token::Comment(s.subrange(i + 1, i + 1 + n))))
    }
}

/// `\\`.
pub open spec fn endline_at(s: Seq<char>, i: int) -> Scan {
    if is_at(s, i, '\\') && is_at(s, i + 1, '\\') {
        Ok((i + 2, Token::Endline))
    } else {
        Err((i, ErrorKind::Tag))
    }
}

/// `\[`, `\]`, `$$` or `$`, tried in this order.
pub open spec fn math_at(s: Seq<char>, i: int) -> Scan {
    if is_at(s, i, '\\') && is_at(s, i + 1, '[') {
        Ok((i + 2, Token::BDisplayMath))
    } else if is_at(s, i, '\\') && is_at(s, i + 1, ']') {
        Ok((i + 2, Token::EDisplayMath))
    } else if is_at(s, i, '$') && is_at(s, i + 1, '$') {
        Ok((i + 2, Token::TDisplayMath))
    } else if is_at(s, i, '$') {
        Ok((i + 1, Token::InlineMath))
    } else {
        Err((i, ErrorKind::Tag))
    }
}

/// One or more spaces and tabs.
pub open spec fn whitespace_at(s: Seq<char>, i: int) -> Scan {
    let n = blanks_from(s, i);
    if n == 0 {
        Err((i, ErrorKind::Space))
    } else {
        Ok((i + n, Token::Whitespace(s.subrange(i, i + n))))
    }
}

/// One line terminator.
pub open spec fn newline_at(s: Seq<char>, i: int) -> Scan {
    if is_at(s, i, '\n') {
        Ok((i + 1, Token::Newline))
    } else if is_at(s, i, '\r') && is_at(s, i + 1, '\n') {
        Ok((i + 2, Token::Newline))
    } else {
        Err((i, ErrorKind::CrLf))
    }
}

/// One of `{`, `}`, `[`, `]`.
pub open spec fn delimiter_at(s: Seq<char>, i: int) -> Scan {
    if is_at(s, i, '{') {
        Ok((i + 1, Token::LBrace))
    } else if is_at(s, i, '}') {
        Ok((i + 1, Token::RBrace))
    } else if is_at(s, i, '[') {
        Ok((i + 1, Token::LBracket))
    } else if is_at(s, i, ']') {
        Ok((i + 1, Token::RBracket))
    } else {
        Err((i, ErrorKind::Char))
    }
}

/// The longest non-empty run of text.
pub open spec fn text_at(s: Seq<char>, i: int) -> Scan {
    let n = text_from(s, i);
    if n > 0 {
        Ok((i + n, Token::Text(s.subrange(i, i + n))))
    } else if is_at(s, i, '\\') {
        Err((i + 1, ErrorKind::OneOf))
    } else {
        Err((i, ErrorKind::Char))
    }
}

/// `first` where it matched, else `second`.
pub open spec fn or_else(first: Scan, second: Scan) -> Scan {
    if first is Ok {
        first
    } else {
        second
    }
}

/// The first rule that matches at `i`, in the order command, comment, endline,
/// math, whitespace, newline, delimiter, text; where none does, the text rule's
/// error.
pub open spec fn token_at(s: Seq<char>, i: int) -> Scan {
    or_else(
        command_at(s, i),
        or_else(
            comment_at(s, i),
            or_else(
                endline_at(s, i),
                or_else(
                    math_at(s, i),
                    or_else(
                        whitespace_at(s, i),
                        or_else(newline_at(s, i), or_else(delimiter_at(s, i), text_at(s, i))),
                    ),
                ),
            ),
        ),
    )
}

/// Whether a token was recognised at `i`, covering `[i, end)` with `i < end`.
pub open spec fn steps_at(s: Seq<char>, i: int) -> bool {
    &&& token_at(s, i) is Ok
    &&& i < token_at(s, i)->Ok_0.0 <= s.len()
}

/// The tokens recognised one after another from `i` on.
pub open spec fn tokens_from(s: Seq<char>, i: int) -> Seq<Token<Seq<char>>>
    decreases s.len() - i,
{
    if 0 <= i && steps_at(s, i) {
        seq![token_at(s, i)->Ok_0.1] + tokens_from(s, token_at(s, i)->Ok_0.0)
    } else {
        Seq::empty()
    }
}

/// Where the recognition that starts at `i` stops.
pub open spec fn stop_from(s: Seq<char>, i: int) -> int
    decreases s.len() - i,
{
    if 0 <= i && steps_at(s, i) {
        stop_from(s, token_at(s, i)->Ok_0.0)
    } else {
        i
    }
}

/// The outcome of a rule at a position of the source's characters: the end of
/// the match and the token, or the position of the failed expectation and its kind.
type Scanned<'a> = Result<(usize, Token<&'a str>), (usize, ErrorKind)>;

/// A match ends after `i` and within the source; an error stands within it.
spec fn bounded<'a>(r: Scanned<'a>, i: int, len: int) -> bool {
    match r {
        Ok((end, _)) => i < end <= len,
        Err((pos, _)) => i <= pos <= len,
    }
}

/// `r` holds what the scan `m` describes.
spec fn scanned<'a>(r: Scanned<'a>, m: Scan) -> bool {
    match r {
        Ok((end, t)) => m == Scan::Ok((end as int, t@)),
        Err((pos, code)) => m == Scan::Err((pos as int, code)),
    }
}

/// `r` is the outcome that the scan `m` of `input` describes.
pub open spec fn lexed<'a>(input: Seq<char>, r: LexResult<'a>, m: Scan) -> bool {
    match m {
        Ok((end, t)) => r is Ok && r->Ok_0.0@ == input.subrange(end, input.len() as int)
            && r->Ok_0.1@ == t,
        Err((pos, code)) => r is Err && r->Err_0.input@ == input.subrange(pos, input.len() as int)
            && r->Err_0.code == code,
    }
}

/// The characters of `s`, in order.
fn chars_of(s: &str) -> (r: Vec<char>)
    ensures
        r@ == s@,
        s@ == r@.subrange(0, r@.len() as int),
{
    let n = s.unicode_len();
    let mut it = s.chars();
    let mut r: Vec<char> = Vec::new();
    let mut i: usize = 0;
    while i < n
        invariant
            n == s@.len(),
            i == r@.len(),
            i <= n,
            r@ == s@.subrange(0, i as int),
            it.obeys_prophetic_iter_laws(),
            it.remaining() == s@.subrange(i as int, n as int),
        decreases n - i,
    {
        let ghost before = it;
        let c = it.next();
        proof {
            next_postcondition(&before, &it, c);
        }
        if let Some(ch) = c {
            r.push(ch);
        }
        i = i + 1;
        assert(r@ =~= s@.subrange(0, i as int));
        assert(it.remaining() =~= s@.subrange(i as int, n as int));
    }
    assert(s@ =~= r@.subrange(0, r@.len() as int));
    r
}

fn is_letter(c: char) -> (r: bool)
    ensures
        r == letter(c),
{
    ('a' <= c && c <= 'z') || ('A' <= c && c <= 'Z')
}

fn is_blank(c: char) -> (r: bool)
    ensures
        r == blank(c),
{
    c == ' ' || c == '\t'
}

fn is_plain(c: char) -> (r: bool)
    ensures
        r == plain(c),
{
    !(c == '\\' || c == '%' || c == '{' || c == '}' || c == '$' || c == ' ' || c == '\t' || c
        == '\n')
}

fn is_escapable(c: char) -> (r: bool)
    ensures
        r == escapable(c),
{
    c == '%' || c == '{' || c == '}' || c == '$' || c == '&' || c == ',' || c == ';' || c == '!'
        || c == ' '
}

fn char_is(cs: &Vec<char>, i: usize, c: char) -> (r: bool)
    ensures
        r == is_at(cs@, i as int, c),
        cs@.len() <= usize::MAX,
{
    i < cs.len() && cs[i] == c
}

fn count_letters(cs: &Vec<char>, i: usize) -> (n: usize)
    requires
        i <= cs@.len(),
    ensures
        n == letters_from(cs@, i as int),
        i + n <= cs@.len() <= usize::MAX,
{
    let mut j: usize = i;
    while j < cs.len() && is_letter(cs[j])
        invariant
            i <= j <= cs@.len(),
            letters_from(cs@, i as int) == (j - i) + letters_from(cs@, j as int),
        decreases cs@.len() - j,
    {
        j = j + 1;
    }
    j - i
}

fn count_blanks(cs: &Vec<char>, i: usize) -> (n: usize)
    requires
        i <= cs@.len(),
    ensures
        n == blanks_from(cs@, i as int),
        i + n <= cs@.len() <= usize::MAX,
{
    let mut j: usize = i;
    while j < cs.len() && is_blank(cs[j])
        invariant
            i <= j <= cs@.len(),
            blanks_from(cs@, i as int) == (j - i) + blanks_from(cs@, j as int),
        decreases cs@.len() - j,
    {
        j = j + 1;
    }
    j - i
}

fn count_line(cs: &Vec<char>, i: usize) -> (n: usize)
    requires
        i <= cs@.len(),
    ensures
        n == line_from(cs@, i as int),
        i + n <= cs@.len() <= usize::MAX,
{
    let mut j: usize = i;
    while j < cs.len() && !(cs[j] == '\n' || (cs[j] == '\r' && char_is(cs, j + 1, '\n')))
        invariant
            i <= j <= cs@.len(),
            line_from(cs@, i as int) == (j - i) + line_from(cs@, j as int),
        decreases cs@.len() - j,
    {
        j = j + 1;
    }
    j - i
}

fn count_text(cs: &Vec<char>, i: usize) -> (n: usize)
    requires
        i <= cs@.len(),
    ensures
        n == text_from(cs@, i as int),
        i + n <= cs@.len() <= usize::MAX,
{
    let len = cs.len();
    let mut j: usize = i;
    loop
        invariant
            len == cs@.len(),
            i <= j <= len,
            text_from(cs@, i as int) == (j - i) + text_from(cs@, j as int),
        ensures
            i <= j <= len,
            text_from(cs@, i as int) == j - i,
        decreases len - j,
    {
        if j < len && is_plain(cs[j]) {
            j = j + 1;
        } else if j < len && cs[j] == '\\' && j + 1 < len && is_escapable(cs[j + 1]) {
            j = j + 2;
        } else {
            break;
        }
    }
    j - i
}

/// The characters `[from, to)` of the source, where `rest` is the source from `i` on.
fn piece<'a>(cs: &Vec<char>, rest: &'a str, i: usize, from: usize, to: usize) -> (r: &'a str)
    requires
        i <= from <= to <= cs@.len(),
        rest@ == cs@.subrange(i as int, cs@.len() as int),
    ensures
        r@ == cs@.subrange(from as int, to as int),
{
    let r = rest.substring_char(from - i, to - i);
    assert(r@ =~= cs@.subrange(from as int, to as int));
    r
}

fn scan_command<'a>(cs: &Vec<char>, rest: &'a str, i: usize) -> (r: Scanned<'a>)
    requires
        i <= cs@.len(),
        rest@ == cs@.subrange(i as int, cs@.len() as int),
    ensures
        scanned(r, command_at(cs@, i as int)),
        bounded(r, i as int, cs@.len() as int),
{
    if !char_is(cs, i, '\\') {
        return Err((i, ErrorKind::Char));
    }
    let n = count_letters(cs, i + 1);
    if n == 0 {
        Err((i + 1, ErrorKind::Alpha))
    } else {
        Ok((i + 1 + n, Token::Command(piece(cs, rest, i, i + 1, i + 1 + n))))
    }
}

fn scan_comment<'a>(cs: &Vec<char>, rest: &'a str, i: usize) -> (r: Scanned<'a>)
    requires
        i <= cs@.len(),
        rest@ == cs@.subrange(i as int, cs@.len() as int),
    ensures
        scanned(r, comment_at(cs@, i as int)),
        bounded(r, i as int, cs@.len() as int),
{
    if !char_is(cs, i, '%') {
        return Err((i, ErrorKind::Char));
    }
    let n = count_line(cs, i + 1);
    Ok((i + 1 + n, Token::Comment(piece(cs, rest, i, i + 1, i + 1 + n))))
}

fn scan_endline<'a>(cs: &Vec<char>, i: usize) -> (r: Scanned<'a>)
    requires
        i <= cs@.len(),
    ensures
        scanned(r, endline_at(cs@, i as int)),
        bounded(r, i as int, cs@.len() as int),
{
    if char_is(cs, i, '\\') && char_is(cs, i + 1, '\\') {
        Ok((i + 2, Token::Endline))
    } else {
        Err((i, ErrorKind::Tag))
    }
}

fn scan_math<'a>(cs: &Vec<char>, i: usize) -> (r: Scanned<'a>)
    requires
        i <= cs@.len(),
    ensures
        scanned(r, math_at(cs@, i as int)),
        bounded(r, i as int, cs@.len() as int),
{
    if char_is(cs, i, '\\') && char_is(cs, i + 1, '[') {
        Ok((i + 2, Token::BDisplayMath))
    } else if char_is(cs, i, '\\') && char_is(cs, i + 1, ']') {
        Ok((i + 2, Token::EDisplayMath))
    } else if char_is(cs, i, '$') && char_is(cs, i + 1, '$') {
        Ok((i + 2, Token::TDisplayMath))
    } else if char_is(cs, i, '$') {
        Ok((i + 1, Token::InlineMath))
    } else {
        Err((i, ErrorKind::Tag))
    }
}

fn scan_whitespace<'a>(cs: &Vec<char>, rest: &'a str, i: usize) -> (r: Scanned<'a>)
    requires
        i <= cs@.len(),
        rest@ == cs@.subrange(i as int, cs@.len() as int),
    ensures
        scanned(r, whitespace_at(cs@, i as int)),
        bounded(r, i as int, cs@.len() as int),
{
    let n = count_blanks(cs, i);
    if n == 0 {
        Err((i, ErrorKind::Space))
    } else {
        Ok((i + n, Token::Whitespace(piece(cs, rest, i, i, i + n))))
    }
}

fn scan_newline<'a>(cs: &Vec<char>, i: usize) -> (r: Scanned<'a>)
    requires
        i <= cs@.len(),
    ensures
        scanned(r, newline_at(cs@, i as int)),
        bounded(r, i as int, cs@.len() as int),
{
    if char_is(cs, i, '\n') {
        Ok((i + 1, Token::Newline))
    } else if char_is(cs, i, '\r') && char_is(cs, i + 1, '\n') {
        Ok((i + 2, Token::Newline))
    } else {
        Err((i, ErrorKind::CrLf))
    }
}

fn scan_delimiter<'a>(cs: &Vec<char>, i: usize) -> (r: Scanned<'a>)
    requires
        i <= cs@.len(),
    ensures
        scanned(r, delimiter_at(cs@, i as int)),
        bounded(r, i as int, cs@.len() as int),
{
    if char_is(cs, i, '{') {
        Ok((i + 1, Token::LBrace))
    } else if char_is(cs, i, '}') {
        Ok((i + 1, Token::RBrace))
    } else if char_is(cs, i, '[') {
        Ok((i + 1, Token::LBracket))
    } else if char_is(cs, i, ']') {
        Ok((i + 1, Token::RBracket))
    } else {
        Err((i, ErrorKind::Char))
    }
}

fn scan_text<'a>(cs: &Vec<char>, rest: &'a str, i: usize) -> (r: Scanned<'a>)
    requires
        i <= cs@.len(),
        rest@ == cs@.subrange(i as int, cs@.len() as int),
    ensures
        scanned(r, text_at(cs@, i as int)),
        bounded(r, i as int, cs@.len() as int),
{
    let n = count_text(cs, i);
    if n > 0 {
        Ok((i + n, Token::Text(piece(cs, rest, i, i, i + n))))
    } else if char_is(cs, i, '\\') {
        Err((i + 1, ErrorKind::OneOf))
    } else {
        Err((i, ErrorKind::Char))
    }
}

fn scan_token<'a>(cs: &Vec<char>, rest: &'a str, i: usize) -> (r: Scanned<'a>)
    requires
        i <= cs@.len(),
        rest@ == cs@.subrange(i as int, cs@.len() as int),
    ensures
        scanned(r, token_at(cs@, i as int)),
        bounded(r, i as int, cs@.len() as int),
{
    if let Ok(m) = scan_command(cs, rest, i) {
        return Ok(m);
    }
    if let Ok(m) = scan_comment(cs, rest, i) {
        return Ok(m);
    }
    if let Ok(m) = scan_endline(cs, i) {
        return Ok(m);
    }
    if let Ok(m) = scan_math(cs, i) {
        return Ok(m);
    }
    if let Ok(m) = scan_whitespace(cs, rest, i) {
        return Ok(m);
    }
    if let Ok(m) = scan_newline(cs, i) {
        return Ok(m);
    }
    if let Ok(m) = scan_delimiter(cs, i) {
        return Ok(m);
    }
    scan_text(cs, rest, i)
}

/// Turns the outcome of a rule at the start of `input` into the rest of the
/// input and the token, or the error.
fn finish<'a>(cs: &Vec<char>, input: &'a str, r: Scanned<'a>, Ghost(m): Ghost<Scan>) -> (o: LexResult<'a>)
    requires
        cs@ == input@,
        scanned(r, m),
        bounded(r, 0, cs@.len() as int),
    ensures
        lexed(input@, o, m),
{
    let n = cs.len();
    assert(input@ =~= cs@.subrange(0, n as int));
    match r {
        Ok((end, t)) => Ok((piece(cs, input, 0, end, n), t)),
        Err((pos, code)) => Err(LexError { input: piece(cs, input, 0, pos, n), code }),
    }
}

/// Recognises a command (`\` and one or more letters) at the start of `input`.
pub fn lex_command(input: &str) -> (r: LexResult<'_>)
    ensures
        lexed(input@, r, command_at(input@, 0)),
{
    let cs = chars_of(input);
    finish(&cs, input, scan_command(&cs, input, 0), Ghost(command_at(input@, 0)))
}

/// Recognises a comment (`%` and the rest of its line) at the start of `input`.
pub fn lex_comment(input: &str) -> (r: LexResult<'_>)
    ensures
        lexed(input@, r, comment_at(input@, 0)),
{
    let cs = chars_of(input);
    finish(&cs, input, scan_comment(&cs, input, 0), Ghost(comment_at(input@, 0)))
}

/// Recognises `\\` at the start of `input`.
pub fn lex_endline(input: &str) -> (r: LexResult<'_>)
    ensures
        lexed(input@, r, endline_at(input@, 0)),
{
    let cs = chars_of(input);
    finish(&cs, input, scan_endline(&cs, 0), Ghost(endline_at(input@, 0)))
}

/// Recognises a math delimiter at the start of `input`: `\[`, `\]`, `$$` or `$`,
/// tried in this order.
pub fn lex_math(input: &str) -> (r: LexResult<'_>)
    ensures
        lexed(input@, r, math_at(input@, 0)),
{
    let cs = chars_of(input);
    finish(&cs, input, scan_math(&cs, 0), Ghost(math_at(input@, 0)))
}

/// Recognises a run of spaces and tabs at the start of `input`.
pub fn lex_whitespace(input: &str) -> (r: LexResult<'_>)
    ensures
        lexed(input@, r, whitespace_at(input@, 0)),
{
    let cs = chars_of(input);
    finish(&cs, input, scan_whitespace(&cs, input, 0), Ghost(whitespace_at(input@, 0)))
}

/// Recognises one line terminator at the start of `input`.
pub fn lex_newline(input: &str) -> (r: LexResult<'_>)
    ensures
        lexed(input@, r, newline_at(input@, 0)),
{
    let cs = chars_of(input);
    finish(&cs, input, scan_newline(&cs, 0), Ghost(newline_at(input@, 0)))
}

/// Recognises one of `{`, `}`, `[`, `]` at the start of `input`.
pub fn lex_delimiter(input: &str) -> (r: LexResult<'_>)
    ensures
        lexed(input@, r, delimiter_at(input@, 0)),
{
    let cs = chars_of(input);
    finish(&cs, input, scan_delimiter(&cs, 0), Ghost(delimiter_at(input@, 0)))
}

/// Recognises the longest run of text at the start of `input`.
pub fn lex_text(input: &str) -> (r: LexResult<'_>)
    ensures
        lexed(input@, r, text_at(input@, 0)),
{
    let cs = chars_of(input);
    finish(&cs, input, scan_text(&cs, input, 0), Ghost(text_at(input@, 0)))
}

/// Identifies the first token in the input (La)TeX string.
pub fn lex_token(input: &str) -> (r: LexResult<'_>)
    ensures
        lexed(input@, r, token_at(input@, 0)),
{
    let cs = chars_of(input);
    finish(&cs, input, scan_token(&cs, input, 0), Ghost(token_at(input@, 0)))
}

/// `r` is the tokenization of `input`: the tokens recognised one after another
/// from the start, and the part of the input where recognition stopped.
pub open spec fn tokenized<'a>(input: Seq<char>, r: Result<(&'a str, Vec<Token<&'a str>>), LexError<'a>>) -> bool {
    &&& r is Ok
    &&& r->Ok_0.0@ == input.subrange(stop_from(input, 0), input.len() as int)
    &&& r->Ok_0.1@.map_values(|t: Token<&'a str>| t@) == tokens_from(input, 0)
}

/// Tokenizes the input (La)TeX string: applies the rules from the start until the
/// input is used up or none matches, and returns what is left with the tokens.
pub fn lex_tokens(input: &str) -> (r: Result<(&str, Vec<Token<&str>>), LexError<'_>>)
    ensures
        tokenized(input@, r),
{
    let cs = chars_of(input);
    let n = cs.len();
    let mut i: usize = 0;
    let mut rest: &str = input;
    let mut toks: Vec<Token<&str>> = Vec::new();
    assert(rest@ =~= cs@.subrange(0, n as int));
    loop
        invariant
            cs@ == input@,
            n == cs@.len(),
            i <= n,
            rest@ == cs@.subrange(i as int, n as int),
            tokens_from(cs@, 0) == toks@.map_values(|t: Token<&str>| t@) + tokens_from(cs@, i as int),
            stop_from(cs@, 0) == stop_from(cs@, i as int),
        ensures
            rest@ == cs@.subrange(stop_from(cs@, 0), n as int),
            toks@.map_values(|t: Token<&str>| t@) == tokens_from(cs@, 0),
        decreases n - i,
    {
        match scan_token(&cs, rest, i) {
            Ok((end, t)) => {
                let ghost before = toks@.map_values(|t: Token<&str>| t@);
                let ghost tv = t@;
                toks.push(t);
                rest = piece(&cs, rest, i, end, n);
                assert(toks@.map_values(|t: Token<&str>| t@) =~= before.push(tv));
                assert(tokens_from(cs@, i as int) == seq![tv] + tokens_from(cs@, end as int));
                assert(before + (seq![tv] + tokens_from(cs@, end as int)) =~= before.push(tv)
                    + tokens_from(cs@, end as int));
                i = end;
            },
            Err(_) => {
                assert(toks@.map_values(|t: Token<&str>| t@) + tokens_from(cs@, i as int)
                    =~= toks@.map_values(|t: Token<&str>| t@));
                break;
            },
        }
    }
    Ok((rest, toks))
}

/// The text that a token stands for: its payload with the fixed characters
/// around it, or the fixed text of a token without payload (`\n` for a line
/// terminator).
pub open spec fn source_text(t: Token<Seq<char>>) -> Seq<char> {
    match t {
        Token::Command(x) => seq!['\\'] + x,
        Token::Comment(x) => seq!['%'] + x,
        Token::Text(x) => x,
        Token::Endline => seq!['\\', '\\'],
        Token::BDisplayMath => seq!['\\', '['],
        Token::EDisplayMath => seq!['\\', ']'],
        Token::TDisplayMath => seq!['$', '$'],
        Token::InlineMath => seq!['$'],
        Token::Whitespace(x) => x,
        Token::Newline => seq!['\n'],
        Token::LBrace => seq!['{'],
        Token::RBrace => seq!['}'],
        Token::LBracket => seq!['['],
        Token::RBracket => seq![']'],
    }
}

/// The texts of the tokens, one after another.
pub open spec fn concat_text(ts: Seq<Token<Seq<char>>>) -> Seq<char>
    decreases ts.len(),
{
    if ts.len() == 0 {
        Seq::empty()
    } else {
        source_text(ts[0]) + concat_text(ts.drop_first())
    }
}

/// `\r\n` starts at `j`.
pub open spec fn crlf_at(s: Seq<char>, j: int) -> bool {
    is_at(s, j, '\r') && is_at(s, j + 1, '\n')
}

/// `s` holds a `\r\n` line terminator.
pub open spec fn has_crlf(s: Seq<char>) -> bool {
    exists|j: int| #[trigger] crlf_at(s, j)
}

proof fn lemma_letters_bound(s: Seq<char>, i: int)
    requires
        0 <= i <= s.len(),
    ensures
        i + letters_from(s, i) <= s.len(),
    decreases s.len() - i,
{
    if i < s.len() && letter(s[i]) {
        lemma_letters_bound(s, i + 1);
    }
}

proof fn lemma_blanks_bound(s: Seq<char>, i: int)
    requires
        0 <= i <= s.len(),
    ensures
        i + blanks_from(s, i) <= s.len(),
    decreases s.len() - i,
{
    if i < s.len() && blank(s[i]) {
        lemma_blanks_bound(s, i + 1);
    }
}

proof fn lemma_line_bound(s: Seq<char>, i: int)
    requires
        0 <= i <= s.len(),
    ensures
        i + line_from(s, i) <= s.len(),
    decreases s.len() - i,
{
    if i < s.len() && !line_end_at(s, i) {
        lemma_line_bound(s, i + 1);
    }
}

proof fn lemma_text_bound(s: Seq<char>, i: int)
    requires
        0 <= i <= s.len(),
    ensures
        i + text_from(s, i) <= s.len(),
    decreases s.len() - i,
{
    if i < s.len() && plain(s[i]) {
        lemma_text_bound(s, i + 1);
    } else if is_at(s, i, '\\') && i + 1 < s.len() && escapable(s[i + 1]) {
        lemma_text_bound(s, i + 2);
    }
}

/// A recognised token's text is the part of the source that it covers, unless
/// it is a `\r\n` line terminator.
proof fn lemma_token_text(s: Seq<char>, i: int)
    requires
        0 <= i,
        steps_at(s, i),
        !has_crlf(s),
    ensures
        source_text(token_at(s, i)->Ok_0.1) == s.subrange(i, token_at(s, i)->Ok_0.0),
{
    let e = token_at(s, i)->Ok_0.0;
    let t = token_at(s, i)->Ok_0.1;
    lemma_letters_bound(s, i + 1);
    lemma_line_bound(s, i + 1);
    lemma_blanks_bound(s, i);
    lemma_text_bound(s, i);
    if crlf_at(s, i) {
        assert(has_crlf(s));
    }
    assert(source_text(t) =~= s.subrange(i, e));
}

/// The texts of the tokens recognised from `i` on give back the source from `i`
/// up to where recognition stops.
proof fn lemma_concat_from(s: Seq<char>, i: int)
    requires
        0 <= i <= s.len(),
        !has_crlf(s),
    ensures
        i <= stop_from(s, i) <= s.len(),
        concat_text(tokens_from(s, i)) == s.subrange(i, stop_from(s, i)),
    decreases s.len() - i,
{
    if steps_at(s, i) {
        let e = token_at(s, i)->Ok_0.0;
        let t = token_at(s, i)->Ok_0.1;
        lemma_token_text(s, i);
        lemma_concat_from(s, e);
        let ts = tokens_from(s, e);
        assert((seq![t] + ts).drop_first() =~= ts);
        assert(s.subrange(i, e) + s.subrange(e, stop_from(s, e)) =~= s.subrange(i, stop_from(s, e)));
    } else {
        assert(s.subrange(i, i) =~= Seq::<char>::empty());
    }
}

/// Tokenizing is lossless: where the tokens use up the whole input, the texts of
/// the tokens, one after another, are the input. A `\r\n` terminator is written
/// back as `\n`, so this holds of inputs without one.
pub proof fn lemma_round_trip<'a>(input: &'a str, r: Result<(&'a str, Vec<Token<&'a str>>), LexError<'a>>)
    requires
        tokenized(input@, r),
        r->Ok_0.0@.len() == 0,
        !has_crlf(input@),
    ensures
        concat_text(r->Ok_0.1@.map_values(|t: Token<&'a str>| t@)) == input@,
{
    lemma_concat_from(input@, 0);
    assert(input@.subrange(0, input@.len() as int) =~= input@);
}

/// Tokenizing is deterministic: two tokenizations of one input give the same
/// tokens and the same rest.
pub proof fn lemma_deterministic<'a>(
    input: &'a str,
    r1: Result<(&'a str, Vec<Token<&'a str>>), LexError<'a>>,
    r2: Result<(&'a str, Vec<Token<&'a str>>), LexError<'a>>,
)
    requires
        tokenized(input@, r1),
        tokenized(input@, r2),
    ensures
        r1->Ok_0.1@.map_values(|t: Token<&'a str>| t@) == r2->Ok_0.1@.map_values(|t: Token<&'a str>| t@),
        r1->Ok_0.0@ == r2->Ok_0.0@,
{
}

} // verus!
