//! The `Reader`: parses one `Value` expression at a time from a source
//! string, advancing an internal cursor across repeated calls.
//!
//! Productions are tried in a fixed priority order — number, boolean,
//! string, list, do-block, function call, symbol — and a production that
//! fails restores the cursor to its pre-attempt position, except that
//! invalid-number, unterminated-string, unbalanced-parenthesis and
//! unbalanced-braces failures propagate instead of falling through to a
//! later production.
//!
//! The spec-level parser (`parse_at` and the `parse_*` functions around it)
//! states exactly what each production consumes and returns; every method's
//! contract ties the executable code to it.

use vstd::prelude::*;

use crate::doubles::{decimal_token, digits_part, double_of_decimal, is_digit_char, parse_double};
use crate::values::{
    Value, ValueView, lemma_list_size_add, lemma_list_size_nonneg, lemma_list_size_one,
    lemma_list_view, list_size, list_view, size_of, value_view,
};

verus! {

/// A whitespace character: the six ASCII whitespace characters.
pub open spec fn is_space_char(c: char) -> bool {
    c == ' ' || c == '\t' || c == '\n' || c == '\r' || c == '\u{b}' || c == '\u{c}'
}

/// A delimiter character, which ends a symbol and never starts one.
pub open spec fn is_delim_char(c: char) -> bool {
    c == '(' || c == ')' || c == '[' || c == ']' || c == '{' || c == '}' || c == '<' || c == '>'
        || c == '\''
}

/// The first position at or after `i` holding a non-whitespace character
/// (or the end of the text).
pub open spec fn ws_end(s: Seq<char>, i: int) -> int
    decreases s.len() - i,
{
    if 0 <= i < s.len() && is_space_char(s[i]) {
        ws_end(s, i + 1)
    } else {
        i
    }
}

/// The first position at or after `i` holding a whitespace or delimiter
/// character (or the end of the text): the end of a symbol starting at `i`.
pub open spec fn sym_end(s: Seq<char>, i: int) -> int
    decreases s.len() - i,
{
    if 0 <= i < s.len() && !is_space_char(s[i]) && !is_delim_char(s[i]) {
        sym_end(s, i + 1)
    } else {
        i
    }
}

/// The first position at or after `i` holding a double quote, or the end of
/// the text if there is none.
pub open spec fn quote_end(s: Seq<char>, i: int) -> int
    decreases s.len() - i,
{
    if 0 <= i < s.len() {
        if s[i] == '"' {
            i
        } else {
            quote_end(s, i + 1)
        }
    } else {
        s.len() as int
    }
}

/// Scan of a number's digits from position `i`: the position of the first
/// character that is neither a digit nor a dot, paired with whether a second
/// dot was met (which stops the scan there and is an error).
pub open spec fn num_scan(s: Seq<char>, i: int, seen_dot: bool) -> (int, bool)
    decreases s.len() - i,
{
    if 0 <= i < s.len() {
        if is_digit_char(s[i]) {
            num_scan(s, i + 1, seen_dot)
        } else if s[i] == '.' {
            if seen_dot {
                (i, true)
            } else {
                num_scan(s, i + 1, true)
            }
        } else {
            (i, false)
        }
    } else {
        (i, false)
    }
}

/// `ws_end` stays between its start and the end of the text.
pub proof fn lemma_ws_end(s: Seq<char>, i: int)
    requires
        0 <= i <= s.len(),
    ensures
        i <= ws_end(s, i) <= s.len(),
        forall|k: int| i <= k < ws_end(s, i) ==> is_space_char(s[k]),
        ws_end(s, i) < s.len() ==> !is_space_char(s[ws_end(s, i)]),
    decreases s.len() - i,
{
    if i < s.len() && is_space_char(s[i]) {
        lemma_ws_end(s, i + 1);
    }
}

/// `sym_end` stays between its start and the end of the text, and the run it
/// spans holds neither whitespace nor delimiters.
pub proof fn lemma_sym_end(s: Seq<char>, i: int)
    requires
        0 <= i <= s.len(),
    ensures
        i <= sym_end(s, i) <= s.len(),
        forall|k: int| i <= k < sym_end(s, i) ==> !is_space_char(s[k]) && !is_delim_char(s[k]),
        sym_end(s, i) < s.len() ==> is_space_char(s[sym_end(s, i)]) || is_delim_char(
            s[sym_end(s, i)],
        ),
    decreases s.len() - i,
{
    if i < s.len() && !is_space_char(s[i]) && !is_delim_char(s[i]) {
        lemma_sym_end(s, i + 1);
    }
}

/// What remains of the text after position `i`; the termination measure of
/// the parser.
pub open spec fn rem(s: Seq<char>, i: int) -> int {
    if s.len() - i >= 0 {
        s.len() - i
    } else {
        0
    }
}

/// A recoverable parse failure, as contracts state it.
pub enum ReadErr {
    NotANumber,
    NotABoolean,
    NotAString,
    NotAList,
    NotAFunctionCall,
    UnterminatedString,
    UnbalancedParenthesis,
    UnbalancedBraces,
    InvalidNumber(Seq<char>),
    InvalidSymbol(Seq<char>),
    GenericError(Seq<char>),
}

/// A recoverable parse failure surfaced by the `Reader`.
#[derive(Debug, PartialEq)]
pub enum ReaderError {
    NotANumber,
    NotABoolean,
    NotAString,
    NotAList,
    NotAFunctionCall,
    UnterminatedString,
    UnbalancedParenthesis,
    UnbalancedBraces,
    InvalidNumber(String),
    InvalidSymbol(String),
    GenericError(String),
}

impl View for ReaderError {
    type V = ReadErr;

    open spec fn view(&self) -> ReadErr {
        match *self {
            ReaderError::NotANumber => ReadErr::NotANumber,
            ReaderError::NotABoolean => ReadErr::NotABoolean,
            ReaderError::NotAString => ReadErr::NotAString,
            ReaderError::NotAList => ReadErr::NotAList,
            ReaderError::NotAFunctionCall => ReadErr::NotAFunctionCall,
            ReaderError::UnterminatedString => ReadErr::UnterminatedString,
            ReaderError::UnbalancedParenthesis => ReadErr::UnbalancedParenthesis,
            ReaderError::UnbalancedBraces => ReadErr::UnbalancedBraces,
            ReaderError::InvalidNumber(s) => ReadErr::InvalidNumber(s@),
            ReaderError::InvalidSymbol(s) => ReadErr::InvalidSymbol(s@),
            ReaderError::GenericError(s) => ReadErr::GenericError(s@),
        }
    }
}

/// The number production at position `p`: an optional minus sign, an
/// optional leading dot, then one or more decimal digits with at most one
/// dot in all; the consumed text converts to the nearest binary64 value. A
/// missing first digit is `NotANumber`; a second dot is `InvalidNumber`.
pub open spec fn parse_number(s: Seq<char>, p: int) -> Result<(ValueView, int), ReadErr> {
    let q = if p < s.len() && s[p] == '-' {
        p + 1
    } else {
        p
    };
    let seen0 = q < s.len() && s[q] == '.';
    let r = if seen0 {
        q + 1
    } else {
        q
    };
    if !(r < s.len() && is_digit_char(s[r])) {
        Err(ReadErr::NotANumber)
    } else {
        let scan = num_scan(s, r, seen0);
        if scan.1 {
            Err(ReadErr::InvalidNumber("Too many dots"@))
        } else {
            Ok((ValueView::Num(double_of_decimal(s.subrange(p, scan.0))), scan.0))
        }
    }
}

/// The boolean production at position `p`: `#t`/`#T` is true, `#f`/`#F` is
/// false, and anything else fails without consuming input.
pub open spec fn parse_boolean(s: Seq<char>, p: int) -> Result<(ValueView, int), ReadErr> {
    if p < s.len() && s[p] == '#' {
        if p + 1 < s.len() && (s[p + 1] == 't' || s[p + 1] == 'T') {
            Ok((ValueView::Bool(true), p + 2))
        } else if p + 1 < s.len() && (s[p + 1] == 'f' || s[p + 1] == 'F') {
            Ok((ValueView::Bool(false), p + 2))
        } else {
            Err(ReadErr::NotABoolean)
        }
    } else {
        Err(ReadErr::NotABoolean)
    }
}

/// The string production at position `p`: the raw text between a double
/// quote and the next double quote, with no escape processing; an opening
/// quote with no closing quote is `UnterminatedString`.
pub open spec fn parse_string(s: Seq<char>, p: int) -> Result<(ValueView, int), ReadErr> {
    if p < s.len() && s[p] == '"' {
        let j = quote_end(s, p + 1);
        if j < s.len() {
            Ok((ValueView::Str(s.subrange(p + 1, j)), j + 1))
        } else {
            Err(ReadErr::UnterminatedString)
        }
    } else {
        Err(ReadErr::NotAString)
    }
}

/// The symbol production at position `p`: the maximal run of characters
/// that are neither whitespace nor delimiters; an empty run is an error.
pub open spec fn parse_symbol(s: Seq<char>, p: int) -> Result<(ValueView, int), ReadErr> {
    let e = sym_end(s, p);
    if e > p {
        Ok((ValueView::Sym(s.subrange(p, e)), e))
    } else {
        Err(ReadErr::InvalidSymbol("Empty symbol"@))
    }
}

/// The elements of a parenthesized list or a do-block, read one after
/// another up to the closing delimiter; reaching the end of the text first
/// is the unbalanced error of that delimiter.
pub open spec fn parse_elems(s: Seq<char>, i: int, close: char) -> Result<
    (Seq<ValueView>, int),
    ReadErr,
>
    decreases rem(s, i), 2int,
{
    let w = if ws_end(s, i) >= i {
        ws_end(s, i)
    } else {
        i
    };
    if w >= s.len() {
        Err(
            if close == ')' {
                ReadErr::UnbalancedParenthesis
            } else {
                ReadErr::UnbalancedBraces
            },
        )
    } else if s[w] == close {
        Ok((Seq::empty(), w + 1))
    } else {
        match parse_at(s, w) {
            Ok(vj) => {
                let j = if vj.1 >= w + 1 {
                    vj.1
                } else {
                    w + 1
                };
                match parse_elems(s, j, close) {
                    Ok(esk) => Ok((seq![vj.0] + esk.0, esk.1)),
                    Err(e) => Err(e),
                }
            },
            Err(e) => Err(e),
        }
    }
}

/// The list production at position `p`: `(`, zero or more expressions, `)`.
pub open spec fn parse_list(s: Seq<char>, p: int) -> Result<(ValueView, int), ReadErr>
    decreases rem(s, p), 0int,
{
    if p < s.len() && s[p] == '(' {
        match parse_elems(s, p + 1, ')') {
            Ok(esj) => Ok((ValueView::List(esj.0), esj.1)),
            Err(e) => Err(e),
        }
    } else {
        Err(ReadErr::NotAList)
    }
}

/// The do-block production at position `p`: `{`, zero or more expressions,
/// `}`; the result is the same list prefixed with the symbol `do`, so that
/// evaluating it sequences the contained expressions.
pub open spec fn parse_do(s: Seq<char>, p: int) -> Result<(ValueView, int), ReadErr>
    decreases rem(s, p), 0int,
{
    if p < s.len() && s[p] == '{' {
        match parse_elems(s, p + 1, '}') {
            Ok(esj) => Ok((ValueView::List(seq![ValueView::Sym("do"@)] + esj.0), esj.1)),
            Err(e) => Err(e),
        }
    } else {
        Err(ReadErr::NotAList)
    }
}

/// The function-call production at position `p`: a symbol immediately
/// followed, with no intervening whitespace, by a parenthesized list;
/// equivalent to the list with the symbol prepended.
pub open spec fn parse_fcall(s: Seq<char>, p: int) -> Result<(ValueView, int), ReadErr>
    decreases rem(s, p), 0int,
{
    let e = sym_end(s, p);
    if e <= p {
        Err(ReadErr::InvalidSymbol("Empty symbol"@))
    } else if e < s.len() && s[e] == '(' {
        match parse_elems(s, e + 1, ')') {
            Ok(esj) => Ok((ValueView::List(seq![ValueView::Sym(s.subrange(p, e))] + esj.0), esj.1)),
            Err(er) => Err(er),
        }
    } else {
        Err(ReadErr::NotAList)
    }
}

/// One expression read from position `i`: leading whitespace is skipped and
/// the productions are tried in priority order. A production that fails
/// passes the turn to the next, except that `InvalidNumber`,
/// `UnterminatedString`, `UnbalancedParenthesis` and `UnbalancedBraces`
/// propagate at once. When every production has failed, the symbol
/// production's failure is the result.
pub open spec fn parse_at(s: Seq<char>, i: int) -> Result<(ValueView, int), ReadErr>
    decreases rem(s, i), 1int,
{
    let p = if ws_end(s, i) >= i {
        ws_end(s, i)
    } else {
        i
    };
    let n = parse_number(s, p);
    if n is Ok || n->Err_0 is InvalidNumber {
        n
    } else {
        let b = parse_boolean(s, p);
        if b is Ok {
            b
        } else {
            let t = parse_string(s, p);
            if t is Ok || t->Err_0 is UnterminatedString {
                t
            } else {
                let l = parse_list(s, p);
                if l is Ok || l->Err_0 is UnbalancedParenthesis {
                    l
                } else {
                    let d = parse_do(s, p);
                    if d is Ok || d->Err_0 is UnbalancedBraces {
                        d
                    } else {
                        let f = parse_fcall(s, p);
                        if f is Ok || f->Err_0 is UnbalancedParenthesis {
                            f
                        } else {
                            parse_symbol(s, p)
                        }
                    }
                }
            }
        }
    }
}

/// A whitespace character, tested on one character.
fn space_char(c: char) -> (r: bool)
    ensures
        r == is_space_char(c),
{
    c == ' ' || c == '\t' || c == '\n' || c == '\r' || c == '\u{b}' || c == '\u{c}'
}

/// A delimiter character, tested on one character.
fn delim_char(c: char) -> (r: bool)
    ensures
        r == is_delim_char(c),
{
    match c {
        '(' | ')' | '[' | ']' | '{' | '}' | '<' | '>' | '\'' => true,
        _ => false,
    }
}

/// Parses one expression at a time from a shared source string, advancing
/// the cursor `it` (a character offset) across repeated calls so a caller
/// can read a whole script as a sequence of top-level expressions.
pub struct Reader {
    pub it: usize,
}

impl Reader {
    /// A reader with its cursor at the start of the text.
    pub fn new() -> (r: Self)
        ensures
            r.it == 0,
    {
        Reader { it: 0 }
    }

    /// Rewinds the cursor to the start for reuse against the same or
    /// different text.
    pub fn reset(&mut self)
        ensures
            final(self).it == 0,
    {
        self.it = 0;
    }

    /// Whether the cursor is at or past the end of the text.
    pub fn at_eof(&self, code: &String) -> (r: bool)
        ensures
            r == (self.it as int >= code@.len()),
    {
        self.it >= code.as_str().unicode_len()
    }

    /// The character under the cursor, if the cursor is within the text.
    pub fn chr(&self, code: &String) -> (r: Option<char>)
        ensures
            r == if (self.it as int) < code@.len() {
                Some(code@[self.it as int])
            } else {
                Option::<char>::None
            },
    {
        let n = code.as_str().unicode_len();
        if self.it < n {
            Some(code.as_str().get_char(self.it))
        } else {
            None
        }
    }

    /// Whether the character under the cursor satisfies the predicate;
    /// false at or past the end of the text.
    pub fn is_chr_p<F: Fn(char) -> bool>(&self, code: &String, f: F) -> (r: bool)
        requires
            forall|c: char| #[trigger] f.requires((c,)),
        ensures
            (self.it as int) < code@.len() ==> f.ensures((code@[self.it as int],), r),
            (self.it as int) >= code@.len() ==> r == false,
    {
        match self.chr(code) {
            Some(c) => f(c),
            None => false,
        }
    }

    /// Whether the character under the cursor is the given one; false at or
    /// past the end of the text.
    pub fn is_chr(&self, code: &String, chr: char) -> (r: bool)
        ensures
            r == ((self.it as int) < code@.len() && code@[self.it as int] == chr),
    {
        match self.chr(code) {
            Some(c) => c == chr,
            None => false,
        }
    }

    /// Whether the character under the cursor is whitespace; false at or
    /// past the end of the text.
    pub fn is_whitespace(&self, code: &String) -> (r: bool)
        ensures
            r == ((self.it as int) < code@.len() && is_space_char(code@[self.it as int])),
    {
        match self.chr(code) {
            Some(c) => space_char(c),
            None => false,
        }
    }

    /// Whether the character under the cursor is a delimiter; false at or
    /// past the end of the text.
    pub fn is_delimiter(&self, code: &String) -> (r: bool)
        ensures
            r == ((self.it as int) < code@.len() && is_delim_char(code@[self.it as int])),
    {
        match self.chr(code) {
            Some(c) => delim_char(c),
            None => false,
        }
    }

    /// Advances the cursor to the first non-whitespace character (or the
    /// end of the text).
    pub fn skip_whitespace(&mut self, code: &String)
        ensures
            final(self).it as int == ws_end(code@, old(self).it as int),
            old(self).it <= final(self).it,
            old(self).it as int <= code@.len() ==> final(self).it as int <= code@.len(),
    {
        let ghost s = code@;
        let ghost i0 = old(self).it as int;
        let n = code.as_str().unicode_len();
        while !self.at_eof(code) && self.is_whitespace(code)
            invariant
                old(self).it <= self.it,
                ws_end(s, i0) == ws_end(s, self.it as int),
                i0 <= s.len() ==> self.it as int <= s.len(),
                s == code@,
                n as int == s.len(),
            decreases rem(s, self.it as int),
        {
            self.it = self.it + 1;
        }
    }

    /// Reads a boolean literal: `#t`/`#T` is true, `#f`/`#F` is false; any
    /// other text fails with the cursor restored.
    pub fn read_boolean(&mut self, code: &String) -> (res: Result<Value, ReaderError>)
        ensures
            match parse_boolean(code@, old(self).it as int) {
                Ok(vj) => res is Ok && value_view(res->Ok_0) == vj.0 && final(self).it as int
                    == vj.1,
                Err(e) => res is Err && res->Err_0@ == e && final(self).it == old(self).it,
            },
            res is Ok ==> old(self).it < final(self).it && final(self).it as int <= code@.len(),
    {
        let start = self.it;
        // The character count, as a witness that positions below it fit in
        // a usize.
        let n = code.as_str().unicode_len();
        if !self.is_chr(code, '#') {
            return Err(ReaderError::NotABoolean);
        }
        self.it = self.it + 1;
        if self.is_chr(code, 't') || self.is_chr(code, 'T') {
            self.it = self.it + 1;
            Ok(Value::Bool(true))
        } else if self.is_chr(code, 'f') || self.is_chr(code, 'F') {
            self.it = self.it + 1;
            Ok(Value::Bool(false))
        } else {
            self.it = start;
            Err(ReaderError::NotABoolean)
        }
    }

    /// Reads a string literal: the raw text between a double quote and the
    /// next double quote, with no escape processing. An opening quote with
    /// no closing quote fails as unterminated, with the cursor restored to
    /// before the opening quote.
    pub fn read_string(&mut self, code: &String) -> (res: Result<Value, ReaderError>)
        ensures
            match parse_string(code@, old(self).it as int) {
                Ok(vj) => res is Ok && value_view(res->Ok_0) == vj.0 && final(self).it as int
                    == vj.1,
                Err(e) => res is Err && res->Err_0@ == e && final(self).it == old(self).it,
            },
            res is Ok ==> old(self).it < final(self).it && final(self).it as int <= code@.len(),
    {
        let ghost s = code@;
        let start = self.it;
        let n = code.as_str().unicode_len();
        if !self.is_chr(code, '"') {
            return Err(ReaderError::NotAString);
        }
        self.it = self.it + 1;
        loop
            invariant
                start as int + 1 <= self.it as int <= s.len(),
                (start as int) < s.len(),
                s[start as int] == '"',
                quote_end(s, start as int + 1) == quote_end(s, self.it as int),
                s == code@,
                n as int == s.len(),
                start == old(self).it,
            decreases rem(s, self.it as int),
        {
            if self.at_eof(code) {
                self.it = start;
                return Err(ReaderError::UnterminatedString);
            }
            if self.is_chr(code, '"') {
                let j = self.it;
                self.it = self.it + 1;
                let content = code.as_str().substring_char(start + 1, j).to_owned();
                return Ok(Value::Str(content));
            }
            self.it = self.it + 1;
        }
    }

    /// Reads a symbol: the maximal run of characters that are neither
    /// whitespace nor delimiters; an empty run is an error.
    pub fn read_symbol(&mut self, code: &String) -> (res: Result<Value, ReaderError>)
        ensures
            match parse_symbol(code@, old(self).it as int) {
                Ok(vj) => res is Ok && value_view(res->Ok_0) == vj.0 && final(self).it as int
                    == vj.1,
                Err(e) => res is Err && res->Err_0@ == e && final(self).it == old(self).it,
            },
            res is Ok ==> old(self).it < final(self).it && final(self).it as int <= code@.len(),
    {
        let ghost s = code@;
        let start = self.it;
        let n = code.as_str().unicode_len();
        while !self.at_eof(code) && !self.is_whitespace(code) && !self.is_delimiter(code)
            invariant
                start <= self.it,
                sym_end(s, start as int) == sym_end(s, self.it as int),
                start as int <= s.len() ==> self.it as int <= s.len(),
                s == code@,
                n as int == s.len(),
            decreases rem(s, self.it as int),
        {
            self.it = self.it + 1;
        }
        if self.it == start {
            return Err(ReaderError::InvalidSymbol("Empty symbol".to_owned()));
        }
        let text = code.as_str().substring_char(start, self.it).to_owned();
        Ok(Value::Sym(text))
    }
}

/// What the number scan passes over: digits and at most one dot, ending at
/// the first character that is neither (a second dot stops it as an error).
pub proof fn lemma_num_scan(s: Seq<char>, i: int, seen: bool)
    requires
        0 <= i <= s.len(),
    ensures
        ({
            let scan = num_scan(s, i, seen);
            &&& i <= scan.0 <= s.len()
            &&& forall|k: int| i <= k < scan.0 ==> is_digit_char(s[k]) || s[k] == '.'
            &&& (seen ==> forall|k: int| i <= k < scan.0 ==> is_digit_char(s[k]))
            &&& (!scan.1 ==> forall|k1: int, k2: int|
                i <= k1 < k2 < scan.0 && s[k1] == '.' ==> s[k2] != '.')
            &&& (!scan.1 && scan.0 < s.len() ==> !is_digit_char(s[scan.0]) && s[scan.0] != '.')
            &&& (scan.1 ==> scan.0 < s.len() && s[scan.0] == '.')
        }),
    decreases s.len() - i,
{
    if i < s.len() {
        if is_digit_char(s[i]) {
            lemma_num_scan(s, i + 1, seen);
        } else if s[i] == '.' && !seen {
            lemma_num_scan(s, i + 1, true);
        }
    }
}

impl Reader {
    /// Reads a number literal: an optional minus sign, an optional leading
    /// dot, then one or more decimal digits with at most one dot in all,
    /// converted to the nearest binary64 value. A missing first digit fails
    /// as `NotANumber` with the cursor restored; a second dot fails as
    /// `InvalidNumber`, also with the cursor restored.
    pub fn read_number(&mut self, code: &String) -> (res: Result<Value, ReaderError>)
        ensures
            match parse_number(code@, old(self).it as int) {
                Ok(vj) => res is Ok && value_view(res->Ok_0) == vj.0 && final(self).it as int
                    == vj.1,
                Err(e) => res is Err && res->Err_0@ == e && final(self).it == old(self).it,
            },
            res is Ok ==> old(self).it < final(self).it && final(self).it as int <= code@.len(),
    {
        let ghost s = code@;
        let ghost p = old(self).it as int;
        let start = self.it;
        let n = code.as_str().unicode_len();
        let mut is_real = false;
        if self.is_chr(code, '-') {
            self.it = self.it + 1;
        }
        if self.is_chr(code, '.') {
            self.it = self.it + 1;
            is_real = true;
        }
        let first_digit = match self.chr(code) {
            Some(c) => c >= '0' && c <= '9',
            None => false,
        };
        if !first_digit {
            self.it = start;
            return Err(ReaderError::NotANumber);
        }
        let ghost r0 = self.it as int;
        let ghost seen0 = is_real;
        loop
            invariant
                r0 <= self.it as int <= s.len(),
                num_scan(s, r0, seen0) == num_scan(s, self.it as int, is_real),
                s == code@,
                n as int == s.len(),
                start == old(self).it,
                start as int == p,
                p <= r0 < s.len(),
                is_digit_char(s[r0]),
                parse_number(s, p) == (if num_scan(s, r0, seen0).1 {
                    Err::<(ValueView, int), ReadErr>(ReadErr::InvalidNumber("Too many dots"@))
                } else {
                    Ok::<(ValueView, int), ReadErr>(
                        (
                            ValueView::Num(
                                double_of_decimal(s.subrange(p, num_scan(s, r0, seen0).0)),
                            ),
                            num_scan(s, r0, seen0).0,
                        ),
                    )
                }),
                seen0 ==> is_real,
                r0 == p || (r0 == p + 1 && (s[p] == '-' || s[p] == '.')) || (r0 == p + 2 && s[p]
                    == '-' && s[p + 1] == '.'),
                seen0 == (r0 > p && s[r0 - 1] == '.'),
            ensures
                num_scan(s, r0, seen0) == (self.it as int, false),
                r0 <= self.it as int <= s.len(),
            decreases s.len() - self.it,
        {
            if self.at_eof(code) {
                break;
            }
            let copt = self.chr(code);
            match copt {
                Some(c) => {
                    if c >= '0' && c <= '9' {
                        self.it = self.it + 1;
                    } else if c == '.' {
                        if is_real {
                            self.it = start;
                            return Err(ReaderError::InvalidNumber("Too many dots".to_owned()));
                        } else {
                            is_real = true;
                            self.it = self.it + 1;
                        }
                    } else {
                        break;
                    }
                },
                None => {
                    break;
                },
            }
        }
        let ghost e = self.it as int;
        proof {
            lemma_num_scan(s, r0, seen0);
            if e == r0 {
                assert(!is_digit_char(s[r0]));
            }
            assert(e > r0);
            let token = s.subrange(p, e);
            assert(token.len() == e - p);
            assert(token[0] == s[p]);
            let t = digits_part(token);
            assert(is_digit_char(s[r0]));
            assert forall|k: int| 0 <= k < t.len() implies is_digit_char(t[k]) || t[k] == '.' by {
                let off = if s[p] == '-' {
                    p + 1
                } else {
                    p
                };
                assert(t[k] == s[k + off]);
            }
            let digit_pos = if s[p] == '-' {
                r0 - p - 1
            } else {
                r0 - p
            };
            assert(0 <= digit_pos < t.len());
            assert(is_digit_char(t[digit_pos]));
            assert forall|k1: int, k2: int|
                0 <= k1 < k2 < t.len() && t[k1] == '.' implies t[k2] != '.' by {
                let off = if s[p] == '-' {
                    p + 1
                } else {
                    p
                };
                assert(t[k1] == s[k1 + off]);
                assert(t[k2] == s[k2 + off]);
                if seen0 {
                    assert(s[r0 - 1] == '.');
                    assert(forall|k: int| r0 <= k < e ==> is_digit_char(s[k]));
                } else {
                    assert(forall|j1: int, j2: int|
                        r0 <= j1 < j2 < e && s[j1] == '.' ==> s[j2] != '.');
                }
            }
            assert(t.len() > 0);
            assert(forall|i: int| 0 <= i < t.len() ==> is_digit_char(t[i]) || t[i] == '.');
            assert(exists|i: int| 0 <= i < t.len() && is_digit_char(t[i]));
            assert(forall|i: int, j: int| 0 <= i < j < t.len() && t[i] == '.' ==> t[j] != '.');
            assert(decimal_token(token));
        }
        let token = code.as_str().substring_char(start, self.it);
        let bits = parse_double(token);
        Ok(Value::Num(bits))
    }
}

/// Skipping whitespace twice moves no further than once.
pub proof fn lemma_ws_end_idempotent(s: Seq<char>, i: int)
    requires
        0 <= i <= s.len(),
    ensures
        ws_end(s, ws_end(s, i)) == ws_end(s, i),
{
    lemma_ws_end(s, i);
}

/// `list_view` of a push is the view with the element's shape appended.
proof fn lemma_list_view_push(xs: Seq<Value>, v: Value)
    ensures
        list_view(xs.push(v)) =~= list_view(xs) + seq![value_view(v)],
{
    lemma_list_view(xs);
    lemma_list_view(xs.push(v));
}

impl Reader {
    /// Reads a parenthesized list: `(`, zero or more expressions separated
    /// only by whitespace, then `)`. Reaching the end of the input before
    /// the closing parenthesis fails as unbalanced, with the cursor
    /// restored to the opening parenthesis; so does any failure inside an
    /// element.
    pub fn read_list(&mut self, code: &String) -> (res: Result<Value, ReaderError>)
        ensures
            match parse_list(code@, old(self).it as int) {
                Ok(vj) => res is Ok && value_view(res->Ok_0) == vj.0 && final(self).it as int
                    == vj.1,
                Err(e) => res is Err && res->Err_0@ == e && final(self).it == old(self).it,
            },
            res is Ok ==> old(self).it < final(self).it && final(self).it as int <= code@.len(),
        decreases rem(code@, old(self).it as int), 0int,
    {
        let ghost s = code@;
        let ghost p = old(self).it as int;
        let n = code.as_str().unicode_len();
        if !self.is_chr(code, '(') {
            return Err(ReaderError::NotAList);
        }
        let start = self.it;
        self.it = self.it + 1;
        let mut xs: Vec<Value> = Vec::new();
        loop
            invariant
                s == code@,
                n as int == s.len(),
                start == old(self).it,
                start as int == p,
                p < s.len(),
                s[p] == '(',
                p + 1 <= self.it as int <= s.len(),
                parse_elems(s, p + 1, ')') == (match parse_elems(s, self.it as int, ')') {
                    Ok(esk) => Ok::<(Seq<ValueView>, int), ReadErr>(
                        (list_view(xs@) + esk.0, esk.1),
                    ),
                    Err(e) => Err::<(Seq<ValueView>, int), ReadErr>(e),
                }),
            decreases rem(s, self.it as int),
        {
            let ghost prev = self.it as int;
            self.skip_whitespace(code);
            let ghost w = self.it as int;
            proof {
                lemma_ws_end_idempotent(s, prev);
            }
            if self.at_eof(code) {
                self.it = start;
                return Err(ReaderError::UnbalancedParenthesis);
            }
            if self.is_chr(code, ')') {
                self.it = self.it + 1;
                proof {
                    assert(list_view(xs@) + Seq::<ValueView>::empty() =~= list_view(xs@));
                }
                return Ok(Value::List(xs));
            }
            let eres = self.read(code);
            match eres {
                Ok(element) => {
                    proof {
                        lemma_list_view_push(xs@, element);
                        assert(list_view(xs@) + seq![value_view(element)]
                            + parse_elems(s, self.it as int, ')')->Ok_0.0 =~= list_view(xs@) + (
                        seq![value_view(element)] + parse_elems(s, self.it as int, ')')->Ok_0.0));
                    }
                    xs.push(element);
                },
                Err(e) => {
                    self.it = start;
                    return Err(e);
                },
            }
        }
    }

    /// Reads a do-block: `{`, zero or more expressions, then `}`; the
    /// resulting list is prefixed with the symbol `do`, so that evaluating
    /// it sequences the contained expressions. Reaching the end of the
    /// input before the closing brace fails as unbalanced braces, with the
    /// cursor restored.
    pub fn read_do_block(&mut self, code: &String) -> (res: Result<Value, ReaderError>)
        ensures
            match parse_do(code@, old(self).it as int) {
                Ok(vj) => res is Ok && value_view(res->Ok_0) == vj.0 && final(self).it as int
                    == vj.1,
                Err(e) => res is Err && res->Err_0@ == e && final(self).it == old(self).it,
            },
            res is Ok ==> old(self).it < final(self).it && final(self).it as int <= code@.len(),
        decreases rem(code@, old(self).it as int), 0int,
    {
        let ghost s = code@;
        let ghost p = old(self).it as int;
        let n = code.as_str().unicode_len();
        if !self.is_chr(code, '{') {
            return Err(ReaderError::NotAList);
        }
        let start = self.it;
        self.it = self.it + 1;
        let mut xs: Vec<Value> = Vec::new();
        loop
            invariant
                s == code@,
                n as int == s.len(),
                start == old(self).it,
                start as int == p,
                p < s.len(),
                s[p] == '{',
                p + 1 <= self.it as int <= s.len(),
                parse_elems(s, p + 1, '}') == (match parse_elems(s, self.it as int, '}') {
                    Ok(esk) => Ok::<(Seq<ValueView>, int), ReadErr>(
                        (list_view(xs@) + esk.0, esk.1),
                    ),
                    Err(e) => Err::<(Seq<ValueView>, int), ReadErr>(e),
                }),
            decreases rem(s, self.it as int),
        {
            let ghost prev = self.it as int;
            self.skip_whitespace(code);
            let ghost w = self.it as int;
            proof {
                lemma_ws_end_idempotent(s, prev);
            }
            if self.at_eof(code) {
                self.it = start;
                return Err(ReaderError::UnbalancedBraces);
            }
            if self.is_chr(code, '}') {
                self.it = self.it + 1;
                let ghost xs0 = xs@;
                let mut out: Vec<Value> = Vec::new();
                out.push(Value::Sym("do".to_owned()));
                out.append(&mut xs);
                proof {
                    lemma_list_view(out@);
                    lemma_list_view(xs0);
                    assert(list_view(out@) =~= seq![ValueView::Sym("do"@)] + list_view(xs0));
                    assert(list_view(xs0) + Seq::<ValueView>::empty() =~= list_view(xs0));
                }
                return Ok(Value::List(out));
            }
            let eres = self.read(code);
            match eres {
                Ok(element) => {
                    proof {
                        lemma_list_view_push(xs@, element);
                        assert(list_view(xs@) + seq![value_view(element)]
                            + parse_elems(s, self.it as int, '}')->Ok_0.0 =~= list_view(xs@) + (
                        seq![value_view(element)] + parse_elems(s, self.it as int, '}')->Ok_0.0));
                    }
                    xs.push(element);
                },
                Err(e) => {
                    self.it = start;
                    return Err(e);
                },
            }
        }
    }
}

impl Reader {
    /// Reads a function call: a symbol immediately followed, with no
    /// intervening whitespace, by a parenthesized list — equivalent to the
    /// list with the symbol prepended. If the list is absent or malformed
    /// the cursor is restored to before the symbol, except that an
    /// unbalanced-parenthesis failure leaves the cursor at the symbol's end
    /// and propagates.
    pub fn read_function_call(&mut self, code: &String) -> (res: Result<Value, ReaderError>)
        ensures
            match parse_fcall(code@, old(self).it as int) {
                Ok(vj) => res is Ok && value_view(res->Ok_0) == vj.0 && final(self).it as int
                    == vj.1,
                Err(e) => res is Err && res->Err_0@ == e && final(self).it as int == (
                if e is UnbalancedParenthesis {
                    sym_end(code@, old(self).it as int)
                } else {
                    old(self).it as int
                }),
            },
            res is Ok ==> old(self).it < final(self).it && final(self).it as int <= code@.len(),
        decreases rem(code@, old(self).it as int), 0int,
    {
        let ghost s = code@;
        let ghost p = old(self).it as int;
        let start = self.it;
        let symres = self.read_symbol(code);
        let symv = match symres {
            Ok(v) => v,
            Err(e) => {
                return Err(e);
            },
        };
        let listres = self.read_list(code);
        match listres {
            Ok(lv) => {
                let ghost es = match parse_list(s, sym_end(s, p)) {
                    Ok(vj) => vj.0->List_0,
                    Err(_) => Seq::empty(),
                };
                let mut rest = lv.as_vec();
                let ghost rest0 = rest@;
                let mut out: Vec<Value> = Vec::new();
                out.push(symv);
                out.append(&mut rest);
                proof {
                    lemma_list_view(out@);
                    lemma_list_view(rest0);
                    assert(out@ =~= seq![symv] + rest0);
                    assert(list_view(out@) =~= seq![ValueView::Sym(s.subrange(p, sym_end(s, p)))]
                        + es);
                }
                Ok(Value::List(out))
            },
            Err(e) => {
                let unbalanced = match &e {
                    ReaderError::UnbalancedParenthesis => true,
                    _ => false,
                };
                if !unbalanced {
                    self.it = start;
                }
                Err(e)
            },
        }
    }

    /// Reads one expression: leading whitespace is skipped and the
    /// productions are tried in priority order — number, boolean, string,
    /// list, do-block, function call, symbol. A production that fails
    /// passes the turn to the next, except that invalid-number,
    /// unterminated-string, unbalanced-parenthesis and unbalanced-braces
    /// failures propagate at once; when every production has failed, the
    /// symbol production's failure is the result.
    pub fn read(&mut self, code: &String) -> (res: Result<Value, ReaderError>)
        ensures
            match parse_at(code@, old(self).it as int) {
                Ok(vj) => res is Ok && value_view(res->Ok_0) == vj.0 && final(self).it as int
                    == vj.1 && ws_end(code@, old(self).it as int) < vj.1 && vj.1 <= code@.len(),
                Err(e) => res is Err && res->Err_0@ == e && final(self).it as int == (
                if e is UnbalancedParenthesis && !(ws_end(code@, old(self).it as int)
                    < code@.len() && code@[ws_end(code@, old(self).it as int)] == '(') {
                    sym_end(code@, ws_end(code@, old(self).it as int))
                } else {
                    ws_end(code@, old(self).it as int)
                }),
            },
        decreases rem(code@, old(self).it as int), 1int,
    {
        let ghost s = code@;
        let ghost i = old(self).it as int;
        self.skip_whitespace(code);
        let ghost p = self.it as int;

        let nres = self.read_number(code);
        let number_invalid = match &nres {
            Err(ReaderError::InvalidNumber(_)) => true,
            _ => false,
        };
        if nres.is_ok() || number_invalid {
            return nres;
        }

        let bres = self.read_boolean(code);
        if bres.is_ok() {
            return bres;
        }

        let tres = self.read_string(code);
        let unterminated = match &tres {
            Err(ReaderError::UnterminatedString) => true,
            _ => false,
        };
        if tres.is_ok() || unterminated {
            return tres;
        }

        let lres = self.read_list(code);
        let list_unbalanced = match &lres {
            Err(ReaderError::UnbalancedParenthesis) => true,
            _ => false,
        };
        if lres.is_ok() || list_unbalanced {
            return lres;
        }

        let dres = self.read_do_block(code);
        let braces_unbalanced = match &dres {
            Err(ReaderError::UnbalancedBraces) => true,
            _ => false,
        };
        if dres.is_ok() || braces_unbalanced {
            return dres;
        }

        let fres = self.read_function_call(code);
        let call_unbalanced = match &fres {
            Err(ReaderError::UnbalancedParenthesis) => true,
            _ => false,
        };
        if fres.is_ok() || call_unbalanced {
            return fres;
        }

        self.read_symbol(code)
    }
}

/// `quote_end` stays between its start and the end of the text.
pub proof fn lemma_quote_end(s: Seq<char>, i: int)
    requires
        0 <= i <= s.len(),
    ensures
        i <= quote_end(s, i) <= s.len(),
    decreases s.len() - i,
{
    if i < s.len() && s[i] != '"' {
        lemma_quote_end(s, i + 1);
    }
}

/// What a text parses to is smaller than the text: the size of the parsed
/// tree is bounded by the number of characters consumed.
pub proof fn lemma_parse_size(s: Seq<char>, i: int)
    requires
        0 <= i,
    ensures
        parse_at(s, i) is Ok ==> ({
            let vj = parse_at(s, i)->Ok_0;
            i < vj.1 && vj.1 <= s.len() && size_of(vj.0) <= vj.1 - i
        }),
    decreases rem(s, i), 1int,
{
    if parse_at(s, i) is Ok {
        if i > s.len() {
            assert(ws_end(s, i) == i);
            assert(sym_end(s, i) == i);
            assert(parse_at(s, i) is Err);
        }
        let p = if ws_end(s, i) >= i {
            ws_end(s, i)
        } else {
            i
        };
        lemma_ws_end(s, i);
        let n = parse_number(s, p);
        if n is Ok {
            let q = if p < s.len() && s[p] == '-' {
                p + 1
            } else {
                p
            };
            let seen0 = q < s.len() && s[q] == '.';
            let r = if seen0 {
                q + 1
            } else {
                q
            };
            lemma_num_scan(s, r, seen0);
            let scan = num_scan(s, r, seen0);
            if scan.0 == r {
                assert(!is_digit_char(s[r]));
            }
            assert(scan.0 > r);
            assert(n->Ok_0.1 == scan.0);
            assert(size_of(n->Ok_0.0) == 1);
        } else if !(n->Err_0 is InvalidNumber) {
            let b = parse_boolean(s, p);
            if b is Ok {
            } else {
                let t = parse_string(s, p);
                if t is Ok {
                    lemma_quote_end(s, p + 1);
                    let j = quote_end(s, p + 1);
                    assert(size_of(t->Ok_0.0) == 1 + (j - (p + 1)));
                    assert(t->Ok_0.1 == j + 1);
                } else if !(t->Err_0 is UnterminatedString) {
                    let l = parse_list(s, p);
                    if l is Ok {
                        lemma_elems_size(s, p + 1, ')');
                        let esj = parse_elems(s, p + 1, ')')->Ok_0;
                        lemma_list_size_nonneg(esj.0);
                        assert(size_of(l->Ok_0.0) == 1 + list_size(esj.0));
                        assert(l->Ok_0.1 == esj.1);
                        assert(list_size(esj.0) <= esj.1 - 1 - (p + 1));
                    } else if !(l->Err_0 is UnbalancedParenthesis) {
                        let d = parse_do(s, p);
                        if d is Ok {
                            lemma_elems_size(s, p + 1, '}');
                            let esj = parse_elems(s, p + 1, '}')->Ok_0;
                            lemma_list_size_nonneg(esj.0);
                            assert(seq![ValueView::Sym("do"@)].drop_first()
                                =~= Seq::<ValueView>::empty());
                            lemma_list_size_add(seq![ValueView::Sym("do"@)], esj.0);
                            lemma_list_size_one(ValueView::Sym("do"@));
                            assert(list_size(seq![ValueView::Sym("do"@)]) == 1);
                            assert(size_of(d->Ok_0.0) == 2 + list_size(esj.0));
                            assert(d->Ok_0.1 == esj.1);
                        } else if !(d->Err_0 is UnbalancedBraces) {
                            let f = parse_fcall(s, p);
                            if f is Ok {
                                let e = sym_end(s, p);
                                lemma_sym_end(s, p);
                                lemma_elems_size(s, e + 1, ')');
                                let esj = parse_elems(s, e + 1, ')')->Ok_0;
                                lemma_list_size_nonneg(esj.0);
                                assert(seq![ValueView::Sym(s.subrange(p, e))].drop_first()
                                    =~= Seq::<ValueView>::empty());
                                lemma_list_size_add(
                                    seq![ValueView::Sym(s.subrange(p, e))],
                                    esj.0,
                                );
                                lemma_list_size_one(ValueView::Sym(s.subrange(p, e)));
                                assert(list_size(seq![ValueView::Sym(s.subrange(p, e))]) == 1);
                                assert(size_of(f->Ok_0.0) == 2 + list_size(esj.0));
                                assert(f->Ok_0.1 == esj.1);
                                assert(e >= p + 1);
                            } else if !(f->Err_0 is UnbalancedParenthesis) {
                                lemma_sym_end(s, p);
                            }
                        }
                    }
                }
            }
        }
    }
}

/// The summed size of the elements read up to a closing delimiter is
/// bounded by the characters they span.
pub proof fn lemma_elems_size(s: Seq<char>, i: int, close: char)
    requires
        0 <= i,
    ensures
        parse_elems(s, i, close) is Ok ==> ({
            let ek = parse_elems(s, i, close)->Ok_0;
            i < ek.1 && ek.1 <= s.len() && list_size(ek.0) <= ek.1 - 1 - i
        }),
    decreases rem(s, i), 2int,
{
    if parse_elems(s, i, close) is Ok {
        let w = if ws_end(s, i) >= i {
            ws_end(s, i)
        } else {
            i
        };
        if i <= s.len() {
            lemma_ws_end(s, i);
        }
        if w >= s.len() {
        } else if s[w] == close {
            let ek = parse_elems(s, i, close)->Ok_0;
            assert(ek.0 =~= Seq::<ValueView>::empty());
            assert(list_size(ek.0) == 0);
            assert(ek.1 == w + 1);
        } else {
            lemma_parse_size(s, w);
            let vj = parse_at(s, w)->Ok_0;
            assert(vj.1 > w);
            let j = if vj.1 >= w + 1 {
                vj.1
            } else {
                w + 1
            };
            assert(j == vj.1);
            lemma_elems_size(s, j, close);
            let ek = parse_elems(s, j, close)->Ok_0;
            assert(seq![vj.0].drop_first() =~= Seq::<ValueView>::empty());
            lemma_list_size_add(seq![vj.0], ek.0);
            lemma_list_size_one(vj.0);
            assert(list_size(seq![vj.0] + ek.0) == size_of(vj.0) + list_size(ek.0));
            assert(size_of(vj.0) <= vj.1 - w);
            assert(list_size(ek.0) <= ek.1 - 1 - j);
        }
    }
}

/// A scan over digits and dots with no second dot runs to the end of the
/// text without error.
proof fn lemma_num_scan_all(s: Seq<char>, i: int, seen: bool)
    requires
        0 <= i <= s.len(),
        forall|k: int| i <= k < s.len() ==> is_digit_char(s[k]) || s[k] == '.',
        seen ==> forall|k: int| i <= k < s.len() ==> is_digit_char(s[k]),
        !seen ==> forall|k1: int, k2: int| i <= k1 < k2 < s.len() && s[k1] == '.' ==> s[k2] != '.',
    ensures
        num_scan(s, i, seen) == (s.len() as int, false),
    decreases s.len() - i,
{
    if i < s.len() {
        if is_digit_char(s[i]) {
            lemma_num_scan_all(s, i + 1, seen);
        } else {
            lemma_num_scan_all(s, i + 1, true);
        }
    }
}

/// For every valid decimal literal, reading yields the number that the
/// literal denotes: its correctly rounded binary64 value, with the whole
/// literal consumed.
pub proof fn lemma_read_number_literal(s: Seq<char>)
    requires
        decimal_token(s),
    ensures
        parse_at(s, 0) == Ok::<(ValueView, int), ReadErr>(
            (ValueView::Num(double_of_decimal(s)), s.len() as int),
        ),
{
    let t = digits_part(s);
    assert(s.len() > 0);
    let q: int = if s[0] == '-' {
        1
    } else {
        0
    };
    assert(forall|k: int| 0 <= k < t.len() ==> t[k] == s[k + q]);
    assert(ws_end(s, 0) == 0);
    let seen0 = q < s.len() && s[q] == '.';
    let r: int = if seen0 {
        q + 1
    } else {
        q
    };
    if seen0 {
        assert(t[0] == '.');
        assert(t.len() >= 2 ==> t[1] == s[q + 1]);
        if t.len() == 1 {
            assert(forall|k: int| 0 <= k < t.len() ==> !is_digit_char(t[k]));
            assert(false);
        }
        if !is_digit_char(t[1]) {
            assert(t[1] == '.');
            assert(false);
        }
    } else {
        assert(t[0] == s[q]);
        if !is_digit_char(t[0]) {
            assert(t[0] == '.');
            assert(false);
        }
    }
    assert(r < s.len() && is_digit_char(s[r]));
    assert forall|k: int| r <= k < s.len() implies is_digit_char(s[k]) || s[k] == '.' by {
        assert(s[k] == t[k - q]);
    }
    if seen0 {
        assert forall|k: int| r <= k < s.len() implies is_digit_char(s[k]) by {
            assert(s[k] == t[k - q]);
            if s[k] == '.' {
                assert(t[0] == '.' && t[k - q] == '.');
                assert(false);
            }
        }
    } else {
        assert forall|k1: int, k2: int|
            r <= k1 < k2 < s.len() && s[k1] == '.' implies s[k2] != '.' by {
            assert(s[k1] == t[k1 - q]);
            assert(s[k2] == t[k2 - q]);
        }
    }
    lemma_num_scan_all(s, r, seen0);
    assert(s.subrange(0, s.len() as int) =~= s);
    assert(parse_number(s, 0) == Ok::<(ValueView, int), ReadErr>(
        (ValueView::Num(double_of_decimal(s)), s.len() as int),
    ));
}

/// A literal with a second dot yields the specific invalid-number failure,
/// never a silently truncated number.
pub proof fn lemma_read_number_two_dots(s: Seq<char>)
    requires
        digits_part(s).len() > 0,
        forall|k: int| 0 <= k < digits_part(s).len() ==> is_digit_char(digits_part(s)[k])
            || digits_part(s)[k] == '.',
        is_digit_char(digits_part(s)[0]) || (digits_part(s)[0] == '.' && digits_part(s).len() > 1
            && is_digit_char(digits_part(s)[1])),
        exists|k1: int, k2: int|
            0 <= k1 < k2 < digits_part(s).len() && digits_part(s)[k1] == '.' && digits_part(
                s,
            )[k2] == '.',
    ensures
        parse_at(s, 0) == Err::<(ValueView, int), ReadErr>(
            ReadErr::InvalidNumber("Too many dots"@),
        ),
{
    let t = digits_part(s);
    let q: int = if s.len() > 0 && s[0] == '-' {
        1
    } else {
        0
    };
    assert(forall|k: int| 0 <= k < t.len() ==> t[k] == s[k + q]);
    assert(ws_end(s, 0) == 0);
    let seen0 = q < s.len() && s[q] == '.';
    let r: int = if seen0 {
        q + 1
    } else {
        q
    };
    assert(r < s.len() && is_digit_char(s[r]));
    lemma_num_scan(s, r, seen0);
    let scan = num_scan(s, r, seen0);
    if !scan.1 {
        assert(r <= scan.0 <= s.len());
        if scan.0 < s.len() {
            assert(!is_digit_char(s[scan.0]) && s[scan.0] != '.');
            assert(s[scan.0] == t[scan.0 - q]);
            assert(false);
        }
        let (k1, k2) = choose|k1: int, k2: int|
            0 <= k1 < k2 < t.len() && #[trigger] t[k1] == '.' && #[trigger] t[k2] == '.';
        if seen0 {
            if k1 == 0 {
                assert(t[k2] == s[k2 + q] && k2 + q >= r);
                assert(is_digit_char(s[k2 + q]));
                assert(false);
            } else {
                assert(t[k1] == s[k1 + q] && k1 + q >= r);
                assert(is_digit_char(s[k1 + q]));
                assert(false);
            }
        } else {
            assert(t[k1] == s[k1 + q] && t[k2] == s[k2 + q]);
            assert(k1 + q >= r && k2 + q >= r);
            assert(false);
        }
    }
    assert(parse_number(s, 0) == Err::<(ValueView, int), ReadErr>(
        ReadErr::InvalidNumber("Too many dots"@),
    ));
}

/// `#t` and `#T` read as true, `#f` and `#F` as false, each consuming two
/// characters; any other suffix after `#` fails the boolean production.
pub proof fn lemma_read_boolean_literal(s: Seq<char>)
    requires
        s.len() >= 2,
        s[0] == '#',
    ensures
        s[1] == 't' || s[1] == 'T' ==> parse_at(s, 0) == Ok::<(ValueView, int), ReadErr>(
            (ValueView::Bool(true), 2),
        ),
        s[1] == 'f' || s[1] == 'F' ==> parse_at(s, 0) == Ok::<(ValueView, int), ReadErr>(
            (ValueView::Bool(false), 2),
        ),
        !(s[1] == 't' || s[1] == 'T' || s[1] == 'f' || s[1] == 'F') ==> parse_boolean(s, 0)
            == Err::<(ValueView, int), ReadErr>(ReadErr::NotABoolean),
{
    assert(ws_end(s, 0) == 0);
    assert(!is_digit_char('#'));
    assert(parse_number(s, 0) == Err::<(ValueView, int), ReadErr>(ReadErr::NotANumber));
}

/// There is no double quote before `j`, and one at `j`, so the string scan
/// stops exactly there.
proof fn lemma_quote_end_at(s: Seq<char>, i: int, j: int)
    requires
        0 <= i <= j < s.len(),
        s[j] == '"',
        forall|k: int| i <= k < j ==> s[k] != '"',
    ensures
        quote_end(s, i) == j,
    decreases j - i,
{
    if i < j {
        lemma_quote_end_at(s, i + 1, j);
    }
}

/// There is no double quote at or after `i`, so the string scan runs off
/// the end of the text.
proof fn lemma_quote_end_none(s: Seq<char>, i: int)
    requires
        0 <= i,
        forall|k: int| i <= k < s.len() ==> s[k] != '"',
    ensures
        quote_end(s, i) == s.len(),
    decreases s.len() - i,
{
    if i < s.len() {
        lemma_quote_end_none(s, i + 1);
    }
}

/// Reading a double-quoted text yields exactly the text between the quotes,
/// verbatim, with no escape decoding; and an opening quote whose text never
/// closes fails as an unterminated string.
pub proof fn lemma_read_string_literal(text: Seq<char>)
    requires
        forall|k: int| 0 <= k < text.len() ==> text[k] != '"',
    ensures
        ({
            let s = seq!['"'] + text + seq!['"'];
            parse_at(s, 0) == Ok::<(ValueView, int), ReadErr>(
                (ValueView::Str(text), s.len() as int),
            )
        }),
        parse_at(seq!['"'] + text, 0) == Err::<(ValueView, int), ReadErr>(
            ReadErr::UnterminatedString,
        ),
{
    let s = seq!['"'] + text + seq!['"'];
    assert(s.len() == text.len() + 2);
    assert(s[0] == '"');
    assert(forall|k: int| 1 <= k < s.len() - 1 ==> s[k] == text[k - 1]);
    assert(s[s.len() - 1] == '"');
    assert(ws_end(s, 0) == 0);
    assert(!is_digit_char('"'));
    assert(parse_number(s, 0) == Err::<(ValueView, int), ReadErr>(ReadErr::NotANumber));
    assert(parse_boolean(s, 0) == Err::<(ValueView, int), ReadErr>(ReadErr::NotABoolean));
    lemma_quote_end_at(s, 1, s.len() - 1);
    assert(s.subrange(1, s.len() - 1) =~= text);

    let u = seq!['"'] + text;
    assert(u[0] == '"');
    assert(forall|k: int| 1 <= k < u.len() ==> u[k] == text[k - 1]);
    assert(ws_end(u, 0) == 0);
    assert(!is_digit_char('"'));
    assert(parse_number(u, 0) == Err::<(ValueView, int), ReadErr>(ReadErr::NotANumber));
    assert(parse_boolean(u, 0) == Err::<(ValueView, int), ReadErr>(ReadErr::NotABoolean));
    lemma_quote_end_none(u, 1);
}

/// A do-block parses to the do-prefixed list of its elements, which are
/// read by the same element grammar that parenthesized lists use: it has
/// the same shape as the corresponding `do` list form.
pub proof fn lemma_do_block_shape(s: Seq<char>, p: int)
    requires
        parse_do(s, p) is Ok,
    ensures
        parse_elems(s, p + 1, '}') is Ok,
        ({
            let vj = parse_do(s, p)->Ok_0;
            let esj = parse_elems(s, p + 1, '}')->Ok_0;
            vj.0 == ValueView::List(seq![ValueView::Sym("do"@)] + esj.0) && vj.1 == esj.1
        }),
{
}

/// The elements of a list or do-block are consumed exactly through the
/// closing delimiter: the end position sits immediately after it.
proof fn lemma_elems_close(s: Seq<char>, i: int, close: char)
    requires
        0 <= i,
    ensures
        parse_elems(s, i, close) is Ok ==> ({
            let ek = parse_elems(s, i, close)->Ok_0;
            0 < ek.1 <= s.len() && s[ek.1 - 1] == close
        }),
    decreases rem(s, i), 2int,
{
    if parse_elems(s, i, close) is Ok {
        lemma_elems_size(s, i, close);
        let w = if ws_end(s, i) >= i {
            ws_end(s, i)
        } else {
            i
        };
        if i <= s.len() {
            lemma_ws_end(s, i);
        }
        if w < s.len() && s[w] != close {
            lemma_parse_size(s, w);
            let vj = parse_at(s, w)->Ok_0;
            let j = if vj.1 >= w + 1 {
                vj.1
            } else {
                w + 1
            };
            lemma_elems_close(s, j, close);
        }
    }
}

/// A well-formed list literal is consumed exactly through its matching
/// closing parenthesis, and the cursor is left immediately after it, so a
/// subsequent read continues with the next top-level form.
pub proof fn lemma_list_consumes_to_close(s: Seq<char>, p: int)
    requires
        0 <= p,
        parse_list(s, p) is Ok,
    ensures
        ({
            let vj = parse_list(s, p)->Ok_0;
            p < vj.1 <= s.len() && s[vj.1 - 1] == ')'
        }),
{
    lemma_elems_size(s, p + 1, ')');
    lemma_elems_close(s, p + 1, ')');
}

} // verus!
