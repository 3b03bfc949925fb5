//! Tokenizer for the request grammar: a forward scan over bytes that skips
//! whitespace and yields one token at a time.
use vstd::prelude::*;
use vstd::string::StringSliceAdditionalSpecFns;

verus! {

/// A lexical unit. Strings and floating-point literals carry no payload:
/// their text is the span that the lexer reports for them.
#[derive(Clone, Copy, Debug, PartialEq, Eq, Structural)]
pub enum Token {
    Plus,
    Minus,
    Colon,
    Underscore,
    Hash,
    Comma,
    Star,
    LeftBracket,
    RightBracket,
    Integer(i64),
    Float,
    String,
    Bool(bool),
}

/// Input that matches no lexical rule, or an integer literal outside `i64`.
#[derive(Clone, Copy, Debug, PartialEq, Eq, Structural)]
pub struct LexError;

pub open spec fn is_ws(b: u8) -> bool {
    b == 32 || b == 9 || b == 10 || b == 13
}

pub open spec fn is_digit(b: u8) -> bool {
    48 <= b <= 57
}

pub open spec fn is_alpha(b: u8) -> bool {
    (65 <= b <= 90) || (97 <= b <= 122)
}

pub open spec fn is_alnum(b: u8) -> bool {
    is_digit(b) || is_alpha(b)
}

/// First position at or after `p` that does not hold whitespace.
pub open spec fn skip_ws(s: Seq<u8>, p: int) -> int
    decreases s.len() - p,
{
    if 0 <= p < s.len() && is_ws(s[p]) {
        skip_ws(s, p + 1)
    } else {
        p
    }
}

/// End of the run of decimal digits that starts at `p`.
pub open spec fn digits_end(s: Seq<u8>, p: int) -> int
    decreases s.len() - p,
{
    if 0 <= p < s.len() && is_digit(s[p]) {
        digits_end(s, p + 1)
    } else {
        p
    }
}

/// End of the run of ASCII letters and digits that starts at `p`.
pub open spec fn alnum_end(s: Seq<u8>, p: int) -> int
    decreases s.len() - p,
{
    if 0 <= p < s.len() && is_alnum(s[p]) {
        alnum_end(s, p + 1)
    } else {
        p
    }
}

/// The number written by a sequence of decimal digits.
pub open spec fn digits_value(d: Seq<u8>) -> int
    decreases d.len(),
{
    if d.len() == 0 {
        0
    } else {
        10 * digits_value(d.drop_last()) + (d.last() - 48)
    }
}

/// The integer token for the digits in `[q, d)`, negated when `negative`.
pub open spec fn integer_token(s: Seq<u8>, q: int, d: int, negative: bool) -> Result<Token, LexError> {
    let v = digits_value(s.subrange(q, d));
    let n = if negative { -v } else { v };
    if i64::MIN <= n <= i64::MAX {
        Ok(Token::Integer(n as i64))
    } else {
        Err(LexError)
    }
}

pub open spec fn punctuation(c: u8) -> Result<Token, LexError> {
    if c == 43 {
        Ok(Token::Plus)
    } else if c == 45 {
        Ok(Token::Minus)
    } else if c == 58 {
        Ok(Token::Colon)
    } else if c == 95 {
        Ok(Token::Underscore)
    } else if c == 35 {
        Ok(Token::Hash)
    } else if c == 44 {
        Ok(Token::Comma)
    } else if c == 42 {
        Ok(Token::Star)
    } else if c == 91 {
        Ok(Token::LeftBracket)
    } else if c == 93 {
        Ok(Token::RightBracket)
    } else {
        Err(LexError)
    }
}

pub open spec fn word_true() -> Seq<u8> {
    seq![116u8, 114u8, 117u8, 101u8]
}

pub open spec fn word_false() -> Seq<u8> {
    seq![102u8, 97u8, 108u8, 115u8, 101u8]
}

/// The token that starts at `q` (a position holding no whitespace) and
/// where it ends. The longest match wins; on equal length a boolean
/// literal beats a string, and a number beats a string.
pub open spec fn scan(s: Seq<u8>, q: int) -> (Result<Token, LexError>, int) {
    let c = s[q];
    if is_digit(c) {
        let d = digits_end(s, q);
        let a = alnum_end(s, q);
        if a > d {
            (Ok(Token::String), a)
        } else if d + 1 < s.len() && s[d] == 46 && is_digit(s[d + 1]) {
            (Ok(Token::Float), digits_end(s, d + 1))
        } else {
            (integer_token(s, q, d, false), d)
        }
    } else if c == 45 && q + 1 < s.len() && is_digit(s[q + 1]) {
        let d = digits_end(s, q + 1);
        (integer_token(s, q + 1, d, true), d)
    } else if is_alpha(c) {
        let a = alnum_end(s, q);
        let w = s.subrange(q, a);
        if w == word_true() {
            (Ok(Token::Bool(true)), a)
        } else if w == word_false() {
            (Ok(Token::Bool(false)), a)
        } else {
            (Ok(Token::String), a)
        }
    } else {
        (punctuation(c), q + 1)
    }
}

/// The next token at or after `p`: its result, where it starts and where
/// it ends; `None` once only whitespace is left.
pub open spec fn token_at(s: Seq<u8>, p: int) -> Option<(Result<Token, LexError>, int, int)> {
    let q = skip_ws(s, p);
    if q < 0 || q >= s.len() {
        None
    } else {
        let (t, e) = scan(s, q);
        Some((t, q, e))
    }
}

pub proof fn lemma_skip_ws_bounds(s: Seq<u8>, p: int)
    requires
        0 <= p <= s.len(),
    ensures
        p <= skip_ws(s, p) <= s.len(),
        skip_ws(s, p) < s.len() ==> !is_ws(s[skip_ws(s, p)]),
    decreases s.len() - p,
{
    if p < s.len() && is_ws(s[p]) {
        lemma_skip_ws_bounds(s, p + 1);
    }
}

pub proof fn lemma_digits_end_bounds(s: Seq<u8>, p: int)
    requires
        0 <= p <= s.len(),
    ensures
        p <= digits_end(s, p) <= s.len(),
        forall|i: int| p <= i < digits_end(s, p) ==> is_digit(s[i]),
    decreases s.len() - p,
{
    if p < s.len() && is_digit(s[p]) {
        lemma_digits_end_bounds(s, p + 1);
    }
}

pub proof fn lemma_alnum_end_bounds(s: Seq<u8>, p: int)
    requires
        0 <= p <= s.len(),
    ensures
        p <= alnum_end(s, p) <= s.len(),
    decreases s.len() - p,
{
    if p < s.len() && is_alnum(s[p]) {
        lemma_alnum_end_bounds(s, p + 1);
    }
}

/// Every token occupies at least one byte, inside the input.
pub proof fn lemma_token_at_bounds(s: Seq<u8>, p: int)
    requires
        0 <= p <= s.len(),
    ensures
        match token_at(s, p) {
            None => skip_ws(s, p) == s.len(),
            Some((t, st, en)) => p <= st < en <= s.len(),
        },
{
    lemma_skip_ws_bounds(s, p);
    let q = skip_ws(s, p);
    if q < s.len() {
        lemma_digits_end_bounds(s, q);
        lemma_alnum_end_bounds(s, q);
        let d = digits_end(s, q);
        if d + 1 < s.len() {
            lemma_digits_end_bounds(s, d + 1);
        }
        if q + 1 <= s.len() {
            lemma_digits_end_bounds(s, q + 1);
            lemma_alnum_end_bounds(s, q + 1);
        }
    }
}

proof fn lemma_digits_value_grows(s: Seq<u8>, q: int, i: int, d: int)
    requires
        0 <= q <= i <= d <= s.len(),
        forall|k: int| q <= k < d ==> is_digit(s[k]),
    ensures
        digits_value(s.subrange(q, d)) >= digits_value(s.subrange(q, i)) >= 0,
    decreases d - q,
{
    if d > q {
        assert(s.subrange(q, d).drop_last() =~= s.subrange(q, d - 1));
        if i < d {
            lemma_digits_value_grows(s, q, i, d - 1);
        } else {
            lemma_digits_value_grows(s, q, i - 1, d - 1);
        }
    }
}

/// A cursor over a request buffer.
pub struct Lexer {
    source: Vec<u8>,
    pos: usize,
    start: usize,
    end: usize,
}

impl Lexer {
    pub closed spec fn source_view(&self) -> Seq<u8> {
        self.source@
    }

    pub closed spec fn position(&self) -> int {
        self.pos as int
    }

    pub closed spec fn span_view(&self) -> (usize, usize) {
        (self.start, self.end)
    }

    pub closed spec fn wf(&self) -> bool {
        self.start <= self.end <= self.pos <= self.source@.len()
    }

    pub proof fn lemma_wf_bounds(&self)
        requires
            self.wf(),
        ensures
            0 <= self.position() <= self.source_view().len(),
            self.span_view().0 <= self.span_view().1 <= self.position(),
    {
    }

    /// A lexer at the start of `source`, with an empty span.
    pub fn new(source: &str) -> (r: Lexer)
        ensures
            r.wf(),
            r.source_view() == source.spec_bytes(),
            r.position() == 0,
            r.span_view() == (0usize, 0usize),
    {
        let bytes = source.as_bytes();
        let v = vstd::slice::slice_to_vec(bytes);
        Lexer { source: v, pos: 0, start: 0, end: 0 }
    }

    /// The span of the token returned last: `(0, 0)` before the first.
    pub fn span(&self) -> (r: (usize, usize))
        ensures
            r == self.span_view(),
    {
        (self.start, self.end)
    }

    /// The bytes of the token returned last.
    pub fn slice(&self) -> (r: Vec<u8>)
        requires
            self.wf(),
        ensures
            r@ == self.source_view().subrange(self.span_view().0 as int, self.span_view().1 as int),
    {
        let mut out: Vec<u8> = Vec::new();
        let mut i: usize = self.start;
        while i < self.end
            invariant
                self.wf(),
                self.start <= i <= self.end,
                out@ == self.source@.subrange(self.start as int, i as int),
            decreases self.end - i,
        {
            out.push(self.source[i]);
            i = i + 1;
            assert(out@ =~= self.source@.subrange(self.start as int, i as int));
        }
        out
    }

    fn skip_whitespace(&self, p: usize) -> (r: usize)
        requires
            self.wf(),
            p <= self.source@.len(),
        ensures
            r == skip_ws(self.source@, p as int),
    {
        let mut i: usize = p;
        while i < self.source.len() && (self.source[i] == 32 || self.source[i] == 9
            || self.source[i] == 10 || self.source[i] == 13)
            invariant
                p <= i <= self.source@.len(),
                skip_ws(self.source@, i as int) == skip_ws(self.source@, p as int),
            decreases self.source@.len() - i,
        {
            i = i + 1;
        }
        i
    }

    fn digits_from(&self, p: usize) -> (r: usize)
        requires
            p <= self.source@.len(),
        ensures
            r == digits_end(self.source@, p as int),
    {
        let mut i: usize = p;
        while i < self.source.len() && 48 <= self.source[i] && self.source[i] <= 57
            invariant
                p <= i <= self.source@.len(),
                digits_end(self.source@, i as int) == digits_end(self.source@, p as int),
            decreases self.source@.len() - i,
        {
            i = i + 1;
        }
        i
    }

    fn alnum_from(&self, p: usize) -> (r: usize)
        requires
            p <= self.source@.len(),
        ensures
            r == alnum_end(self.source@, p as int),
    {
        let mut i: usize = p;
        while i < self.source.len() && ((48 <= self.source[i] && self.source[i] <= 57) || (65
            <= self.source[i] && self.source[i] <= 90) || (97 <= self.source[i]
            && self.source[i] <= 122))
            invariant
                p <= i <= self.source@.len(),
                alnum_end(self.source@, i as int) == alnum_end(self.source@, p as int),
            decreases self.source@.len() - i,
        {
            i = i + 1;
        }
        i
    }

    fn integer(&self, q: usize, d: usize, negative: bool) -> (r: Result<Token, LexError>)
        requires
            q <= d <= self.source@.len(),
            forall|k: int| q <= k < d ==> is_digit(self.source@[k]),
        ensures
            r == integer_token(self.source@, q as int, d as int, negative),
    {
        let ghost s = self.source@;
        let limit: u128 = 9223372036854775808;
        let mut acc: u128 = 0;
        let mut i: usize = q;
        while i < d
            invariant
                q <= i <= d <= s.len(),
                s == self.source@,
                forall|k: int| q <= k < d ==> is_digit(s[k]),
                acc as int == digits_value(s.subrange(q as int, i as int)),
                acc <= limit,
                limit == 9223372036854775808u128,
            decreases d - i,
        {
            let digit = (self.source[i] - 48) as u128;
            assert(s.subrange(q as int, i + 1).drop_last() =~= s.subrange(q as int, i as int));
            let next = acc * 10 + digit;
            if next > limit {
                proof {
                    lemma_digits_value_grows(s, q as int, i + 1, d as int);
                }
                return Err(LexError);
            }
            acc = next;
            i = i + 1;
        }
        if negative {
            Ok(Token::Integer((0i128 - acc as i128) as i64))
        } else if acc <= 9223372036854775807 {
            Ok(Token::Integer(acc as i64))
        } else {
            Err(LexError)
        }
    }

    fn punct(c: u8) -> (r: Result<Token, LexError>)
        ensures
            r == punctuation(c),
    {
        if c == 43 {
            Ok(Token::Plus)
        } else if c == 45 {
            Ok(Token::Minus)
        } else if c == 58 {
            Ok(Token::Colon)
        } else if c == 95 {
            Ok(Token::Underscore)
        } else if c == 35 {
            Ok(Token::Hash)
        } else if c == 44 {
            Ok(Token::Comma)
        } else if c == 42 {
            Ok(Token::Star)
        } else if c == 91 {
            Ok(Token::LeftBracket)
        } else if c == 93 {
            Ok(Token::RightBracket)
        } else {
            Err(LexError)
        }
    }

    fn is_word(&self, q: usize, a: usize, w: &Vec<u8>) -> (r: bool)
        requires
            q <= a <= self.source@.len(),
        ensures
            r == (self.source@.subrange(q as int, a as int) == w@),
    {
        if a - q != w.len() {
            proof {
                assert(self.source@.subrange(q as int, a as int).len() != w@.len());
            }
            return false;
        }
        let mut k: usize = 0;
        while k < w.len()
            invariant
                q <= a <= self.source@.len(),
                a - q == w@.len(),
                k <= w@.len(),
                forall|j: int| 0 <= j < k ==> self.source@[q + j] == w@[j],
            decreases w@.len() - k,
        {
            if self.source[q + k] != w[k] {
                proof {
                    assert(self.source@.subrange(q as int, a as int)[k as int] != w@[k as int]);
                }
                return false;
            }
            k = k + 1;
        }
        assert(self.source@.subrange(q as int, a as int) =~= w@);
        true
    }

    /// Advances past the next token and returns it; `None` once only
    /// whitespace is left. The span then covers the token returned.
    pub fn next(&mut self) -> (r: Option<Result<Token, LexError>>)
        requires
            old(self).wf(),
        ensures
            final(self).wf(),
            final(self).source_view() == old(self).source_view(),
            match token_at(old(self).source_view(), old(self).position()) {
                None => r is None && final(self).position() == old(self).source_view().len(),
                Some((t, st, en)) => r == Some(t) && final(self).position() == en
                    && final(self).span_view().0 as int == st && final(self).span_view().1 as int == en,
            },
    {
        let ghost s = self.source@;
        proof {
            lemma_token_at_bounds(s, self.pos as int);
            lemma_skip_ws_bounds(s, self.pos as int);
        }
        let q = self.skip_whitespace(self.pos);
        if q >= self.source.len() {
            self.pos = q;
            return None;
        }
        let c = self.source[q];
        proof {
            lemma_digits_end_bounds(s, q as int);
            lemma_alnum_end_bounds(s, q as int);
        }
        let (t, e) = if 48 <= c && c <= 57 {
            let d = self.digits_from(q);
            let a = self.alnum_from(q);
            if a > d {
                (Ok(Token::String), a)
            } else if d < self.source.len() && d + 1 < self.source.len() && self.source[d] == 46 && 48 <= self.source[d + 1]
                && self.source[d + 1] <= 57 {
                proof {
                    lemma_digits_end_bounds(s, d + 1);
                }
                (Ok(Token::Float), self.digits_from(d + 1))
            } else {
                (self.integer(q, d, false), d)
            }
        } else if c == 45 && q + 1 < self.source.len() && 48 <= self.source[q + 1] && self.source[q
            + 1] <= 57 {
            proof {
                lemma_digits_end_bounds(s, q + 1);
            }
            let d = self.digits_from(q + 1);
            (self.integer(q + 1, d, true), d)
        } else if (65 <= c && c <= 90) || (97 <= c && c <= 122) {
            let a = self.alnum_from(q);
            let word_t: Vec<u8> = vec![116, 114, 117, 101];
            let word_f: Vec<u8> = vec![102, 97, 108, 115, 101];
            assert(word_t@ =~= word_true());
            assert(word_f@ =~= word_false());
            if self.is_word(q, a, &word_t) {
                (Ok(Token::Bool(true)), a)
            } else if self.is_word(q, a, &word_f) {
                (Ok(Token::Bool(false)), a)
            } else {
                (Ok(Token::String), a)
            }
        } else {
            (Self::punct(c), q + 1)
        };
        self.start = q;
        self.end = e;
        self.pos = e;
        Some(t)
    }
}

} // verus!
