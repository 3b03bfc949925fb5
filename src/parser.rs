//! Recursive-descent parser for arrays whose elements all share one kind.
use vstd::prelude::*;
use crate::lexer::{
    Lexer, Token, token_at, lemma_token_at_bounds, is_alpha, is_digit, is_ws, skip_ws, alnum_end,
    digits_end, scan, lemma_digits_end_bounds, lemma_alnum_end_bounds,
};

verus! {

broadcast use vstd::std_specs::vec::axiom_vec_decreases_to_view;

/// The kind of a value, without its payload.
#[derive(Clone, Copy, Debug, PartialEq, Eq, Structural)]
pub enum ValueKind {
    Null,
    Bool,
    Integer,
    Float,
    String,
    Array,
}

/// A parsed value. Floating-point literals and strings keep the bytes
/// that spelled them.
#[derive(Debug, PartialEq)]
pub enum Value {
    Null,
    Bool(bool),
    Integer(i64),
    Float(Vec<u8>),
    String(Vec<u8>),
    Array(Vec<Value>),
}

/// The mathematical model of a `Value`.
pub enum ValueModel {
    Null,
    Bool(bool),
    Integer(i64),
    Float(Seq<u8>),
    Str(Seq<u8>),
    Array(Seq<ValueModel>),
}

impl ValueModel {
    pub open spec fn kind(self) -> ValueKind {
        match self {
            ValueModel::Null => ValueKind::Null,
            ValueModel::Bool(_) => ValueKind::Bool,
            ValueModel::Integer(_) => ValueKind::Integer,
            ValueModel::Float(_) => ValueKind::Float,
            ValueModel::Str(_) => ValueKind::String,
            ValueModel::Array(_) => ValueKind::Array,
        }
    }
}

impl Value {
    pub open spec fn model(self) -> ValueModel
        decreases self,
    {
        match self {
            Value::Null => ValueModel::Null,
            Value::Bool(b) => ValueModel::Bool(b),
            Value::Integer(i) => ValueModel::Integer(i),
            Value::Float(t) => ValueModel::Float(t@),
            Value::String(t) => ValueModel::Str(t@),
            Value::Array(items) => ValueModel::Array(models(items@)),
        }
    }

    pub fn kind(&self) -> (k: ValueKind)
        ensures
            k == self.model().kind(),
    {
        match self {
            Value::Null => ValueKind::Null,
            Value::Bool(_) => ValueKind::Bool,
            Value::Integer(_) => ValueKind::Integer,
            Value::Float(_) => ValueKind::Float,
            Value::String(_) => ValueKind::String,
            Value::Array(_) => ValueKind::Array,
        }
    }
}

impl Value {
    /// A deep copy.
    pub fn duplicate(&self) -> (r: Value)
        ensures
            r.model() == self.model(),
        decreases self,
    {
        match self {
            Value::Null => Value::Null,
            Value::Bool(b) => Value::Bool(*b),
            Value::Integer(i) => Value::Integer(*i),
            Value::Float(t) => Value::Float(t.clone()),
            Value::String(t) => Value::String(t.clone()),
            Value::Array(items) => {
                let mut out: Vec<Value> = Vec::new();
                let mut i: usize = 0;
                while i < items.len()
                    invariant
                        *self == Value::Array(*items),
                        i <= items@.len(),
                        models(out@) == models(items@.subrange(0, i as int)),
                    decreases items@.len() - i,
                {
                    proof {
                        vstd::std_specs::vec::axiom_vec_index_decreases(*items, i as int);
                        assert(decreases_to!(*self => (*self)->Array_0));
                        assert(decreases_to!(*self => items[i as int]));
                    }
                    let item = items[i].duplicate();
                    proof {
                        lemma_models_push(out@, item);
                        lemma_models_push(items@.subrange(0, i as int), items@[i as int]);
                        assert(items@.subrange(0, i as int).push(items@[i as int]) =~= items@.subrange(0, i + 1));
                    }
                    out.push(item);
                    i = i + 1;
                }
                assert(items@.subrange(0, items@.len() as int) =~= items@);
                Value::Array(out)
            },
        }
    }
}

impl Clone for Value {
    fn clone(&self) -> Value {
        self.duplicate()
    }
}

/// The models of a sequence of values, element by element.
pub open spec fn models(s: Seq<Value>) -> Seq<ValueModel>
    decreases s,
{
    if s.len() == 0 {
        Seq::empty()
    } else {
        models(s.drop_last()).push(s.last().model())
    }
}

/// What went wrong while parsing an array.
#[derive(Clone, Copy, Debug, PartialEq, Eq, Structural)]
pub enum ParseErrorKind {
    /// A value follows another with no comma between, or `]` follows a comma.
    ExpectedValueAfterComma,
    /// An element's kind differs from the kind the array was opened with.
    TypeMismatch(ValueKind),
    /// A comma where a value was due.
    UnexpectedComma,
    /// A token that cannot stand inside an array, or input that is no token.
    UnexpectedToken(Offending),
    /// The input ended before the closing bracket.
    UnclosedArray,
}

/// What stood where an array element or separator was due.
#[derive(Clone, Copy, Debug, PartialEq, Eq, Structural)]
pub enum Offending {
    /// A token of the grammar that has no place inside an array.
    Token(Token),
    /// Input that matches no lexical rule.
    Unrecognized,
}

/// A parse error with the byte span of the array in which it arose.
#[derive(Clone, Copy, Debug, PartialEq, Eq, Structural)]
pub struct SimpleError {
    pub kind: ParseErrorKind,
    pub start: usize,
    pub end: usize,
}

pub open spec fn error_at(kind: ParseErrorKind, span: (usize, usize)) -> SimpleError {
    SimpleError { kind, start: span.0, end: span.1 }
}

/// The element value that a scalar token spanning `[st, en)` stands for.
pub open spec fn scalar_model(s: Seq<u8>, t: Token, st: int, en: int) -> Option<ValueModel> {
    match t {
        Token::Integer(i) => Some(ValueModel::Integer(i)),
        Token::Float => Some(ValueModel::Float(s.subrange(st, en))),
        Token::String => Some(ValueModel::Str(s.subrange(st, en))),
        Token::Bool(b) => Some(ValueModel::Bool(b)),
        _ => None,
    }
}

/// Appends `v` to the elements gathered so far, if a value is due and its
/// kind agrees with the kind that the first element fixed.
pub open spec fn admit_element(
    span: (usize, usize),
    items: Seq<ValueModel>,
    awaiting: bool,
    expected: Option<ValueKind>,
    v: ValueModel,
) -> Result<(Seq<ValueModel>, Option<ValueKind>), SimpleError> {
    if !awaiting {
        Err(error_at(ParseErrorKind::ExpectedValueAfterComma, span))
    } else {
        match expected {
            Some(k) => if k != v.kind() {
                Err(error_at(ParseErrorKind::TypeMismatch(k), span))
            } else {
                Ok((items.push(v), expected))
            },
            None => Ok((items.push(v), Some(v.kind()))),
        }
    }
}

/// The outcome of parsing the rest of an array from byte `p` of `s`, in the
/// state given by the elements read so far, whether a value is due, and
/// the kind fixed by the first element: the result, and where the lexer
/// stops. `span` is the span of the array's opening bracket.
///
/// The two range tests on token and nested-array ends only make the
/// recursion's measure visible; `lemma_array_from_in_bounds` shows that
/// neither ever fails.
pub open spec fn array_from(
    s: Seq<u8>,
    p: int,
    span: (usize, usize),
    items: Seq<ValueModel>,
    awaiting: bool,
    expected: Option<ValueKind>,
) -> (Result<ValueModel, SimpleError>, int)
    decreases s.len() - p,
{
    match token_at(s, p) {
        None => (Err(error_at(ParseErrorKind::UnclosedArray, span)), s.len() as int),
        Some((tok, st, en)) => if !(p < en <= s.len()) {
            (Err(error_at(ParseErrorKind::UnclosedArray, span)), en)
        } else {
            match tok {
                Ok(Token::LeftBracket) => {
                    let (r, e2) = array_from(s, en, (st as usize, en as usize), Seq::empty(), true, None);
                    match r {
                        Err(x) => (Err(x), e2),
                        Ok(v) => match admit_element(span, items, awaiting, expected, v) {
                            Err(x) => (Err(x), e2),
                            Ok((items2, expected2)) => if p < e2 <= s.len() {
                                array_from(s, e2, span, items2, false, expected2)
                            } else {
                                (Err(error_at(ParseErrorKind::UnclosedArray, span)), e2)
                            },
                        },
                    }
                },
                Ok(Token::RightBracket) => if awaiting && items.len() > 0 {
                    (Err(error_at(ParseErrorKind::ExpectedValueAfterComma, span)), en)
                } else {
                    (Ok(ValueModel::Array(items)), en)
                },
                Ok(Token::Comma) => if awaiting {
                    (Err(error_at(ParseErrorKind::UnexpectedComma, span)), en)
                } else {
                    array_from(s, en, span, items, true, expected)
                },
                Ok(t) => match scalar_model(s, t, st, en) {
                    Some(v) => match admit_element(span, items, awaiting, expected, v) {
                        Err(x) => (Err(x), en),
                        Ok((items2, expected2)) => array_from(s, en, span, items2, false, expected2),
                    },
                    None => (Err(error_at(ParseErrorKind::UnexpectedToken(Offending::Token(t)), span)), en),
                },
                Err(_) => (Err(error_at(ParseErrorKind::UnexpectedToken(Offending::Unrecognized), span)), en),
            }
        }
    }
}

/// Parsing from `p` stops at or after `p` and within the input, and the two
/// range tests in `array_from` hold on every path, so their fallback
/// results are never produced.
pub proof fn lemma_array_from_in_bounds(
    s: Seq<u8>,
    p: int,
    span: (usize, usize),
    items: Seq<ValueModel>,
    awaiting: bool,
    expected: Option<ValueKind>,
)
    requires
        0 <= p <= s.len(),
    ensures
        p <= array_from(s, p, span, items, awaiting, expected).1 <= s.len(),
        token_at(s, p) matches Some((tok, st, en)) ==> p < en <= s.len(),
        token_at(s, p) matches Some((Ok(Token::LeftBracket), st, en)) ==> ({
            let e2 = array_from(s, en, (st as usize, en as usize), Seq::empty(), true, None).1;
            p < e2 <= s.len()
        }),
    decreases s.len() - p,
{
    lemma_token_at_bounds(s, p);
    match token_at(s, p) {
        None => {},
        Some((tok, st, en)) => {
            match tok {
                Ok(Token::LeftBracket) => {
                    lemma_array_from_in_bounds(s, en, (st as usize, en as usize), Seq::empty(), true, None);
                    let (r, e2) = array_from(s, en, (st as usize, en as usize), Seq::empty(), true, None);
                    if let Ok(v) = r {
                        if let Ok((items2, expected2)) = admit_element(span, items, awaiting, expected, v) {
                            lemma_array_from_in_bounds(s, e2, span, items2, false, expected2);
                        }
                    }
                },
                Ok(Token::Comma) => {
                    if !awaiting {
                        lemma_array_from_in_bounds(s, en, span, items, true, expected);
                    }
                },
                Ok(Token::RightBracket) => {},
                Ok(t) => {
                    if let Some(v) = scalar_model(s, t, st, en) {
                        if let Ok((items2, expected2)) = admit_element(span, items, awaiting, expected, v) {
                            lemma_array_from_in_bounds(s, en, span, items2, false, expected2);
                        }
                    }
                },
                Err(_) => {},
            }
        },
    }
}

/// The outcome of parsing an array whose opening bracket, at `span`, was
/// consumed just before byte `p`.
pub open spec fn parse_array_spec(s: Seq<u8>, p: int, span: (usize, usize)) -> (Result<ValueModel, SimpleError>, int) {
    array_from(s, p, span, Seq::empty(), true, None)
}

proof fn lemma_scalar_step(
    s: Seq<u8>,
    p: int,
    span: (usize, usize),
    items: Seq<ValueModel>,
    awaiting: bool,
    expected: Option<ValueKind>,
    t: Token,
    st: int,
    en: int,
    v: ValueModel,
    items2: Seq<ValueModel>,
    expected2: Option<ValueKind>,
)
    requires
        token_at(s, p) == Some((Ok::<Token, crate::lexer::LexError>(t), st, en)),
        p < en <= s.len(),
        scalar_model(s, t, st, en) == Some(v),
        admit_element(span, items, awaiting, expected, v) == Ok::<(Seq<ValueModel>, Option<ValueKind>), SimpleError>((items2, expected2)),
    ensures
        array_from(s, p, span, items, awaiting, expected) == array_from(s, en, span, items2, false, expected2),
{
}

proof fn lemma_nested_step(
    s: Seq<u8>,
    p: int,
    span: (usize, usize),
    items: Seq<ValueModel>,
    awaiting: bool,
    expected: Option<ValueKind>,
    st: int,
    en: int,
    v: ValueModel,
    e2: int,
    items2: Seq<ValueModel>,
    expected2: Option<ValueKind>,
)
    requires
        token_at(s, p) == Some((Ok::<Token, crate::lexer::LexError>(Token::LeftBracket), st, en)),
        p < en <= e2 <= s.len(),
        parse_array_spec(s, en, (st as usize, en as usize)) == (Ok::<ValueModel, SimpleError>(v), e2),
        admit_element(span, items, awaiting, expected, v) == Ok::<(Seq<ValueModel>, Option<ValueKind>), SimpleError>((items2, expected2)),
    ensures
        array_from(s, p, span, items, awaiting, expected) == array_from(s, e2, span, items2, false, expected2),
{
}

proof fn lemma_models_push(s: Seq<Value>, v: Value)
    ensures
        models(s.push(v)) == models(s).push(v.model()),
{
    assert(s.push(v).drop_last() =~= s);
}

/// Parses the rest of an array; the lexer stands just after its opening
/// bracket, whose span it reports. Returns the whole array, or the first
/// error met, located at that span.
pub fn parse_array(lexer: &mut Lexer) -> (r: Result<Value, SimpleError>)
    requires
        old(lexer).wf(),
    ensures
        final(lexer).wf(),
        final(lexer).source_view() == old(lexer).source_view(),
        final(lexer).position() >= old(lexer).position(),
        ({
            let (res, end) = parse_array_spec(
                old(lexer).source_view(),
                old(lexer).position(),
                old(lexer).span_view(),
            );
            &&& final(lexer).position() == end
            &&& match r {
                Ok(v) => res == Ok::<ValueModel, SimpleError>(v.model()),
                Err(e) => res == Err::<ValueModel, SimpleError>(e),
            }
        }),
    decreases old(lexer).source_view().len() - old(lexer).position(),
{
    let ghost s = lexer.source_view();
    let ghost p0 = lexer.position();
    let span = lexer.span();
    proof {
        lexer.lemma_wf_bounds();
    }
    let mut array: Vec<Value> = Vec::new();
    let mut expected: Option<ValueKind> = None;
    let mut awaiting = true;
    loop
        invariant
            lexer.wf(),
            lexer.source_view() == s,
            span == old(lexer).span_view(),
            p0 == old(lexer).position(),
            s == old(lexer).source_view(),
            p0 <= lexer.position() <= s.len(),
            array_from(s, lexer.position(), span, models(array@), awaiting, expected)
                == parse_array_spec(s, p0, span),
        decreases s.len() - lexer.position(),
    {
        let ghost p = lexer.position();
        let ghost items0 = models(array@);
        let ghost awaiting0 = awaiting;
        let ghost expected0 = expected;
        proof {
            lexer.lemma_wf_bounds();
            lemma_token_at_bounds(s, p);
        }
        let next = lexer.next();
        proof {
            lexer.lemma_wf_bounds();
        }
        match next {
            None => {
                return Err(SimpleError { kind: ParseErrorKind::UnclosedArray, start: span.0, end: span.1 });
            },
            Some(tok) => {
                let ghost st = lexer.span_view().0 as int;
                let ghost en = lexer.position();
                let ghost mut nested_end: int = -1;
                let candidate: Option<Value> = match tok {
                    Ok(Token::LeftBracket) => {
                        let nested = parse_array(lexer);
                        proof {
                            lexer.lemma_wf_bounds();
                            nested_end = lexer.position();
                        }
                        match nested {
                            Err(e) => {
                                return Err(e);
                            },
                            Ok(v) => Some(v),
                        }
                    },
                    Ok(Token::RightBracket) => {
                        if awaiting && array.len() > 0 {
                            return Err(SimpleError {
                                kind: ParseErrorKind::ExpectedValueAfterComma,
                                start: span.0,
                                end: span.1,
                            });
                        }
                        return Ok(Value::Array(array));
                    },
                    Ok(Token::Comma) => {
                        if awaiting {
                            return Err(SimpleError { kind: ParseErrorKind::UnexpectedComma, start: span.0, end: span.1 });
                        }
                        None
                    },
                    Ok(Token::Integer(i)) => Some(Value::Integer(i)),
                    Ok(Token::Float) => Some(Value::Float(lexer.slice())),
                    Ok(Token::String) => Some(Value::String(lexer.slice())),
                    Ok(Token::Bool(b)) => Some(Value::Bool(b)),
                    Ok(t) => {
                        return Err(SimpleError {
                            kind: ParseErrorKind::UnexpectedToken(Offending::Token(t)),
                            start: span.0,
                            end: span.1,
                        });
                    },
                    Err(_) => {
                        return Err(SimpleError {
                            kind: ParseErrorKind::UnexpectedToken(Offending::Unrecognized),
                            start: span.0,
                            end: span.1,
                        });
                    },
                };
                match candidate {
                    None => {
                        awaiting = true;
                    },
                    Some(v) => {
                        if !awaiting {
                            return Err(SimpleError {
                                kind: ParseErrorKind::ExpectedValueAfterComma,
                                start: span.0,
                                end: span.1,
                            });
                        }
                        let k = v.kind();
                        match expected {
                            Some(e) => {
                                if e != k {
                                    return Err(SimpleError {
                                        kind: ParseErrorKind::TypeMismatch(e),
                                        start: span.0,
                                        end: span.1,
                                    });
                                }
                            },
                            None => {
                                expected = Some(k);
                            },
                        }
                        proof {
                            lemma_models_push(array@, v);
                        }
                        array.push(v);
                        awaiting = false;
                        proof {
                            if nested_end >= 0 {
                                lemma_nested_step(s, p, span, items0, awaiting0, expected0, st, en,
                                    v.model(), nested_end, models(array@), expected);
                            } else {
                                lemma_scalar_step(s, p, span, items0, awaiting0, expected0, tok->Ok_0,
                                    st, en, v.model(), models(array@), expected);
                            }
                        }
                    },
                }
            },
        }
    }
}

/// The text that follows the first element of a written array: a comma and
/// an element's text for each further element, then the closing bracket.
pub open spec fn elements_tail(ws: Seq<Seq<u8>>) -> Seq<u8>
    decreases ws.len(),
{
    if ws.len() == 0 {
        seq![93u8]
    } else {
        seq![44u8] + ws[0] + elements_tail(ws.drop_first())
    }
}

/// Element texts written as the body of an array, its opening bracket left
/// out.
pub open spec fn elements_text(ws: Seq<Seq<u8>>) -> Seq<u8> {
    if ws.len() == 0 {
        seq![93u8]
    } else {
        ws[0] + elements_tail(ws.drop_first())
    }
}

/// The scalar that `w` spells when a separator follows it, if the whole of
/// `w` is a single integer, float, string or boolean token.
pub open spec fn literal(w: Seq<u8>) -> Option<ValueModel> {
    let u = w.push(44u8);
    if w.len() == 0 || is_ws(w[0]) {
        None
    } else {
        let (t, e) = scan(u, 0);
        if e != w.len() {
            None
        } else {
            match t {
                Ok(tok) => scalar_model(u, tok, 0, e),
                Err(_) => None,
            }
        }
    }
}

/// The element texts each spell a scalar, all of one kind.
pub open spec fn flat_literals(ws: Seq<Seq<u8>>) -> bool {
    &&& forall|i: int| 0 <= i < ws.len() ==> (#[trigger] literal(ws[i])) is Some
    &&& forall|i: int|
        0 <= i < ws.len() ==> (#[trigger] literal(ws[i])).unwrap().kind() == literal(ws[0]).unwrap().kind()
}

pub open spec fn literal_models(ws: Seq<Seq<u8>>) -> Seq<ValueModel> {
    ws.map_values(|w: Seq<u8>| literal(w).unwrap())
}

/// `w` stands at `p` in `s`, and a comma or closing bracket follows it.
pub open spec fn placed(s: Seq<u8>, p: int, w: Seq<u8>) -> bool {
    &&& 0 <= p
    &&& p + w.len() < s.len()
    &&& s.subrange(p, p + w.len()) == w
    &&& (s[p + w.len()] == 44 || s[p + w.len()] == 93)
}

proof fn lemma_placed_at(s: Seq<u8>, p: int, w: Seq<u8>, i: int)
    requires
        placed(s, p, w),
        0 <= i < w.len(),
    ensures
        s[p + i] == w[i],
{
    assert(s[p + i] == s.subrange(p, p + w.len())[i]);
}

proof fn lemma_digits_end_placed(s: Seq<u8>, p: int, w: Seq<u8>, i: int)
    requires
        placed(s, p, w),
        placed(w.push(44u8), 0, w),
        0 <= i <= w.len(),
    ensures
        digits_end(s, p + i) == p + digits_end(w.push(44u8), i),
        digits_end(w.push(44u8), i) <= w.len(),
    decreases w.len() - i,
{
    let u = w.push(44u8);
    if i < w.len() {
        lemma_placed_at(s, p, w, i);
        assert(u[i] == w[i]);
        lemma_digits_end_placed(s, p, w, i + 1);
    }
}

proof fn lemma_alnum_end_placed(s: Seq<u8>, p: int, w: Seq<u8>, i: int)
    requires
        placed(s, p, w),
        placed(w.push(44u8), 0, w),
        0 <= i <= w.len(),
    ensures
        alnum_end(s, p + i) == p + alnum_end(w.push(44u8), i),
        alnum_end(w.push(44u8), i) <= w.len(),
    decreases w.len() - i,
{
    let u = w.push(44u8);
    if i < w.len() {
        lemma_placed_at(s, p, w, i);
        assert(u[i] == w[i]);
        lemma_alnum_end_placed(s, p, w, i + 1);
    }
}

proof fn lemma_subrange_placed(s: Seq<u8>, p: int, w: Seq<u8>, a: int, b: int)
    requires
        placed(s, p, w),
        0 <= a <= b <= w.len(),
    ensures
        s.subrange(p + a, p + b) == w.push(44u8).subrange(a, b),
{
    assert forall|k: int| 0 <= k < b - a implies s.subrange(p + a, p + b)[k] == w.push(44u8).subrange(
        a,
        b,
    )[k] by {
        lemma_placed_at(s, p, w, a + k);
    }
    assert(s.subrange(p + a, p + b) =~= w.push(44u8).subrange(a, b));
}

/// A scalar literal reads the same wherever it stands before a separator.
proof fn lemma_literal_placed(s: Seq<u8>, p: int, w: Seq<u8>)
    requires
        placed(s, p, w),
        literal(w) is Some,
    ensures
        token_at(s, p) matches Some((Ok(t), st, en)) && st == p && en == p + w.len()
            && scalar_model(s, t, st, en) == literal(w),
{
    let u = w.push(44u8);
    assert(u.subrange(0, w.len() as int) =~= w);
    assert(u[w.len() as int] == 44);
    assert(placed(u, 0, w));
    lemma_placed_at(s, p, w, 0);
    assert(u[0] == w[0]);
    assert(skip_ws(s, p) == p);
    lemma_digits_end_placed(s, p, w, 0);
    lemma_alnum_end_placed(s, p, w, 0);
    lemma_digits_end_bounds(u, 0);
    lemma_alnum_end_bounds(u, 0);
    lemma_digits_end_bounds(u, 1);
    let c = s[p];
    let n = w.len() as int;
    if is_digit(c) {
        let d = digits_end(u, 0);
        if d < n {
            lemma_placed_at(s, p, w, d);
            assert(u[d] == w[d]);
            if d + 1 < n {
                lemma_placed_at(s, p, w, d + 1);
                assert(u[d + 1] == w[d + 1]);
                lemma_digits_end_placed(s, p, w, d + 1);
            } else {
                assert(u[d + 1] == 44);
                lemma_digits_end_placed(s, p, w, d + 1);
            }
        }
        lemma_subrange_placed(s, p, w, 0, d);
    } else if c == 45 {
        if n > 1 {
            lemma_placed_at(s, p, w, 1);
            assert(u[1] == w[1]);
        } else {
            assert(u[1] == 44);
        }
        if n >= 1 {
            lemma_digits_end_placed(s, p, w, 1);
            let d = digits_end(u, 1);
            lemma_subrange_placed(s, p, w, 1, d);
        }
    } else if is_alpha(c) {
        let a = alnum_end(u, 0);
        lemma_subrange_placed(s, p, w, 0, a);
    }
    lemma_subrange_placed(s, p, w, 0, n);
}

proof fn lemma_elements_tail_first(ws: Seq<Seq<u8>>)
    ensures
        elements_tail(ws).len() > 0,
        elements_tail(ws)[0] == 44 || elements_tail(ws)[0] == 93,
{
}

proof fn lemma_elements_tail(
    s: Seq<u8>,
    p: int,
    span: (usize, usize),
    items: Seq<ValueModel>,
    k: ValueKind,
    ws: Seq<Seq<u8>>,
)
    requires
        0 <= p <= s.len(),
        forall|i: int| 0 <= i < ws.len() ==> (#[trigger] literal(ws[i])) is Some,
        forall|i: int| 0 <= i < ws.len() ==> (#[trigger] literal(ws[i])).unwrap().kind() == k,
        s.subrange(p, s.len() as int) == elements_tail(ws),
    ensures
        array_from(s, p, span, items, false, Some(k)) == (
            Ok::<ValueModel, SimpleError>(ValueModel::Array(items + literal_models(ws))),
            s.len() as int,
        ),
    decreases ws.len(),
{
    let t = s.subrange(p, s.len() as int);
    lemma_elements_tail_first(ws);
    assert(s[p] == t[0]);
    assert(!is_ws(s[p]));
    assert(skip_ws(s, p) == p);
    if ws.len() == 0 {
        assert(t.len() == 1);
        assert(token_at(s, p) == Some((Ok::<Token, crate::lexer::LexError>(Token::RightBracket), p, p + 1)));
        assert(items + literal_models(ws) =~= items);
    } else {
        let w = ws[0];
        let rest = ws.drop_first();
        assert(literal(w) is Some);
        let v = literal(w).unwrap();
        let q = p + 1 + w.len();
        assert(t =~= seq![44u8] + w + elements_tail(rest));
        lemma_elements_tail_first(rest);
        assert(s.subrange(p + 1, q) =~= w) by {
            assert forall|i: int| 0 <= i < w.len() implies s.subrange(p + 1, q)[i] == w[i] by {
                assert(s[p + 1 + i] == t[1 + i]);
            }
        }
        assert(s.subrange(q, s.len() as int) =~= elements_tail(rest)) by {
            assert forall|i: int| 0 <= i < elements_tail(rest).len() implies s.subrange(q, s.len() as int)[i]
                == elements_tail(rest)[i] by {
                assert(s[q + i] == t[1 + w.len() as int + i]);
            }
        }
        assert(s[q] == t[1 + w.len() as int]);
        lemma_literal_placed(s, p + 1, w);
        assert(token_at(s, p) == Some((Ok::<Token, crate::lexer::LexError>(Token::Comma), p, p + 1)));
        assert(array_from(s, p, span, items, false, Some(k)) == array_from(s, p + 1, span, items, true, Some(k)));
        assert(array_from(s, p + 1, span, items, true, Some(k)) == array_from(
            s, q, span, items.push(v), false, Some(k)));
        assert forall|i: int| 0 <= i < rest.len() implies (#[trigger] literal(rest[i])) is Some
            && literal(rest[i]).unwrap().kind() == k by {
            assert(rest[i] == ws[i + 1]);
        }
        lemma_elements_tail(s, q, span, items.push(v), k, rest);
        assert(items.push(v) + literal_models(rest) =~= items + literal_models(ws));
    }
}

/// Scalars of one kind written as an array, comma after comma and closed by
/// a bracket, parse back to the same scalars in the same order and number,
/// and the parse consumes the whole text.
pub proof fn lemma_flat_array_round_trip(ws: Seq<Seq<u8>>, span: (usize, usize))
    requires
        flat_literals(ws),
    ensures
        parse_array_spec(elements_text(ws), 0, span) == (
            Ok::<ValueModel, SimpleError>(ValueModel::Array(literal_models(ws))),
            elements_text(ws).len() as int,
        ),
{
    let s = elements_text(ws);
    if ws.len() == 0 {
        assert(!is_ws(s[0]));
        assert(skip_ws(s, 0) == 0);
        assert(literal_models(ws) =~= Seq::<ValueModel>::empty());
    } else {
        let w = ws[0];
        let rest = ws.drop_first();
        assert(literal(w) is Some);
        let v = literal(w).unwrap();
        let k = v.kind();
        lemma_elements_tail_first(rest);
        assert(s.subrange(0, w.len() as int) =~= w);
        assert(s.subrange(w.len() as int, s.len() as int) =~= elements_tail(rest));
        assert(s[w.len() as int] == elements_tail(rest)[0]);
        lemma_literal_placed(s, 0, w);
        assert forall|i: int| 0 <= i < rest.len() implies (#[trigger] literal(rest[i])) is Some
            && literal(rest[i]).unwrap().kind() == k by {
            assert(rest[i] == ws[i + 1]);
            assert(literal(ws[i + 1]) is Some);
        }
        assert(Seq::<ValueModel>::empty().push(v) =~= seq![v]);
        lemma_elements_tail(s, w.len() as int, span, seq![v], k, rest);
        assert(seq![v] + literal_models(rest) =~= literal_models(ws));
    }
}

} // verus!
