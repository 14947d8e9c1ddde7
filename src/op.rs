//! Operations, and the grammar that maps a token to one. Assignment and
//! reference patterns must span the whole token: `=name` and `$name` assign and
//! read, while `x=name` means nothing.
use vstd::prelude::*;

use crate::arith::fits_isize;

verus! {

/// One executable action of the calculator.
pub enum Op {
    Add,
    Clear,
    Div,
    Double,
    Exp,
    Fact,
    Inv,
    Mul,
    Noop,
    Prod,
    Push(isize),
    Square,
    Sub,
    Sum,
    Swap,
    VarInit(String),
    VarRef(String),
}

/// What an `Op` means, with variable names as character sequences.
pub enum OpModel {
    Add,
    Clear,
    Div,
    Double,
    Exp,
    Fact,
    Inv,
    Mul,
    Noop,
    Prod,
    Push(isize),
    Square,
    Sub,
    Sum,
    Swap,
    VarInit(Seq<char>),
    VarRef(Seq<char>),
}

impl View for Op {
    type V = OpModel;

    open spec fn view(&self) -> OpModel {
        match self {
            Op::Add => OpModel::Add,
            Op::Clear => OpModel::Clear,
            Op::Div => OpModel::Div,
            Op::Double => OpModel::Double,
            Op::Exp => OpModel::Exp,
            Op::Fact => OpModel::Fact,
            Op::Inv => OpModel::Inv,
            Op::Mul => OpModel::Mul,
            Op::Noop => OpModel::Noop,
            Op::Prod => OpModel::Prod,
            Op::Push(v) => OpModel::Push(*v),
            Op::Square => OpModel::Square,
            Op::Sub => OpModel::Sub,
            Op::Sum => OpModel::Sum,
            Op::Swap => OpModel::Swap,
            Op::VarInit(name) => OpModel::VarInit(name@),
            Op::VarRef(name) => OpModel::VarRef(name@),
        }
    }
}

pub open spec fn is_digit(c: char) -> bool {
    '0' <= c <= '9'
}

pub open spec fn is_alpha(c: char) -> bool {
    ('a' <= c <= 'z') || ('A' <= c <= 'Z')
}

/// A letter followed by letters and digits.
pub open spec fn is_ident(s: Seq<char>) -> bool {
    &&& s.len() >= 1
    &&& is_alpha(s[0])
    &&& forall|i: int| 1 <= i < s.len() ==> is_alpha(#[trigger] s[i]) || is_digit(s[i])
}

/// The whole token is `sigil` followed by an identifier.
pub open spec fn is_sigil_ident(t: Seq<char>, sigil: char) -> bool {
    t.len() >= 2 && t[0] == sigil && is_ident(t.drop_first())
}

/// One or more decimal digits.
pub open spec fn all_digits(s: Seq<char>) -> bool {
    s.len() >= 1 && forall|i: int| 0 <= i < s.len() ==> is_digit(#[trigger] s[i])
}

pub open spec fn digit_value(c: char) -> int {
    c as int - '0' as int
}

/// The number that a sequence of decimal digits writes.
pub open spec fn digits_value(s: Seq<char>) -> int
    decreases s.len(),
{
    if s.len() == 0 {
        0
    } else {
        digits_value(s.drop_last()) * 10 + digit_value(s.last())
    }
}

/// The value of an integer literal `-?[0-9]+`, of any size.
pub open spec fn literal_value(t: Seq<char>) -> Option<int> {
    if all_digits(t) {
        Some(digits_value(t))
    } else if t.len() >= 2 && t[0] == '-' && all_digits(t.drop_first()) {
        Some(-digits_value(t.drop_first()))
    } else {
        None
    }
}

/// The operator and keyword tokens.
pub open spec fn keyword(t: Seq<char>) -> Option<OpModel> {
    if t == seq!['*'] {
        Some(OpModel::Mul)
    } else if t == seq!['*', '*'] {
        Some(OpModel::Double)
    } else if t == seq!['+'] {
        Some(OpModel::Add)
    } else if t == seq!['/'] {
        Some(OpModel::Div)
    } else if t == seq!['-'] {
        Some(OpModel::Sub)
    } else if t == seq!['!'] {
        Some(OpModel::Fact)
    } else if t == seq!['^'] {
        Some(OpModel::Exp)
    } else if t == seq!['^', '^'] {
        Some(OpModel::Square)
    } else if t == seq!['c'] {
        Some(OpModel::Clear)
    } else if t == seq!['i', 'n', 'v'] {
        Some(OpModel::Inv)
    } else if t == seq!['s', 'w', 'a', 'p'] {
        Some(OpModel::Swap)
    } else if t == seq!['s', 'u', 'm'] {
        Some(OpModel::Sum)
    } else if t == seq!['p', 'r', 'o', 'd'] {
        Some(OpModel::Prod)
    } else {
        None
    }
}

/// The meaning of a token that is not a keyword.
pub open spec fn classify_other(t: Seq<char>) -> OpModel {
    if is_sigil_ident(t, '=') {
        OpModel::VarInit(t.drop_first())
    } else if is_sigil_ident(t, '$') {
        OpModel::VarRef(t.drop_first())
    } else if literal_value(t) is Some && fits_isize(literal_value(t)->0) {
        OpModel::Push(literal_value(t)->0 as isize)
    } else {
        OpModel::Noop
    }
}

/// The meaning of a token: a keyword first, then an assignment `=name`, a
/// reference `$name`, an integer literal that fits, and otherwise nothing.
pub open spec fn classify(t: Seq<char>) -> OpModel {
    match keyword(t) {
        Some(op) => op,
        None => classify_other(t),
    }
}

proof fn lemma_digits_value_grows(s: Seq<char>, k: int)
    requires
        0 <= k <= s.len(),
        forall|i: int| 0 <= i < s.len() ==> is_digit(#[trigger] s[i]),
    ensures
        digits_value(s) >= digits_value(s.take(k)) >= 0,
    decreases s.len(),
{
    if s.len() > 0 {
        let d = s.drop_last();
        assert forall|i: int| 0 <= i < d.len() implies is_digit(#[trigger] d[i]) by {
            assert(d[i] == s[i]);
        }
        assert(is_digit(s[s.len() - 1]));
        if k < s.len() {
            lemma_digits_value_grows(d, k);
            assert(d.take(k) == s.take(k));
        } else {
            lemma_digits_value_grows(d, 0);
            assert(s.take(k) == s);
        }
    } else {
        assert(s.take(k) == s);
    }
}

/// An integer literal `-?[0-9]+` whose value fits, as a push of that value.
pub fn parse_push(token: &str) -> (r: Option<Op>)
    ensures
        r == (if literal_value(token@) is Some && fits_isize(literal_value(token@)->0) {
            Some(Op::Push(literal_value(token@)->0 as isize))
        } else {
            None::<Op>
        }),
{
    let ghost t = token@;
    let n = token.unicode_len();
    if n == 0 {
        return None;
    }
    let neg = token.get_char(0) == '-';
    let start: usize = if neg { 1 } else { 0 };
    if start >= n {
        assert(!all_digits(t));
        return None;
    }
    let ghost body = t.subrange(start as int, n as int);
    assert(neg ==> body == t.drop_first());
    assert(!neg ==> body == t);
    assert(literal_value(t) is Some <==> all_digits(body)) by {
        if neg {
            assert(!is_digit(t[0]));
        }
    }
    assert(literal_value(t) is Some ==> literal_value(t)->0 == (if neg {
        -digits_value(body)
    } else {
        digits_value(body)
    }));
    let wide: i128 = 0x8000_0000_0000_0000;
    let mut acc: i128 = 0;
    let mut i: usize = start;
    while i < n
        invariant
            n == t.len(),
            token@ == t,
            start <= i <= n,
            literal_value(t) is Some <==> all_digits(body),
            literal_value(t) is Some ==> literal_value(t)->0 == (if neg {
                -digits_value(body)
            } else {
                digits_value(body)
            }),
            body == t.subrange(start as int, n as int),
            forall|j: int| start <= j < i ==> is_digit(#[trigger] t[j]),
            acc == digits_value(body.take(i - start)),
            0 <= acc <= wide,
            wide == 0x8000_0000_0000_0000,
        decreases n - i,
    {
        let c = token.get_char(i);
        if !('0' <= c && c <= '9') {
            assert(body[i - start] == t[i as int]);
            assert(!is_digit(body[i - start]));
            assert(!all_digits(body));
            return None;
        }
        assert(body.take(i + 1 - start).drop_last() == body.take(i - start));
        acc = acc * 10 + (c as u32 - '0' as u32) as i128;
        i = i + 1;
        if acc > wide {
            proof {
                if all_digits(body) {
                    lemma_digits_value_grows(body, i - start);
                }
            }
            return None;
        }
    }
    assert(body.take(n - start) == body);
    assert(all_digits(body)) by {
        assert forall|j: int| 0 <= j < body.len() implies is_digit(#[trigger] body[j]) by {
            assert(body[j] == t[j + start]);
        }
    }
    let v: i128 = if neg { -acc } else { acc };
    if v < isize::MIN as i128 || v > isize::MAX as i128 {
        None
    } else {
        Some(Op::Push(v as isize))
    }
}

/// The identifier after `sigil`, where the whole token is `sigil` followed by
/// an identifier.
fn sigil_name(token: &str, sigil: char) -> (r: Option<String>)
    ensures
        r is Some <==> is_sigil_ident(token@, sigil),
        r is Some ==> r->0@ == token@.drop_first(),
{
    let ghost t = token@;
    let n = token.unicode_len();
    if n < 2 || token.get_char(0) != sigil {
        return None;
    }
    let c = token.get_char(1);
    if !(('a' <= c && c <= 'z') || ('A' <= c && c <= 'Z')) {
        assert(t.drop_first()[0] == c);
        return None;
    }
    let mut i: usize = 2;
    while i < n
        invariant
            n == t.len(),
            token@ == t,
            2 <= i <= n,
            forall|j: int| 2 <= j < i ==> is_alpha(#[trigger] t[j]) || is_digit(t[j]),
        decreases n - i,
    {
        let c = token.get_char(i);
        if !(('a' <= c && c <= 'z') || ('A' <= c && c <= 'Z') || ('0' <= c && c <= '9')) {
            assert(t.drop_first()[i - 1] == c);
            return None;
        }
        i = i + 1;
    }
    assert forall|j: int| 1 <= j < t.drop_first().len() implies is_alpha(
        #[trigger] t.drop_first()[j],
    ) || is_digit(t.drop_first()[j]) by {
        assert(t.drop_first()[j] == t[j + 1]);
    }
    let name = token.substring_char(1, n).to_owned();
    assert(name@ == t.drop_first());
    Some(name)
}

/// An assignment token `=name`.
pub fn parse_var_init(token: &str) -> (r: Option<Op>)
    ensures
        r is Some <==> is_sigil_ident(token@, '='),
        r is Some ==> r->0@ == OpModel::VarInit(token@.drop_first()),
{
    match sigil_name(token, '=') {
        Some(name) => Some(Op::VarInit(name)),
        None => None,
    }
}

/// A reference token `$name`.
pub fn parse_var_ref(token: &str) -> (r: Option<Op>)
    ensures
        r is Some <==> is_sigil_ident(token@, '$'),
        r is Some ==> r->0@ == OpModel::VarRef(token@.drop_first()),
{
    match sigil_name(token, '$') {
        Some(name) => Some(Op::VarRef(name)),
        None => None,
    }
}

/// The meaning of a token that is not a keyword.
pub fn parse_op(token: &str) -> (r: Op)
    ensures
        r@ == classify_other(token@),
{
    if let Some(op) = parse_var_init(token) {
        return op;
    }
    if let Some(op) = parse_var_ref(token) {
        return op;
    }
    match parse_push(token) {
        Some(op) => op,
        None => Op::Noop,
    }
}

/// A keyword or operator token.
fn parse_keyword(token: &str) -> (r: Option<Op>)
    ensures
        r is Some <==> keyword(token@) is Some,
        r is Some ==> r->0@ == keyword(token@)->0,
{
    let ghost t = token@;
    let n = token.unicode_len();
    if n == 1 {
        let c = token.get_char(0);
        assert(t =~= seq![c]);
        if c == '*' {
            Some(Op::Mul)
        } else if c == '+' {
            Some(Op::Add)
        } else if c == '/' {
            Some(Op::Div)
        } else if c == '-' {
            Some(Op::Sub)
        } else if c == '!' {
            Some(Op::Fact)
        } else if c == '^' {
            Some(Op::Exp)
        } else if c == 'c' {
            Some(Op::Clear)
        } else {
            None
        }
    } else if n == 2 {
        let c0 = token.get_char(0);
        let c1 = token.get_char(1);
        assert(t =~= seq![c0, c1]);
        if c0 == '*' && c1 == '*' {
            Some(Op::Double)
        } else if c0 == '^' && c1 == '^' {
            Some(Op::Square)
        } else {
            None
        }
    } else if n == 3 {
        let c0 = token.get_char(0);
        let c1 = token.get_char(1);
        let c2 = token.get_char(2);
        assert(t =~= seq![c0, c1, c2]);
        if c0 == 'i' && c1 == 'n' && c2 == 'v' {
            Some(Op::Inv)
        } else if c0 == 's' && c1 == 'u' && c2 == 'm' {
            Some(Op::Sum)
        } else {
            None
        }
    } else if n == 4 {
        let c0 = token.get_char(0);
        let c1 = token.get_char(1);
        let c2 = token.get_char(2);
        let c3 = token.get_char(3);
        assert(t =~= seq![c0, c1, c2, c3]);
        if c0 == 's' && c1 == 'w' && c2 == 'a' && c3 == 'p' {
            Some(Op::Swap)
        } else if c0 == 'p' && c1 == 'r' && c2 == 'o' && c3 == 'd' {
            Some(Op::Prod)
        } else {
            None
        }
    } else {
        None
    }
}

impl Op {
    /// The operation that a token stands for; a token that means nothing
    /// becomes `Noop`.
    pub fn parse(token: &str) -> (r: Op)
        ensures
            r@ == classify(token@),
    {
        match parse_keyword(token) {
            Some(op) => op,
            None => parse_op(token),
        }
    }
}

} // verus!
