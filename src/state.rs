//! The stack machine. Every operation that lacks operands, has no defined
//! result (a negative exponent or factorial) or whose result does not fit in
//! `isize` is silently absorbed: the state stays as it was. Dividing by zero
//! gives 0.
use vstd::prelude::*;

use crate::arith::{
    checked_factorial, checked_pow, checked_product, checked_sum, factorial, fits_isize, pow,
    product, save_div, sum, trunc_div,
};
use crate::op::{classify, Op, OpModel};

verus! {

/// What a calculator holds: its stack, bottom first, and its variables.
pub struct StateModel {
    pub stack: Seq<isize>,
    pub vars: Map<Seq<char>, isize>,
}

/// The variables that a list of bindings defines; a later binding of a name
/// wins over an earlier one.
pub open spec fn bindings(s: Seq<(String, isize)>) -> Map<Seq<char>, isize>
    decreases s.len(),
{
    if s.len() == 0 {
        Map::empty()
    } else {
        bindings(s.drop_last()).insert(s.last().0@, s.last().1)
    }
}

/// The result of an operation on the top value `a`, where it has one.
pub open spec fn unary(op: OpModel, a: int) -> Option<int> {
    match op {
        OpModel::Double => Some(a * 2),
        OpModel::Square => Some(a * a),
        OpModel::Fact => if a < 0 {
            None
        } else {
            Some(factorial(a as nat) as int)
        },
        OpModel::Inv => Some(-a),
        _ => None,
    }
}

/// The result of an operation on the top value `a` and the value `b` below
/// it, where it has one.
pub open spec fn binary(op: OpModel, a: int, b: int) -> Option<int> {
    match op {
        OpModel::Add => Some(a + b),
        OpModel::Sub => Some(b - a),
        OpModel::Mul => Some(a * b),
        OpModel::Div => if a == 0 {
            Some(0)
        } else {
            Some(trunc_div(b, a))
        },
        OpModel::Exp => if a < 0 {
            None
        } else {
            Some(pow(b, a as nat))
        },
        _ => None,
    }
}

pub open spec fn is_unary(op: OpModel) -> bool {
    op is Double || op is Square || op is Fact || op is Inv
}

pub open spec fn is_binary(op: OpModel) -> bool {
    op is Add || op is Sub || op is Mul || op is Div || op is Exp
}

/// The stack with its top `k` values replaced by `r`, where `r` is a value
/// that fits; otherwise the stack as it was.
pub open spec fn replace_top(s: Seq<isize>, k: int, r: Option<int>) -> Seq<isize> {
    if r is Some && fits_isize(r->0) {
        s.subrange(0, s.len() - k).push(r->0 as isize)
    } else {
        s
    }
}

pub open spec fn with_stack(m: StateModel, s: Seq<isize>) -> StateModel {
    StateModel { stack: s, vars: m.vars }
}

/// The state after one operation. An operation that lacks operands, or whose
/// result is undefined or does not fit in `isize`, leaves the state as it was.
pub open spec fn step(m: StateModel, op: OpModel) -> StateModel {
    let s = m.stack;
    let n = s.len();
    match op {
        OpModel::Push(v) => with_stack(m, s.push(v)),
        OpModel::Clear => with_stack(m, Seq::empty()),
        OpModel::Sum => if fits_isize(sum(s)) {
            with_stack(m, seq![sum(s) as isize])
        } else {
            m
        },
        OpModel::Prod => if fits_isize(product(s)) {
            with_stack(m, seq![product(s) as isize])
        } else {
            m
        },
        OpModel::Swap => if n >= 2 {
            with_stack(m, s.subrange(0, n - 2).push(s[n - 1]).push(s[n - 2]))
        } else {
            m
        },
        OpModel::VarInit(name) => if n >= 1 {
            StateModel { stack: s.drop_last(), vars: m.vars.insert(name, s[n - 1]) }
        } else {
            m
        },
        OpModel::VarRef(name) => if m.vars.contains_key(name) {
            with_stack(m, s.push(m.vars[name]))
        } else {
            m
        },
        OpModel::Noop => m,
        _ => if is_binary(op) {
            if n >= 2 {
                with_stack(m, replace_top(s, 2, binary(op, s[n - 1] as int, s[n - 2] as int)))
            } else {
                m
            }
        } else {
            if n >= 1 {
                with_stack(m, replace_top(s, 1, unary(op, s[n - 1] as int)))
            } else {
                m
            }
        },
    }
}

/// The state after a sequence of operations, in order.
pub open spec fn run(m: StateModel, ops: Seq<OpModel>) -> StateModel
    decreases ops.len(),
{
    if ops.len() == 0 {
        m
    } else {
        run(step(m, ops[0]), ops.drop_first())
    }
}

/// White space as Unicode defines it.
pub open spec fn is_space(c: char) -> bool {
    ||| '\u{9}' <= c <= '\u{d}'
    ||| c == ' '
    ||| c == '\u{85}'
    ||| c == '\u{a0}'
    ||| c == '\u{1680}'
    ||| '\u{2000}' <= c <= '\u{200a}'
    ||| c == '\u{2028}'
    ||| c == '\u{2029}'
    ||| c == '\u{202f}'
    ||| c == '\u{205f}'
    ||| c == '\u{3000}'
}

/// `cur` as a token, where it is not empty.
pub open spec fn flush(cur: Seq<char>) -> Seq<Seq<char>> {
    if cur.len() == 0 {
        seq![]
    } else {
        seq![cur]
    }
}

/// The tokens of `s`, continuing a token `cur` that has been read so far.
pub open spec fn split_from(s: Seq<char>, cur: Seq<char>) -> Seq<Seq<char>>
    decreases s.len(),
{
    if s.len() == 0 {
        flush(cur)
    } else if is_space(s[0]) {
        flush(cur) + split_from(s.drop_first(), seq![])
    } else {
        split_from(s.drop_first(), cur.push(s[0]))
    }
}

/// The maximal runs of characters that are not white space, in order.
pub open spec fn tokens(s: Seq<char>) -> Seq<Seq<char>> {
    split_from(s, seq![])
}

/// The state after the operations that a sequence of tokens stands for.
pub open spec fn run_tokens(m: StateModel, ts: Seq<Seq<char>>) -> StateModel
    decreases ts.len(),
{
    if ts.len() == 0 {
        m
    } else {
        run_tokens(step(m, classify(ts[0])), ts.drop_first())
    }
}

/// The state after evaluating a line.
pub open spec fn eval_line(m: StateModel, line: Seq<char>) -> StateModel {
    run_tokens(m, tokens(line))
}

proof fn lemma_run_flush(m: StateModel, cur: Seq<char>, rest: Seq<Seq<char>>)
    ensures
        run_tokens(m, flush(cur) + rest) == run_tokens(
            if cur.len() == 0 {
                m
            } else {
                step(m, classify(cur))
            },
            rest,
        ),
{
    if cur.len() == 0 {
        assert(flush(cur) + rest == rest);
    } else {
        let ts = flush(cur) + rest;
        assert(ts[0] == cur);
        assert(ts.drop_first() == rest);
    }
}

fn is_space_char(c: char) -> (r: bool)
    ensures
        r == is_space(c),
{
    ('\u{9}' <= c && c <= '\u{d}') || c == ' ' || c == '\u{85}' || c == '\u{a0}' || c
        == '\u{1680}' || ('\u{2000}' <= c && c <= '\u{200a}') || c == '\u{2028}' || c
        == '\u{2029}' || c == '\u{202f}' || c == '\u{205f}' || c == '\u{3000}'
}

/// A calculator: a stack of integers and a table of named variables.
#[derive(Clone)]
pub struct State {
    stack: Vec<isize>,
    vars: Vec<(String, isize)>,
}

impl View for State {
    type V = StateModel;

    closed spec fn view(&self) -> StateModel {
        StateModel { stack: self.stack@, vars: bindings(self.vars@) }
    }
}

proof fn lemma_bindings_skip(s: Seq<(String, isize)>, i: int, k: Seq<char>)
    requires
        0 <= i <= s.len(),
        forall|j: int| i <= j < s.len() ==> (#[trigger] s[j]).0@ != k,
    ensures
        bindings(s).contains_key(k) == bindings(s.take(i)).contains_key(k),
        bindings(s).contains_key(k) ==> bindings(s)[k] == bindings(s.take(i))[k],
    decreases s.len(),
{
    if i == s.len() {
        assert(s.take(i) == s);
    } else {
        assert(s[s.len() - 1].0@ != k);
        lemma_bindings_skip(s.drop_last(), i, k);
        assert(s.drop_last().take(i) == s.take(i));
    }
}

proof fn lemma_bindings_update(s: Seq<(String, isize)>, i: int, e: (String, isize))
    requires
        0 <= i < s.len(),
        s[i].0@ == e.0@,
        forall|j: int| i < j < s.len() ==> (#[trigger] s[j]).0@ != e.0@,
    ensures
        bindings(s.update(i, e)) == bindings(s).insert(e.0@, e.1),
    decreases s.len(),
{
    let u = s.update(i, e);
    if i == s.len() - 1 {
        assert(u.drop_last() == s.drop_last());
        assert(bindings(u) =~= bindings(s).insert(e.0@, e.1));
    } else {
        assert(s[s.len() - 1].0@ != e.0@);
        lemma_bindings_update(s.drop_last(), i, e);
        assert(u.drop_last() == s.drop_last().update(i, e));
        assert(bindings(u) =~= bindings(s).insert(e.0@, e.1));
    }
}

impl State {
    /// A calculator with an empty stack and no variables.
    pub fn new() -> (r: State)
        ensures
            r@.stack == Seq::<isize>::empty(),
            r@.vars == Map::<Seq<char>, isize>::empty(),
    {
        State { stack: Vec::new(), vars: Vec::new() }
    }

    /// The top of the stack, if there is one.
    pub fn peek(&self) -> (r: Option<&isize>)
        ensures
            r is None <==> self@.stack.len() == 0,
            r is Some ==> *r->0 == self@.stack.last(),
    {
        self.stack.last()
    }

    /// The stack, bottom first.
    pub fn values(&self) -> (r: Vec<isize>)
        ensures
            r@ == self@.stack,
    {
        self.stack.clone()
    }

    /// Carries out one operation.
    pub fn exec(&mut self, op: Op)
        ensures
            final(self)@ == step(old(self)@, op@),
    {
        match op {
            Op::Add => self.apply2(&Op::Add),
            Op::Sub => self.apply2(&Op::Sub),
            Op::Mul => self.apply2(&Op::Mul),
            Op::Div => self.apply2(&Op::Div),
            Op::Exp => self.apply2(&Op::Exp),
            Op::Double => self.apply(&Op::Double),
            Op::Square => self.apply(&Op::Square),
            Op::Fact => self.apply(&Op::Fact),
            Op::Inv => self.apply(&Op::Inv),
            Op::Clear => self.clear(),
            Op::Sum => {
                if let Some(total) = checked_sum(&self.stack) {
                    self.clear();
                    self.push(total);
                    assert(self.stack@ =~= seq![total]);
                }
            },
            Op::Prod => {
                if let Some(total) = checked_product(&self.stack) {
                    self.clear();
                    self.push(total);
                    assert(self.stack@ =~= seq![total]);
                }
            },
            Op::Push(value) => self.push(value),
            Op::Swap => {
                if let Some((a, b)) = self.pop2() {
                    self.push(a);
                    self.push(b);
                }
            },
            Op::VarInit(name) => {
                if let Some(a) = self.stack.pop() {
                    self.add_var(name, a);
                }
            },
            Op::VarRef(name) => {
                if let Some(a) = self.get_var(&name) {
                    self.push(a);
                }
            },
            Op::Noop => {},
        }
    }

    /// Carries out the operations of the tokens of `cmds`, left to right.
    /// Returns the calculator itself, for further calls.
    pub fn eval(&mut self, cmds: &str) -> (r: &mut Self)
        ensures
            (*r)@ == eval_line(old(self)@, cmds@),
            *final(self) == *final(r),
    {
        let ghost s = cmds@;
        let n = cmds.unicode_len();
        let mut start: usize = 0;
        let mut i: usize = 0;
        assert(s.skip(0) == s);
        assert(s.subrange(0, 0) == Seq::<char>::empty());
        while i < n
            invariant
                n == s.len(),
                cmds@ == s,
                start <= i <= n,
                eval_line(old(self)@, s) == run_tokens(
                    self@,
                    split_from(s.skip(i as int), s.subrange(start as int, i as int)),
                ),
            decreases n - i,
        {
            let c = cmds.get_char(i);
            let ghost cur = s.subrange(start as int, i as int);
            let ghost rest = s.skip(i as int);
            assert(rest[0] == c);
            assert(rest.drop_first() == s.skip(i + 1));
            if is_space_char(c) {
                proof {
                    lemma_run_flush(self@, cur, split_from(s.skip(i + 1), seq![]));
                }
                if i > start {
                    self.exec(Op::parse(cmds.substring_char(start, i)));
                }
                start = i + 1;
                assert(s.subrange(start as int, start as int) == Seq::<char>::empty());
            } else {
                assert(cur.push(c) == s.subrange(start as int, i + 1));
            }
            i = i + 1;
        }
        proof {
            let cur = s.subrange(start as int, n as int);
            assert(s.skip(n as int) == Seq::<char>::empty());
            lemma_run_flush(self@, cur, seq![]);
            assert(flush(cur) + seq![] == flush(cur));
        }
        if n > start {
            self.exec(Op::parse(cmds.substring_char(start, n)));
        }
        self
    }

    fn clear(&mut self)
        ensures
            final(self)@ == with_stack(old(self)@, Seq::empty()),
    {
        self.stack.clear();
    }

    fn push(&mut self, val: isize)
        ensures
            final(self)@ == with_stack(old(self)@, old(self)@.stack.push(val)),
    {
        self.stack.push(val);
    }

    /// The top value and the one below it, taken off the stack, where there
    /// are two.
    fn pop2(&mut self) -> (r: Option<(isize, isize)>)
        ensures
            old(self)@.stack.len() >= 2 ==> {
                let s = old(self)@.stack;
                &&& r == Some((s[s.len() - 1], s[s.len() - 2]))
                &&& final(self)@ == with_stack(old(self)@, s.subrange(0, s.len() - 2))
            },
            old(self)@.stack.len() < 2 ==> r is None && final(self)@ == old(self)@,
    {
        if self.stack.len() > 1 {
            let a = self.stack.pop().unwrap();
            let b = self.stack.pop().unwrap();
            assert(self.stack@ =~= old(self)@.stack.subrange(0, old(self)@.stack.len() - 2));
            Some((a, b))
        } else {
            None
        }
    }

    /// Replaces the top `k` values by `r` where `r` is a value.
    fn replace(&mut self, k: usize, r: Option<isize>)
        requires
            1 <= k <= old(self)@.stack.len(),
        ensures
            final(self)@ == with_stack(
                old(self)@,
                replace_top(
                    old(self)@.stack,
                    k as int,
                    match r {
                        Some(v) => Some(v as int),
                        None => None,
                    },
                ),
            ),
    {
        if let Some(v) = r {
            self.stack.truncate(self.stack.len() - k);
            self.stack.push(v);
            assert(self.stack@ =~= old(self)@.stack.subrange(
                0,
                old(self)@.stack.len() - k,
            ).push(v));
        }
    }

    /// Applies a one-operand operation to the top of the stack.
    fn apply(&mut self, op: &Op)
        requires
            is_unary(op@),
        ensures
            final(self)@ == step(old(self)@, op@),
    {
        let n = self.stack.len();
        if n == 0 {
            return;
        }
        let a = self.stack[n - 1];
        let r: Option<isize> = match op {
            Op::Double => narrow(a as i128 * 2),
            Op::Square => {
                assert(abs_le(a as i128 * a as i128)) by (nonlinear_arith)
                    requires
                        isize::MIN >= -0x8000_0000_0000_0000,
                        isize::MAX <= 0x7fff_ffff_ffff_ffff,
                        isize::MIN <= a <= isize::MAX,
                ;
                narrow(a as i128 * a as i128)
            },
            Op::Fact => checked_factorial(a),
            _ => narrow(-(a as i128)),
        };
        assert(r matches Some(v) ==> unary(op@, a as int) == Some(v as int));
        assert(r is None ==> unary(op@, a as int) is None || !fits_isize(unary(op@, a as int)->0));
        self.replace(1, r);
    }

    /// Applies a two-operand operation to the top two values of the stack.
    fn apply2(&mut self, op: &Op)
        requires
            is_binary(op@),
        ensures
            final(self)@ == step(old(self)@, op@),
    {
        let n = self.stack.len();
        if n < 2 {
            return;
        }
        let a = self.stack[n - 1];
        let b = self.stack[n - 2];
        let r: Option<isize> = match op {
            Op::Add => narrow(a as i128 + b as i128),
            Op::Sub => narrow(b as i128 - a as i128),
            Op::Mul => {
                assert(abs_le(a as i128 * b as i128)) by (nonlinear_arith)
                    requires
                        isize::MIN >= -0x8000_0000_0000_0000,
                        isize::MAX <= 0x7fff_ffff_ffff_ffff,
                        isize::MIN <= a <= isize::MAX,
                        isize::MIN <= b <= isize::MAX,
                ;
                narrow(a as i128 * b as i128)
            },
            Op::Div => if a == 0 {
                Some(0)
            } else {
                save_div(b, a)
            },
            _ => checked_pow(b, a),
        };
        self.replace(2, r);
    }

    /// The position of the binding of `key`, the last one if there are several.
    fn find_var(&self, key: &String) -> (r: Option<usize>)
        ensures
            r is Some ==> {
                &&& r->0 < self.vars@.len()
                &&& self.vars@[r->0 as int].0@ == key@
                &&& forall|j: int|
                    r->0 < j < self.vars@.len() ==> (#[trigger] self.vars@[j]).0@ != key@
            },
            r is None ==> forall|j: int|
                0 <= j < self.vars@.len() ==> (#[trigger] self.vars@[j]).0@ != key@,
    {
        let mut i: usize = self.vars.len();
        while i > 0
            invariant
                i <= self.vars@.len(),
                forall|j: int| i <= j < self.vars@.len() ==> (#[trigger] self.vars@[j]).0@ != key@,
            decreases i,
        {
            if self.vars[i - 1].0 == *key {
                return Some(i - 1);
            }
            i = i - 1;
        }
        None
    }

    fn add_var(&mut self, key: String, value: isize)
        ensures
            final(self)@ == (StateModel {
                stack: old(self)@.stack,
                vars: old(self)@.vars.insert(key@, value),
            }),
    {
        match self.find_var(&key) {
            Some(i) => {
                proof {
                    lemma_bindings_update(self.vars@, i as int, (key, value));
                }
                self.vars.set(i, (key, value));
            },
            None => {
                self.vars.push((key, value));
                assert(self.vars@.drop_last() == old(self).vars@);
            },
        }
    }

    fn get_var(&self, key: &String) -> (r: Option<isize>)
        ensures
            r is Some <==> self@.vars.contains_key(key@),
            r is Some ==> r->0 == self@.vars[key@],
    {
        match self.find_var(key) {
            Some(i) => {
                proof {
                    let s = self.vars@;
                    lemma_bindings_skip(s, i + 1, key@);
                    assert(s.take(i + 1).drop_last() == s.take(i as int));
                }
                Some(self.vars[i].1)
            },
            None => {
                proof {
                    lemma_bindings_skip(self.vars@, 0, key@);
                }
                None
            },
        }
    }
}

/// `x` lies within the range of a product of two `isize` values.
spec fn abs_le(x: int) -> bool {
    -0x4000_0000_0000_0000_0000_0000_0000_0000 <= x <= 0x4000_0000_0000_0000_0000_0000_0000_0000
}

/// `x` where it fits in `isize`.
fn narrow(x: i128) -> (r: Option<isize>)
    ensures
        r is None <==> !fits_isize(x as int),
        r is Some ==> r->0 == x,
{
    if x < isize::MIN as i128 || x > isize::MAX as i128 {
        None
    } else {
        Some(x as isize)
    }
}

} // verus!
