//! Properties that relate several operations of the calculator.
use vstd::prelude::*;

use crate::arith::{fits_isize, product, sum};
use crate::op::{classify, is_ident, keyword, OpModel};
use crate::state::{run, step, StateModel};

verus! {

/// Pushing two values and adding them leaves their sum on top, where the sum
/// fits, and the rest of the stack as it was.
pub proof fn push_push_add(m: StateModel, x: isize, y: isize)
    requires
        fits_isize(x + y),
    ensures
        run(m, seq![OpModel::Push(x), OpModel::Push(y), OpModel::Add]) == (StateModel {
            stack: m.stack.push((x + y) as isize),
            vars: m.vars,
        }),
{
    let ops = seq![OpModel::Push(x), OpModel::Push(y), OpModel::Add];
    let m1 = step(m, OpModel::Push(x));
    let m2 = step(m1, OpModel::Push(y));
    let m3 = step(m2, OpModel::Add);
    assert(ops.drop_first() == seq![OpModel::Push(y), OpModel::Add]);
    assert(ops.drop_first().drop_first() == seq![OpModel::Add]);
    assert(ops.drop_first().drop_first().drop_first() == Seq::<OpModel>::empty());
    assert(m2.stack.subrange(0, m2.stack.len() - 2) == m.stack);
    assert(m3.stack =~= m.stack.push((x + y) as isize));
    assert(run(m3, Seq::empty()) == m3);
    assert(run(m2, seq![OpModel::Add]) == m3);
    assert(run(m1, ops.drop_first()) == m3);
    assert(run(m, ops) == m3);
}

/// Assigning a value to a name takes it off the stack and binds the name to
/// it; reading the name then pushes the value back.
pub proof fn assign_then_read(m: StateModel, v: isize, name: Seq<char>)
    ensures
        run(m, seq![OpModel::Push(v), OpModel::VarInit(name)]) == (StateModel {
            stack: m.stack,
            vars: m.vars.insert(name, v),
        }),
        step(run(m, seq![OpModel::Push(v), OpModel::VarInit(name)]), OpModel::VarRef(name)).stack
            == m.stack.push(v),
{
    let ops = seq![OpModel::Push(v), OpModel::VarInit(name)];
    assert(ops.drop_first() == seq![OpModel::VarInit(name)]);
    assert(ops.drop_first().drop_first() == Seq::<OpModel>::empty());
    let m1 = step(m, OpModel::Push(v));
    let m2 = step(m1, OpModel::VarInit(name));
    assert(m1.stack.drop_last() == m.stack);
    assert(run(m2, Seq::empty()) == m2);
    assert(run(m1, ops.drop_first()) == m2);
    assert(run(m, ops) == m2);
    assert(m2.vars.contains_key(name));
}

/// A token `=name` assigns to `name`, and a token `$name` reads it, for every
/// identifier `name`.
pub proof fn sigil_tokens(name: Seq<char>)
    requires
        is_ident(name),
    ensures
        classify(seq!['='] + name) == OpModel::VarInit(name),
        classify(seq!['$'] + name) == OpModel::VarRef(name),
{
    let a = seq!['='] + name;
    let r = seq!['$'] + name;
    assert(a[0] == '=');
    assert(r[0] == '$');
    assert(a.drop_first() == name);
    assert(r.drop_first() == name);
    assert(keyword(a) is None);
    assert(keyword(r) is None);
}

/// Dividing by zero leaves 0 in place of the two operands.
pub proof fn divide_by_zero(m: StateModel, v: isize)
    ensures
        run(m, seq![OpModel::Push(v), OpModel::Push(0), OpModel::Div]).stack == m.stack.push(0),
{
    let ops = seq![OpModel::Push(v), OpModel::Push(0), OpModel::Div];
    assert(ops.drop_first() == seq![OpModel::Push(0), OpModel::Div]);
    assert(ops.drop_first().drop_first() == seq![OpModel::Div]);
    assert(ops.drop_first().drop_first().drop_first() == Seq::<OpModel>::empty());
    let m1 = step(m, OpModel::Push(v));
    let m2 = step(m1, OpModel::Push(0));
    let m3 = step(m2, OpModel::Div);
    assert(m2.stack.subrange(0, m2.stack.len() - 2) == m.stack);
    assert(run(m3, Seq::empty()) == m3);
    assert(run(m2, seq![OpModel::Div]) == m3);
    assert(run(m1, ops.drop_first()) == m3);
    assert(run(m, ops) == m3);
}

/// On an empty stack the sum of all values is 0 and their product is 1.
pub proof fn empty_sum_and_product(m: StateModel)
    requires
        m.stack.len() == 0,
    ensures
        step(m, OpModel::Sum).stack == seq![0isize],
        step(m, OpModel::Prod).stack == seq![1isize],
{
    assert(sum(m.stack) == 0);
    assert(product(m.stack) == 1);
}

/// Swapping twice gives back the state as it was, whatever the stack.
pub proof fn swap_twice(m: StateModel)
    ensures
        step(step(m, OpModel::Swap), OpModel::Swap) == m,
{
    let s = m.stack;
    let n = s.len();
    if n >= 2 {
        let t = step(m, OpModel::Swap).stack;
        assert(t.len() == n);
        assert(step(step(m, OpModel::Swap), OpModel::Swap).stack =~= s);
    }
}

/// Adding with fewer than two values on the stack changes nothing.
pub proof fn add_underflow(m: StateModel)
    requires
        m.stack.len() < 2,
    ensures
        step(m, OpModel::Add) == m,
{
}

} // verus!
