//! Integer arithmetic on `isize`, checked: each operation reports a result
//! that does not fit, rather than wrapping or panicking. The calculator then
//! leaves its stack as it was.
use vstd::prelude::*;

verus! {

pub open spec fn abs(x: int) -> int {
    if x < 0 {
        -x
    } else {
        x
    }
}

/// Integer division truncated toward zero, as Rust's `/` computes it.
pub open spec fn trunc_div(a: int, b: int) -> int
    recommends
        b != 0,
{
    let q = abs(a) / abs(b);
    if (a < 0) == (b < 0) {
        q
    } else {
        -q
    }
}

pub open spec fn fits_isize(x: int) -> bool {
    isize::MIN <= x <= isize::MAX
}

/// Division of `a` by `b` that reports a zero divisor as `None`.
/// The quotient is truncated toward zero; the one quotient that does not fit
/// (`isize::MIN / -1`) is reported as `None` too.
pub fn save_div(a: isize, b: isize) -> (r: Option<isize>)
    ensures
        r is None <==> (b == 0 || !fits_isize(trunc_div(a as int, b as int))),
        r is Some ==> r->0 == trunc_div(a as int, b as int),
{
    if b == 0 {
        return None;
    }
    let x = a as i128;
    let y = b as i128;
    let ax: i128 = if x < 0 { -x } else { x };
    let ay: i128 = if y < 0 { -y } else { y };
    let q: i128 = ax / ay;
    assert(0 <= q <= ax) by (nonlinear_arith)
        requires ax >= 0, ay >= 1, q == ax / ay;
    let t: i128 = if (x < 0) == (y < 0) { q } else { -q };
    if t < isize::MIN as i128 || t > isize::MAX as i128 {
        None
    } else {
        Some(t as isize)
    }
}

pub open spec fn factorial(n: nat) -> nat
    decreases n,
{
    if n == 0 {
        1
    } else {
        n * factorial((n - 1) as nat)
    }
}

pub open spec fn pow(b: int, e: nat) -> int
    decreases e,
{
    if e == 0 {
        1
    } else {
        b * pow(b, (e - 1) as nat)
    }
}

/// The sum of all values, 0 for none.
pub open spec fn sum(s: Seq<isize>) -> int
    decreases s.len(),
{
    if s.len() == 0 {
        0
    } else {
        sum(s.drop_last()) + s.last()
    }
}

/// The product of all values, 1 for none.
pub open spec fn product(s: Seq<isize>) -> int
    decreases s.len(),
{
    if s.len() == 0 {
        1
    } else {
        product(s.drop_last()) * s.last()
    }
}

proof fn lemma_factorial_positive(n: nat)
    ensures
        factorial(n) >= 1,
    decreases n,
{
    if n > 0 {
        lemma_factorial_positive((n - 1) as nat);
        assert(n * factorial((n - 1) as nat) >= 1) by (nonlinear_arith)
            requires
                n >= 1,
                factorial((n - 1) as nat) >= 1,
        ;
    }
}

proof fn lemma_factorial_monotone(i: nat, j: nat)
    requires
        i <= j,
    ensures
        factorial(i) <= factorial(j),
    decreases j,
{
    if i < j {
        lemma_factorial_monotone(i, (j - 1) as nat);
        lemma_factorial_positive((j - 1) as nat);
        assert(j * factorial((j - 1) as nat) >= factorial((j - 1) as nat)) by (nonlinear_arith)
            requires
                j >= 1,
                factorial((j - 1) as nat) >= 1,
        ;
    }
}

/// `a!`, or `None` where `a` is negative or `a!` does not fit.
pub fn checked_factorial(a: isize) -> (r: Option<isize>)
    ensures
        r is None <==> (a < 0 || !fits_isize(factorial(a as nat) as int)),
        r is Some ==> r->0 == factorial(a as nat),
{
    if a < 0 {
        return None;
    }
    let mut p: i128 = 1;
    let mut i: isize = 0;
    while i < a
        invariant
            0 <= i <= a,
            p == factorial(i as nat),
            1 <= p <= isize::MAX,
        decreases a - i,
    {
        i = i + 1;
        assert((i as i128) * p <= 0x4000_0000_0000_0000_0000_0000_0000_0000) by (nonlinear_arith)
            requires
                1 <= p <= 0x8000_0000_0000_0000,
                1 <= i <= 0x8000_0000_0000_0000,
        ;
        assert((i as i128) * p >= 1) by (nonlinear_arith)
            requires
                1 <= p,
                1 <= i,
        ;
        p = (i as i128) * p;
        if p > isize::MAX as i128 {
            proof {
                lemma_factorial_monotone(i as nat, a as nat);
            }
            return None;
        }
    }
    Some(p as isize)
}

proof fn lemma_pow_unit(e: nat)
    ensures
        pow(1, e) == 1,
        pow(-1, e) == (if e % 2 == 0 {
            1int
        } else {
            -1int
        }),
        e > 0 ==> pow(0, e) == 0,
    decreases e,
{
    if e > 0 {
        lemma_pow_unit((e - 1) as nat);
    }
}

proof fn lemma_pow_grows(b: int, i: nat, e: nat)
    requires
        abs(b) >= 2,
        i <= e,
    ensures
        abs(pow(b, e)) >= abs(pow(b, i)),
        i < e ==> abs(pow(b, e)) >= 2 * abs(pow(b, i)),
    decreases e,
{
    if i < e {
        lemma_pow_grows(b, i, (e - 1) as nat);
        let p = pow(b, (e - 1) as nat);
        assert(abs(b * p) >= 2 * abs(p)) by (nonlinear_arith)
            requires
                abs(b) >= 2,
        ;
        assert(abs(pow(b, i)) >= 0);
    }
}

/// `b` to the power `e`, or `None` where `e` is negative or the power does
/// not fit.
pub fn checked_pow(b: isize, e: isize) -> (r: Option<isize>)
    ensures
        r is None <==> (e < 0 || !fits_isize(pow(b as int, e as nat))),
        r is Some ==> r->0 == pow(b as int, e as nat),
{
    if e < 0 {
        return None;
    }
    proof {
        lemma_pow_unit(e as nat);
    }
    if b == 0 {
        return if e == 0 {
            Some(1)
        } else {
            Some(0)
        };
    }
    if b == 1 {
        return Some(1);
    }
    if b == -1 {
        return if e % 2 == 0 {
            Some(1)
        } else {
            Some(-1)
        };
    }
    let mut p: i128 = 1;
    let mut i: isize = 0;
    while i < e
        invariant
            abs(b as int) >= 2,
            0 <= i <= e,
            p == pow(b as int, i as nat),
            fits_isize(p as int),
        decreases e - i,
    {
        assert(abs((b as i128) * p) <= 0x4000_0000_0000_0000_0000_0000_0000_0000) by (nonlinear_arith)
            requires
                abs(p as int) <= 0x8000_0000_0000_0000,
                abs(b as int) <= 0x8000_0000_0000_0000,
        ;
        p = (b as i128) * p;
        i = i + 1;
        if p < isize::MIN as i128 || p > isize::MAX as i128 {
            proof {
                lemma_pow_grows(b as int, i as nat, e as nat);
            }
            return None;
        }
    }
    Some(p as isize)
}

const WIDE: i128 = 0x8000_0000_0000_0000;

/// The sum of `v`, or `None` where it does not fit.
pub fn checked_sum(v: &Vec<isize>) -> (r: Option<isize>)
    ensures
        r is None <==> !fits_isize(sum(v@)),
        r is Some ==> r->0 == sum(v@),
{
    let mut acc: i128 = 0;
    let mut i: usize = 0;
    while i < v.len()
        invariant
            0 <= i <= v@.len(),
            acc == sum(v@.take(i as int)),
            -(i * WIDE) <= acc <= i * WIDE,
        decreases v@.len() - i,
    {
        assert(v@.take(i + 1).drop_last() == v@.take(i as int));
        assert(i * WIDE + WIDE == (i + 1) * WIDE) by (nonlinear_arith);
        assert((i + 1) * WIDE <= 0xffff_ffff_ffff_ffff * WIDE) by (nonlinear_arith)
            requires
                i + 1 <= 0xffff_ffff_ffff_ffff,
        ;
        acc = acc + v[i] as i128;
        i = i + 1;
    }
    assert(v@.take(v@.len() as int) == v@);
    if acc < isize::MIN as i128 || acc > isize::MAX as i128 {
        None
    } else {
        Some(acc as isize)
    }
}

proof fn lemma_magnitude_grows(x: int, y: int)
    requires
        y != 0,
    ensures
        abs(x * y) >= abs(x),
{
    assert(abs(x * y) == abs(x) * abs(y)) by (nonlinear_arith);
    assert(abs(x) * abs(y) >= abs(x)) by (nonlinear_arith)
        requires
            abs(y) >= 1,
            abs(x) >= 0,
    ;
}

/// The product of `v`, or `None` where it does not fit.
pub fn checked_product(v: &Vec<isize>) -> (r: Option<isize>)
    ensures
        r is None <==> !fits_isize(product(v@)),
        r is Some ==> r->0 == product(v@),
{
    let mut zero = false;
    let mut big = false;
    let mut p: i128 = 1;
    let mut i: usize = 0;
    while i < v.len()
        invariant
            0 <= i <= v@.len(),
            zero ==> product(v@.take(i as int)) == 0,
            !zero && !big ==> p == product(v@.take(i as int)) && abs(p as int) <= WIDE,
            !zero && big ==> abs(product(v@.take(i as int))) > WIDE,
        decreases v@.len() - i,
    {
        let x = v[i];
        let ghost before = product(v@.take(i as int));
        assert(v@.take(i + 1).drop_last() == v@.take(i as int));
        assert(product(v@.take(i + 1)) == before * x);
        if x == 0 {
            assert(before * x == 0);
            zero = true;
        } else if zero {
            assert(before * x == 0) by (nonlinear_arith)
                requires
                    before == 0,
            ;
        } else {
            proof {
                lemma_magnitude_grows(before, x as int);
            }
            if !big {
                assert(abs((p * x) as int) <= WIDE * WIDE) by (nonlinear_arith)
                    requires
                        abs(p as int) <= WIDE,
                        abs(x as int) <= WIDE,
                ;
                p = p * (x as i128);
                if p < -WIDE || p > WIDE {
                    big = true;
                }
            }
        }
        i = i + 1;
    }
    assert(v@.take(v@.len() as int) == v@);
    if zero {
        Some(0)
    } else if big || p < isize::MIN as i128 || p > isize::MAX as i128 {
        None
    } else {
        Some(p as isize)
    }
}

} // verus!
