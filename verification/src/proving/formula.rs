//! Formulas over the vote counts of a profile, and what they mean.
//!
//! A formula is plain data. Its meaning is given by `holds`, for every
//! assignment of integers to the integer variables and of real numbers to
//! the real variables.
use vstd::prelude::*;

verus! {

/// An integer expression.
#[derive(Debug)]
pub enum IntTerm {
    /// A number.
    Lit(i64),
    /// A variable, by its name.
    Var(String),
    /// The sum of the terms; 0 where there is none.
    Sum(Vec<IntTerm>),
    /// The first term minus the second.
    Diff(Box<IntTerm>, Box<IntTerm>),
    /// The product of the two terms.
    Prod(Box<IntTerm>, Box<IntTerm>),
    /// The first term divided by the second, rounded so that the remainder
    /// is not negative.
    Quot(Box<IntTerm>, Box<IntTerm>),
    /// The third part where the first is greater than the second, the
    /// fourth where it is not.
    IfGreater(Box<IntTerm>, Box<IntTerm>, Box<IntTerm>, Box<IntTerm>),
}

/// A real expression.
#[derive(Debug)]
pub enum RealTerm {
    /// An integer expression, read as a real number.
    OfInt(IntTerm),
    /// A variable, by its name.
    Var(String),
    /// The sum of the terms; 0 where there is none.
    Sum(Vec<RealTerm>),
    /// The product of the two terms.
    Prod(Box<RealTerm>, Box<RealTerm>),
}

/// A statement about the values of the variables.
#[derive(Debug)]
pub enum Formula {
    Truth(bool),
    /// All parts hold.
    And(Vec<Formula>),
    /// Some part holds.
    Or(Vec<Formula>),
    Not(Box<Formula>),
    Implies(Box<Formula>, Box<Formula>),
    IntGt(IntTerm, IntTerm),
    IntGe(IntTerm, IntTerm),
    IntLe(IntTerm, IntTerm),
    IntEq(IntTerm, IntTerm),
    RealGt(RealTerm, RealTerm),
    RealGe(RealTerm, RealTerm),
    RealEq(RealTerm, RealTerm),
    /// The statement holds whatever integers the named variables take.
    ForAll(Vec<String>, Box<Formula>),
    /// The statement holds for some integers in place of the named
    /// variables.
    Exists(Vec<String>, Box<Formula>),
}

/// A value for every variable.
pub struct Valuation {
    pub ints: Map<Seq<char>, int>,
    pub reals: Map<Seq<char>, real>,
}

/// The names in `names`, as sequences of characters.
pub open spec fn name_seq(names: Seq<String>) -> Seq<Seq<char>> {
    Seq::new(names.len(), |i: int| names[i]@)
}

/// `w` differs from `v` at most in the integer variables named in `names`.
pub open spec fn agree_outside(v: Valuation, w: Valuation, names: Seq<Seq<char>>) -> bool {
    &&& w.reals == v.reals
    &&& forall|n: Seq<char>| !names.contains(n) ==> w.ints[n] == v.ints[n]
}

/// The value of `t` under `v`.
pub open spec fn int_value(t: IntTerm, v: Valuation) -> int
    decreases t,
{
    match t {
        IntTerm::Lit(n) => n as int,
        IntTerm::Var(name) => v.ints[name@],
        IntTerm::Sum(ts) => int_sum(ts@, ts@.len(), v),
        IntTerm::Diff(a, b) => int_value(*a, v) - int_value(*b, v),
        IntTerm::Prod(a, b) => int_value(*a, v) * int_value(*b, v),
        IntTerm::Quot(a, b) => int_value(*a, v) / int_value(*b, v),
        IntTerm::IfGreater(a, b, x, y) => if int_value(*a, v) > int_value(*b, v) {
            int_value(*x, v)
        } else {
            int_value(*y, v)
        },
    }
}

/// The sum of the values of the first `n` terms of `ts`.
pub open spec fn int_sum(ts: Seq<IntTerm>, n: nat, v: Valuation) -> int
    decreases ts, n,
{
    if n == 0 || n > ts.len() {
        0
    } else {
        int_sum(ts, (n - 1) as nat, v) + int_value(ts[n - 1], v)
    }
}

/// The value of `t` under `v`.
pub open spec fn real_value(t: RealTerm, v: Valuation) -> real
    decreases t,
{
    match t {
        RealTerm::OfInt(a) => int_value(a, v) as real,
        RealTerm::Var(name) => v.reals[name@],
        RealTerm::Sum(ts) => real_sum(ts@, ts@.len(), v),
        RealTerm::Prod(a, b) => real_value(*a, v) * real_value(*b, v),
    }
}

/// The sum of the values of the first `n` terms of `ts`.
pub open spec fn real_sum(ts: Seq<RealTerm>, n: nat, v: Valuation) -> real
    decreases ts, n,
{
    if n == 0 || n > ts.len() {
        0real
    } else {
        real_sum(ts, (n - 1) as nat, v) + real_value(ts[n - 1], v)
    }
}

/// Whether `f` holds under `v`.
pub open spec fn holds(f: Formula, v: Valuation) -> bool
    decreases f,
{
    match f {
        Formula::Truth(b) => b,
        Formula::And(fs) => forall|i: int| #![trigger fs@[i]] 0 <= i < fs@.len() ==> holds(fs@[i], v),
        Formula::Or(fs) => exists|i: int| #![trigger fs@[i]] 0 <= i < fs@.len() && holds(fs@[i], v),
        Formula::Not(a) => !holds(*a, v),
        Formula::Implies(a, b) => holds(*a, v) ==> holds(*b, v),
        Formula::IntGt(a, b) => int_value(a, v) > int_value(b, v),
        Formula::IntGe(a, b) => int_value(a, v) >= int_value(b, v),
        Formula::IntLe(a, b) => int_value(a, v) <= int_value(b, v),
        Formula::IntEq(a, b) => int_value(a, v) == int_value(b, v),
        Formula::RealGt(a, b) => real_value(a, v) > real_value(b, v),
        Formula::RealGe(a, b) => real_value(a, v) >= real_value(b, v),
        Formula::RealEq(a, b) => real_value(a, v) == real_value(b, v),
        Formula::ForAll(names, a) => forall|w: Valuation| #[trigger]
            agree_outside(v, w, name_seq(names@)) ==> holds(*a, w),
        Formula::Exists(names, a) => exists|w: Valuation| #[trigger]
            agree_outside(v, w, name_seq(names@)) && holds(*a, w),
    }
}

/// The statement that all of `parts` hold.
pub fn all_of(parts: Vec<Formula>) -> (f: Formula)
    ensures
        f == Formula::And(parts),
        forall|v: Valuation| #[trigger]
            holds(f, v) <==> forall|i: int| 0 <= i < parts@.len() ==> holds(#[trigger] parts@[i], v),
{
    let f = Formula::And(parts);
    assert(f matches Formula::And(fs) && fs == parts);
    f
}

/// The statement that one of `parts` holds.
pub fn any_of(parts: Vec<Formula>) -> (f: Formula)
    ensures
        f == Formula::Or(parts),
        forall|v: Valuation| #[trigger]
            holds(f, v) <==> exists|i: int| 0 <= i < parts@.len() && holds(#[trigger] parts@[i], v),
{
    let f = Formula::Or(parts);
    assert(f matches Formula::Or(fs) && fs == parts);
    f
}

/// The statement that `body` holds whatever integers the variables
/// named in `names` take.
pub fn for_all(names: Vec<String>, body: Formula) -> (f: Formula)
    ensures
        forall|v: Valuation| #[trigger]
            holds(f, v) <==> forall|w: Valuation| #[trigger]
                agree_outside(v, w, name_seq(names@)) ==> holds(body, w),
{
    let f = Formula::ForAll(names, Box::new(body));
    assert(f matches Formula::ForAll(ns, b) && ns == names && *b == body);
    f
}

/// The statement that `body` holds for some integers in place of the
/// variables named in `names`.
pub fn for_some(names: Vec<String>, body: Formula) -> (f: Formula)
    ensures
        forall|v: Valuation| #[trigger]
            holds(f, v) <==> exists|w: Valuation| #[trigger]
                agree_outside(v, w, name_seq(names@)) && holds(body, w),
{
    let f = Formula::Exists(names, Box::new(body));
    assert(f matches Formula::Exists(ns, b) && ns == names && *b == body);
    f
}

/// The statement that `a` and `b` hold.
pub fn both(a: Formula, b: Formula) -> (f: Formula)
    ensures
        forall|v: Valuation| #[trigger] holds(f, v) <==> (holds(a, v) && holds(b, v)),
{
    let mut parts: Vec<Formula> = Vec::new();
    parts.push(a);
    parts.push(b);
    let ghost ps = parts@;
    let f = all_of(parts);
    proof {
        assert forall|v: Valuation| #[trigger] holds(f, v) <==> (holds(a, v) && holds(b, v)) by {
            if holds(f, v) {
                assert(holds(ps[0], v));
                assert(holds(ps[1], v));
            }
        }
    }
    f
}

/// The statement that `a` does not hold.
pub fn negation(a: Formula) -> (f: Formula)
    ensures
        forall|v: Valuation| #[trigger] holds(f, v) <==> !holds(a, v),
{
    Formula::Not(Box::new(a))
}

/// The statement that `b` holds where `a` does.
pub fn implication(a: Formula, b: Formula) -> (f: Formula)
    ensures
        forall|v: Valuation| #[trigger] holds(f, v) <==> (holds(a, v) ==> holds(b, v)),
{
    Formula::Implies(Box::new(a), Box::new(b))
}

/// The sum of `parts`.
pub fn int_total(parts: Vec<IntTerm>) -> (t: IntTerm)
    ensures
        forall|v: Valuation| #[trigger] int_value(t, v) == int_sum(parts@, parts@.len(), v),
{
    let t = IntTerm::Sum(parts);
    assert(t matches IntTerm::Sum(ts) && ts == parts);
    t
}

/// The sum of `parts`.
pub fn real_total(parts: Vec<RealTerm>) -> (t: RealTerm)
    ensures
        forall|v: Valuation| #[trigger] real_value(t, v) == real_sum(parts@, parts@.len(), v),
{
    let t = RealTerm::Sum(parts);
    assert(t matches RealTerm::Sum(ts) && ts == parts);
    t
}

/// The number `n`.
pub fn int_lit(n: i64) -> (t: IntTerm)
    ensures
        forall|v: Valuation| #[trigger] int_value(t, v) == n,
{
    IntTerm::Lit(n)
}

/// The variable with the name `name`.
pub fn int_var(name: String) -> (t: IntTerm)
    ensures
        forall|v: Valuation| #[trigger] int_value(t, v) == v.ints[name@],
{
    IntTerm::Var(name)
}

/// `a` minus `b`.
pub fn int_diff(a: IntTerm, b: IntTerm) -> (t: IntTerm)
    ensures
        forall|v: Valuation| #[trigger] int_value(t, v) == int_value(a, v) - int_value(b, v),
{
    IntTerm::Diff(Box::new(a), Box::new(b))
}

/// `a` times `b`.
pub fn int_prod(a: IntTerm, b: IntTerm) -> (t: IntTerm)
    ensures
        forall|v: Valuation| #[trigger] int_value(t, v) == int_value(a, v) * int_value(b, v),
{
    IntTerm::Prod(Box::new(a), Box::new(b))
}

/// `a` divided by `b`; the remainder is not negative.
pub fn int_quot(a: IntTerm, b: IntTerm) -> (t: IntTerm)
    ensures
        forall|v: Valuation| #[trigger] int_value(t, v) == int_value(a, v) / int_value(b, v),
{
    IntTerm::Quot(Box::new(a), Box::new(b))
}

/// `x` where `a` is greater than `b`, else `y`.
pub fn int_if_greater(a: IntTerm, b: IntTerm, x: IntTerm, y: IntTerm) -> (t: IntTerm)
    ensures
        forall|v: Valuation| #[trigger]
            int_value(t, v) == if int_value(a, v) > int_value(b, v) {
                int_value(x, v)
            } else {
                int_value(y, v)
            },
{
    IntTerm::IfGreater(Box::new(a), Box::new(b), Box::new(x), Box::new(y))
}

/// The integer term `a` as a real one.
pub fn real_of_int(a: IntTerm) -> (t: RealTerm)
    ensures
        forall|v: Valuation| #[trigger] real_value(t, v) == int_value(a, v) as real,
{
    RealTerm::OfInt(a)
}

/// The real variable with the name `name`.
pub fn real_var(name: String) -> (t: RealTerm)
    ensures
        forall|v: Valuation| #[trigger] real_value(t, v) == v.reals[name@],
{
    RealTerm::Var(name)
}

/// `a` times `b`.
pub fn real_prod(a: RealTerm, b: RealTerm) -> (t: RealTerm)
    ensures
        forall|v: Valuation| #[trigger] real_value(t, v) == real_value(a, v) * real_value(b, v),
{
    RealTerm::Prod(Box::new(a), Box::new(b))
}

/// The statement that `a` is greater than `b`.
pub fn int_gt(a: IntTerm, b: IntTerm) -> (f: Formula)
    ensures
        forall|v: Valuation| #[trigger] holds(f, v) <==> int_value(a, v) > int_value(b, v),
{
    Formula::IntGt(a, b)
}

/// The statement that `a` is at least `b`.
pub fn int_ge(a: IntTerm, b: IntTerm) -> (f: Formula)
    ensures
        forall|v: Valuation| #[trigger] holds(f, v) <==> int_value(a, v) >= int_value(b, v),
{
    Formula::IntGe(a, b)
}

/// The statement that `a` is at most `b`.
pub fn int_le(a: IntTerm, b: IntTerm) -> (f: Formula)
    ensures
        forall|v: Valuation| #[trigger] holds(f, v) <==> int_value(a, v) <= int_value(b, v),
{
    Formula::IntLe(a, b)
}

/// The statement that `a` equals `b`.
pub fn int_eq(a: IntTerm, b: IntTerm) -> (f: Formula)
    ensures
        forall|v: Valuation| #[trigger] holds(f, v) <==> int_value(a, v) == int_value(b, v),
{
    Formula::IntEq(a, b)
}

/// The statement that `a` is greater than `b`.
pub fn real_gt(a: RealTerm, b: RealTerm) -> (f: Formula)
    ensures
        forall|v: Valuation| #[trigger] holds(f, v) <==> real_value(a, v) > real_value(b, v),
{
    Formula::RealGt(a, b)
}

/// The statement that `a` is at least `b`.
pub fn real_ge(a: RealTerm, b: RealTerm) -> (f: Formula)
    ensures
        forall|v: Valuation| #[trigger] holds(f, v) <==> real_value(a, v) >= real_value(b, v),
{
    Formula::RealGe(a, b)
}

/// The statement that `a` equals `b`.
pub fn real_eq(a: RealTerm, b: RealTerm) -> (f: Formula)
    ensures
        forall|v: Valuation| #[trigger] holds(f, v) <==> real_value(a, v) == real_value(b, v),
{
    Formula::RealEq(a, b)
}

/// A sum does not change where terms are added behind those it counts.
pub proof fn lemma_int_sum_prefix(ts: Seq<IntTerm>, t: IntTerm, n: nat, v: Valuation)
    requires
        n <= ts.len(),
    ensures
        int_sum(ts.push(t), n, v) == int_sum(ts, n, v),
    decreases n,
{
    if n > 0 {
        lemma_int_sum_prefix(ts, t, (n - 1) as nat, v);
        assert(ts.push(t)[n - 1] == ts[n - 1]);
    }
}

/// The sum of a sequence with one more term.
pub proof fn lemma_int_sum_push(ts: Seq<IntTerm>, t: IntTerm, v: Valuation)
    ensures
        int_sum(ts.push(t), ts.len() + 1, v) == int_sum(ts, ts.len(), v) + int_value(t, v),
{
    lemma_int_sum_prefix(ts, t, ts.len(), v);
    assert(ts.push(t)[ts.len() as int] == t);
}

/// A sum does not change where terms are added behind those it counts.
pub proof fn lemma_real_sum_prefix(ts: Seq<RealTerm>, t: RealTerm, n: nat, v: Valuation)
    requires
        n <= ts.len(),
    ensures
        real_sum(ts.push(t), n, v) == real_sum(ts, n, v),
    decreases n,
{
    if n > 0 {
        lemma_real_sum_prefix(ts, t, (n - 1) as nat, v);
        assert(ts.push(t)[n - 1] == ts[n - 1]);
    }
}

/// The sum of a sequence with one more term.
pub proof fn lemma_real_sum_push(ts: Seq<RealTerm>, t: RealTerm, v: Valuation)
    ensures
        real_sum(ts.push(t), ts.len() + 1, v) == real_sum(ts, ts.len(), v) + real_value(t, v),
{
    lemma_real_sum_prefix(ts, t, ts.len(), v);
    assert(ts.push(t)[ts.len() as int] == t);
}

/// `x` is a number of 128 bits.
pub open spec fn fits_wide(x: int) -> bool {
    i128::MIN <= x <= i128::MAX
}

/// What the evaluation of `t` gives: its value, where no variable and no
/// quotient has to be looked at and every number on the way is a number
/// of 128 bits. Of the two last parts of a choice only the chosen one is
/// looked at.
pub open spec fn int_result(t: IntTerm) -> Option<int>
    decreases t,
{
    match t {
        IntTerm::Lit(n) => Some(n as int),
        IntTerm::Var(_) => None,
        IntTerm::Sum(ts) => sum_result(ts@, ts@.len()),
        IntTerm::Diff(a, b) => match (int_result(*a), int_result(*b)) {
            (Some(x), Some(y)) => if fits_wide(x - y) {
                Some(x - y)
            } else {
                None
            },
            _ => None,
        },
        IntTerm::Prod(a, b) => match (int_result(*a), int_result(*b)) {
            (Some(x), Some(y)) => if fits_wide(x * y) {
                Some(x * y)
            } else {
                None
            },
            _ => None,
        },
        IntTerm::Quot(_, _) => None,
        IntTerm::IfGreater(a, b, x, y) => match (int_result(*a), int_result(*b)) {
            (Some(p), Some(q)) => if p > q {
                int_result(*x)
            } else {
                int_result(*y)
            },
            _ => None,
        },
    }
}

/// What the evaluation of the sum of the first `n` terms of `ts` gives:
/// the terms are added one after the other.
pub open spec fn sum_result(ts: Seq<IntTerm>, n: nat) -> Option<int>
    decreases ts, n,
{
    if n == 0 || n > ts.len() {
        Some(0)
    } else {
        match (sum_result(ts, (n - 1) as nat), int_result(ts[n - 1])) {
            (Some(s), Some(x)) => if fits_wide(s + x) {
                Some(s + x)
            } else {
                None
            },
            _ => None,
        }
    }
}

/// What the evaluation of `t` gives: that of the integer term that `t`
/// reads as a real number, and nothing for any other term.
pub open spec fn real_result(t: RealTerm) -> Option<int> {
    match t {
        RealTerm::OfInt(a) => int_result(a),
        _ => None,
    }
}

/// A sum that cannot be evaluated up to some term cannot be evaluated
/// beyond it.
pub proof fn lemma_sum_result_fails(ts: Seq<IntTerm>, k: nat, n: nat)
    requires
        k <= n <= ts.len(),
        sum_result(ts, k) is None,
    ensures
        sum_result(ts, n) is None,
    decreases n,
{
    if k < n {
        lemma_sum_result_fails(ts, k, (n - 1) as nat);
    }
}

/// What an evaluation gives is the value of the term, whatever the
/// variables stand for, and a number of 128 bits.
pub proof fn lemma_int_result(t: IntTerm, v: Valuation)
    ensures
        int_result(t) matches Some(x) ==> int_value(t, v) == x && fits_wide(x),
    decreases t,
{
    match t {
        IntTerm::Sum(ts) => {
            lemma_sum_result(ts@, ts@.len(), v);
        },
        IntTerm::Diff(a, b) => {
            lemma_int_result(*a, v);
            lemma_int_result(*b, v);
        },
        IntTerm::Prod(a, b) => {
            lemma_int_result(*a, v);
            lemma_int_result(*b, v);
        },
        IntTerm::IfGreater(a, b, x, y) => {
            lemma_int_result(*a, v);
            lemma_int_result(*b, v);
            lemma_int_result(*x, v);
            lemma_int_result(*y, v);
        },
        _ => {},
    }
}

/// What the evaluation of a sum gives is the sum of the values.
pub proof fn lemma_sum_result(ts: Seq<IntTerm>, n: nat, v: Valuation)
    requires
        n <= ts.len(),
    ensures
        sum_result(ts, n) matches Some(x) ==> int_sum(ts, n, v) == x && fits_wide(x),
    decreases ts, n,
{
    if n > 0 {
        lemma_sum_result(ts, (n - 1) as nat, v);
        lemma_int_result(ts[n - 1], v);
    }
}

impl IntTerm {
    /// The value of the term, where it can be computed without looking
    /// at a variable or a quotient and in numbers of 128 bits.
    pub fn evaluate(&self) -> (r: Option<i128>)
        ensures
            match r {
                Some(x) => int_result(*self) == Some(x as int),
                None => int_result(*self) is None,
            },
            r matches Some(x) ==> forall|v: Valuation| #[trigger] int_value(*self, v) == x,
        decreases self,
    {
        proof {
            assert forall|v: Valuation| int_result(*self) is Some implies #[trigger] int_value(
                *self,
                v,
            ) == int_result(*self).unwrap() by {
                lemma_int_result(*self, v);
            }
        }
        match self {
            IntTerm::Lit(n) => Some(*n as i128),
            IntTerm::Var(_) => None,
            IntTerm::Sum(ts) => {
                assert(*self matches IntTerm::Sum(xs) && xs == ts);
                let mut sum: i128 = 0;
                let mut i: usize = 0;
                while i < ts.len()
                    invariant
                        i <= ts.len(),
                        sum_result(ts@, i as nat) == Some(sum as int),
                    decreases ts.len() - i,
                {
                    let x = match ts[i].evaluate() {
                        Some(x) => x,
                        None => {
                            proof {
                                assert(sum_result(ts@, (i + 1) as nat) is None);
                                lemma_sum_result_fails(ts@, (i + 1) as nat, ts@.len());
                            }
                            return None;
                        },
                    };
                    let next = match sum.checked_add(x) {
                        Some(y) => y,
                        None => {
                            proof {
                                assert(!fits_wide(sum + x));
                                assert(sum_result(ts@, (i + 1) as nat) is None);
                                lemma_sum_result_fails(ts@, (i + 1) as nat, ts@.len());
                            }
                            return None;
                        },
                    };
                    proof {
                        assert(sum_result(ts@, (i + 1) as nat) == Some(next as int));
                    }
                    sum = next;
                    i += 1;
                }
                Some(sum)
            },
            IntTerm::Diff(a, b) => {
                assert(*self matches IntTerm::Diff(p, q) && p == a && q == b);
                let x = match a.evaluate() {
                    Some(x) => x,
                    None => {
                        return None;
                    },
                };
                let y = match b.evaluate() {
                    Some(y) => y,
                    None => {
                        return None;
                    },
                };
                x.checked_sub(y)
            },
            IntTerm::Prod(a, b) => {
                assert(*self matches IntTerm::Prod(p, q) && p == a && q == b);
                let x = match a.evaluate() {
                    Some(x) => x,
                    None => {
                        return None;
                    },
                };
                let y = match b.evaluate() {
                    Some(y) => y,
                    None => {
                        return None;
                    },
                };
                x.checked_mul(y)
            },
            IntTerm::Quot(_, _) => None,
            IntTerm::IfGreater(a, b, x, y) => {
                assert(*self matches IntTerm::IfGreater(p, q, s, t) && p == a && q == b && s == x
                    && t == y);
                let p = match a.evaluate() {
                    Some(p) => p,
                    None => {
                        return None;
                    },
                };
                let q = match b.evaluate() {
                    Some(q) => q,
                    None => {
                        return None;
                    },
                };
                if p > q {
                    x.evaluate()
                } else {
                    y.evaluate()
                }
            },
        }
    }
}

impl RealTerm {
    /// The value of a term that is an integer term read as a real
    /// number, where that term can be evaluated.
    pub fn evaluate(&self) -> (r: Option<i128>)
        ensures
            match r {
                Some(x) => real_result(*self) == Some(x as int),
                None => real_result(*self) is None,
            },
            r matches Some(x) ==> forall|v: Valuation| #[trigger] real_value(*self, v) == x as real,
    {
        match self {
            RealTerm::OfInt(a) => {
                assert(*self matches RealTerm::OfInt(p) && p == a);
                a.evaluate()
            },
            _ => None,
        }
    }
}

} // verus!
