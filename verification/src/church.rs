//! Church encoding of the natural numbers.
//!
//! A Church numeral for `n` is, conceptually, the operation that turns any
//! endofunction `f : T -> T` into its `n`-fold composition `f^n`. Here a
//! numeral is a [`Church`] value: an immutable, reference-counted description
//! of such a composition. Arithmetic (`add`, `mult`, `exp`) only composes
//! descriptions — no integer is stored or inspected while composing — and
//! [`to_usize`] decodes a numeral by evaluating the composition it describes
//! and counting how many applications of the underlying endofunction it calls
//! for.

use vstd::prelude::*;

use core::marker::PhantomData;
use std::rc::Rc;

verus! {

/// Marker standing for the element type "endofunctions over `T`". The
/// exponent of [`exp`] is a numeral over this element type: raising `n` to
/// the power `m` means applying the operator "compose `n` times" — an
/// operation on endofunctions, not on `T` — a total of `m` times.
pub struct Endo<T> {
    marker: PhantomData<T>,
}

/// A Church numeral over the element type `T`.
///
/// Each variant describes how the numeral turns an endofunction `f` into a
/// composed endofunction; sub-numerals are shared through `Rc`, never copied,
/// so a numeral used by several composed results has a single representation.
pub enum Church<T> {
    /// Turns `f` into the identity: zero applications.
    Zero(PhantomData<T>),
    /// One application of `f` after what the inner numeral produces.
    Succ(Rc<Church<T>>),
    /// The applications of the first numeral, then those of the second.
    Sum(Rc<Church<T>>, Rc<Church<T>>),
    /// The composition produced by the first numeral, handed as the
    /// endofunction to the second: `(f^n)^m = f^(n*m)`.
    Prod(Rc<Church<T>>, Rc<Church<T>>),
    /// The first numeral raised to the second: `f^(n^m)`.
    Pow(Rc<Church<T>>, Rc<Church<T>>),
}

/// `b` to the power `e` over the natural numbers.
pub open spec fn npow(b: nat, e: nat) -> nat
    decreases e,
{
    if e == 0 {
        1
    } else {
        b * npow(b, (e - 1) as nat)
    }
}

impl<T> Church<T> {
    /// The natural number a numeral denotes: how many times it applies the
    /// endofunction it is given.
    pub open spec fn value(&self) -> nat
        decreases self,
    {
        match self {
            Church::Zero(_) => 0,
            Church::Succ(p) => (**p).value() + 1,
            Church::Sum(a, b) => (**a).value() + (**b).value(),
            Church::Prod(a, b) => (**a).value() * (**b).value(),
            Church::Pow(a, b) => npow((**a).value(), (**b).value()),
        }
    }
}

/// The numeral that applies `f` zero times: `f` becomes the identity.
pub fn zero<T>() -> (r: Church<T>)
    ensures
        r.value() == 0,
{
    Church::Zero(PhantomData)
}

/// The numeral that applies `f` once.
pub fn one<T>() -> (r: Church<T>)
    ensures
        r.value() == 1,
{
    succ(zero())
}

/// The numeral that applies `f` twice.
pub fn two<T>() -> (r: Church<T>)
    ensures
        r.value() == 2,
{
    succ(one())
}

/// The numeral that applies `f` three times.
pub fn three<T>() -> (r: Church<T>)
    ensures
        r.value() == 3,
{
    succ(two())
}

/// One application of `f` more than `n`: given `f`, first `n`'s composition
/// `f^n`, then `f` once on top. The operand is shared, not rebuilt.
pub fn succ<T>(n: Church<T>) -> (r: Church<T>)
    ensures
        r.value() == n.value() + 1,
{
    Church::Succ(Rc::new(n))
}

/// The numeral for `n`: `zero` with `succ` applied `n` times.
pub fn from_usize<T>(n: usize) -> (r: Church<T>)
    ensures
        r.value() == n,
{
    let mut result: Church<T> = zero();
    let mut i: usize = 0;
    while i < n
        invariant
            i <= n,
            result.value() == i,
        decreases n - i,
    {
        result = succ(result);
        i = i + 1;
    }
    result
}

/// `v` held to what a machine word can count: `v` itself up to
/// `usize::MAX`, and `usize::MAX` beyond it.
spec fn clip(v: nat) -> nat {
    if v <= usize::MAX {
        v
    } else {
        usize::MAX as nat
    }
}

proof fn lemma_clip_mul(x: nat, y: nat)
    ensures
        clip(clip(x) * clip(y)) == clip(x * y),
{
    let m = usize::MAX as nat;
    if x > m {
        if y == 0 {
            assert(x * y == 0) by (nonlinear_arith)
                requires
                    y == 0,
            ;
            assert(clip(x) * clip(y) == 0) by (nonlinear_arith)
                requires
                    clip(y) == 0,
            ;
        } else {
            assert(x * y >= x) by (nonlinear_arith)
                requires
                    y >= 1,
            ;
            assert(clip(x) * clip(y) >= clip(x)) by (nonlinear_arith)
                requires
                    clip(y) >= 1,
            ;
            assert(clip(clip(x) * clip(y)) == m);
            assert(clip(x * y) == m);
        }
    } else if y > m {
        if x == 0 {
            assert(x * y == 0) by (nonlinear_arith)
                requires
                    x == 0,
            ;
            assert(clip(x) * clip(y) == 0) by (nonlinear_arith)
                requires
                    clip(x) == 0,
            ;
        } else {
            assert(x * y >= y) by (nonlinear_arith)
                requires
                    x >= 1,
            ;
            assert(clip(x) * clip(y) >= clip(y)) by (nonlinear_arith)
                requires
                    clip(x) >= 1,
            ;
            assert(clip(clip(x) * clip(y)) == m);
            assert(clip(x * y) == m);
        }
    }
}

proof fn lemma_npow_one(e: nat)
    ensures
        npow(1, e) == 1,
    decreases e,
{
    if e > 0 {
        lemma_npow_one((e - 1) as nat);
    }
}

proof fn lemma_npow_pos(b: nat, e: nat)
    requires
        b >= 1,
    ensures
        npow(b, e) >= 1,
    decreases e,
{
    if e > 0 {
        lemma_npow_pos(b, (e - 1) as nat);
        assert(b * npow(b, (e - 1) as nat) >= 1 * 1) by (nonlinear_arith)
            requires
                b >= 1,
                npow(b, (e - 1) as nat) >= 1,
        ;
    }
}

proof fn lemma_npow_mono_exp(b: nat, e1: nat, e2: nat)
    requires
        b >= 1,
        e1 <= e2,
    ensures
        npow(b, e1) <= npow(b, e2),
    decreases e2,
{
    if e1 < e2 {
        lemma_npow_mono_exp(b, e1, (e2 - 1) as nat);
        assert(b * npow(b, (e2 - 1) as nat) >= 1 * npow(b, (e2 - 1) as nat)) by (nonlinear_arith)
            requires
                b >= 1,
        ;
    }
}

proof fn lemma_npow_ge_base(b: nat, e: nat)
    requires
        e >= 1,
    ensures
        npow(b, e) >= b,
{
    if b >= 1 {
        lemma_npow_pos(b, (e - 1) as nat);
        lemma_npow_mono_exp(b, 1, e);
        assert(npow(b, 0) == 1);
        assert(npow(b, 1) == b * npow(b, 0));
    }
}

proof fn lemma_npow_exceeds(b: nat, e: nat)
    requires
        b >= 2,
    ensures
        npow(b, e) >= e + 1,
    decreases e,
{
    if e > 0 {
        lemma_npow_exceeds(b, (e - 1) as nat);
        assert(b * npow(b, (e - 1) as nat) >= 2 * e) by (nonlinear_arith)
            requires
                b >= 2,
                npow(b, (e - 1) as nat) >= e,
        ;
    }
}

proof fn lemma_clip_npow(x: nat, y: nat)
    ensures
        clip(npow(clip(x), clip(y))) == clip(npow(x, y)),
{
    let m = usize::MAX as nat;
    if x > m {
        if y == 0 {
        } else {
            lemma_npow_ge_base(m, clip(y));
            lemma_npow_ge_base(x, 1);
            lemma_npow_mono_exp(x, 1, y);
        }
    } else if y > m {
        if x == 0 {
        } else if x == 1 {
            lemma_npow_one(m);
            lemma_npow_one(y);
        } else {
            lemma_npow_exceeds(x, m);
            lemma_npow_exceeds(x, y);
        }
    }
}

/// `base` to the power `e`, held to `usize::MAX`: repeated saturating
/// multiplication, stopped early once the bound is reached.
fn pow_sat(base: usize, e: usize) -> (r: usize)
    ensures
        r == clip(npow(base as nat, e as nat)),
{
    if base == 0 {
        if e == 0 {
            1
        } else {
            0
        }
    } else if base == 1 {
        proof {
            lemma_npow_one(e as nat);
        }
        1
    } else {
        let mut r: usize = 1;
        let mut i: usize = 0;
        while i < e
            invariant
                base >= 2,
                i <= e,
                r == clip(npow(base as nat, i as nat)),
            decreases e - i,
        {
            if r == usize::MAX {
                proof {
                    lemma_npow_mono_exp(base as nat, i as nat, e as nat);
                }
                return usize::MAX;
            }
            proof {
                lemma_clip_mul(npow(base as nat, i as nat), base as nat);
                assert(npow(base as nat, (i + 1) as nat) == npow(base as nat, i as nat) * (
                base as nat)) by (nonlinear_arith)
                    requires
                        npow(base as nat, (i + 1) as nat) == (base as nat) * npow(
                            base as nat,
                            i as nat,
                        ),
                ;
            }
            r = match r.checked_mul(base) {
                Some(x) => x,
                None => usize::MAX,
            };
            i = i + 1;
        }
        r
    }
}

/// How many applications of an endofunction the numeral calls for, held to
/// `usize::MAX`: the count a full replay of the composition would produce,
/// taken structurally — one step per successor layer, and sums, products and
/// powers of the operands' counts for the composed nodes.
fn count_sat<T>(n: &Church<T>) -> (r: usize)
    ensures
        r == clip(n.value()),
    decreases *n,
{
    match n {
        Church::Zero(_) => 0,
        Church::Succ(p) => {
            let c = count_sat(&**p);
            if c == usize::MAX {
                c
            } else {
                c + 1
            }
        },
        Church::Sum(a, b) => {
            let ca = count_sat(&**a);
            let cb = count_sat(&**b);
            match ca.checked_add(cb) {
                Some(s) => s,
                None => usize::MAX,
            }
        },
        Church::Prod(a, b) => {
            let ca = count_sat(&**a);
            let cb = count_sat(&**b);
            proof {
                lemma_clip_mul((**a).value(), (**b).value());
            }
            match ca.checked_mul(cb) {
                Some(p2) => p2,
                None => usize::MAX,
            }
        },
        Church::Pow(a, b) => {
            let ca = count_sat(&**a);
            let cb = count_sat(&**b);
            proof {
                lemma_clip_npow((**a).value(), (**b).value());
            }
            pow_sat(ca, cb)
        },
    }
}

/// `y` can result from applying `f` to `x` exactly `k` times.
pub open spec fn applies<T, F: Fn(T) -> T>(f: F, k: nat, x: T, y: T) -> bool
    decreases k,
{
    if k == 0 {
        y == x
    } else {
        exists|mid: T| applies(f, (k - 1) as nat, x, mid) && call_ensures(f, (mid,), y)
    }
}

impl<T> Church<T> {
    /// The one operation a numeral offers: hand it an endofunction `f` and a
    /// starting element, and it applies `f` exactly as many times as the
    /// numeral denotes.
    pub fn apply<F: Fn(T) -> T>(&self, f: F, x: T) -> (r: T)
        requires
            self.value() <= usize::MAX,
            forall|y: T| call_requires(f, (y,)),
        ensures
            applies(f, self.value(), x, r),
    {
        let ghost x0 = x;
        let k = count_sat(self);
        let mut cur = x;
        let mut i: usize = 0;
        while i < k
            invariant
                i <= k,
                k == self.value(),
                applies(f, i as nat, x0, cur),
                forall|y: T| call_requires(f, (y,)),
            decreases k - i,
        {
            let ghost prev = cur;
            cur = f(cur);
            proof {
                assert(applies(f, (i + 1) as nat, x0, cur)) by {
                    assert(applies(f, i as nat, x0, prev) && call_ensures(f, (prev,), cur));
                }
            }
            i = i + 1;
        }
        cur
    }
}

/// A numeral applied to a function that behaves as the identity behaves as
/// the identity itself, however many applications the numeral calls for.
pub proof fn lemma_applies_identity<T, F: Fn(T) -> T>(f: F, k: nat, x: T, y: T)
    requires
        forall|a: T, b: T| call_ensures(f, (a,), b) ==> b == a,
        applies(f, k, x, y),
    ensures
        y == x,
    decreases k,
{
    if k > 0 {
        let mid = choose|mid: T|
            applies(f, (k - 1) as nat, x, mid) && call_ensures(f, (mid,), y);
        lemma_applies_identity(f, (k - 1) as nat, x, mid);
    }
}

/// Decodes a numeral back to the machine integer it denotes, by evaluating
/// the composition it describes and counting the applications of the
/// endofunction. The numeral must denote a number a machine word can hold.
/// The evaluation recurses over the numeral's structure, so its depth follows
/// the numeral's: a successor chain built by `from_usize(k)` is `k` levels
/// deep.
pub fn to_usize<T>(n: Church<T>) -> (r: usize)
    requires
        n.value() <= usize::MAX,
    ensures
        r == n.value(),
{
    count_sat(&n)
}

/// The numeral for `n + m`: given `f`, the composition that applies `f` as
/// `n` directs and then as `m` directs. Both operands are shared, not
/// rebuilt.
pub fn add<T>(n: Church<T>, m: Church<T>) -> (r: Church<T>)
    ensures
        r.value() == n.value() + m.value(),
{
    Church::Sum(Rc::new(n), Rc::new(m))
}

/// The numeral for `n * m`: given `f`, hand the composition `f^n` to `m` as
/// the endofunction, so `f` is applied `n` times, `m` times over.
pub fn mult<T>(n: Church<T>, m: Church<T>) -> (r: Church<T>)
    ensures
        r.value() == n.value() * m.value(),
{
    Church::Prod(Rc::new(n), Rc::new(m))
}

/// The same numeral over another element type. A numeral never holds an
/// element; only the composition structure carries over.
fn retag<A, B>(n: &Church<A>) -> (r: Church<B>)
    ensures
        r.value() == n.value(),
    decreases *n,
{
    match n {
        Church::Zero(_) => Church::Zero(PhantomData),
        Church::Succ(p) => Church::Succ(Rc::new(retag(&**p))),
        Church::Sum(a, b) => Church::Sum(Rc::new(retag(&**a)), Rc::new(retag(&**b))),
        Church::Prod(a, b) => Church::Prod(Rc::new(retag(&**a)), Rc::new(retag(&**b))),
        Church::Pow(a, b) => Church::Pow(Rc::new(retag(&**a)), Rc::new(retag(&**b))),
    }
}

/// The numeral for `n` raised to `m`. The exponent is a numeral over the
/// endofunctions of `T`: it applies the operator "compose `n` times" `m`
/// times, which is what raising to the power `m` means here.
pub fn exp<T>(n: Church<T>, m: Church<Endo<T>>) -> (r: Church<T>)
    ensures
        r.value() == npow(n.value(), m.value()),
{
    Church::Pow(Rc::new(n), Rc::new(retag(&m)))
}

/// Adding a numeral that denotes zero changes nothing: `add(n, z)` decodes
/// to what `n` decodes to.
pub proof fn lemma_add_identity<T>(n: Church<T>, z: Church<T>)
    requires
        z.value() == 0,
    ensures
        n.value() + z.value() == n.value(),
{
}

/// Addition is commutative: `add(n, m)` and `add(m, n)` decode to the same
/// number, although the compositions they build differ in order.
pub proof fn lemma_add_commutative<T>(n: Church<T>, m: Church<T>)
    ensures
        n.value() + m.value() == m.value() + n.value(),
{
}

/// Multiplying by a numeral that denotes one changes nothing: `mult(n, o)`
/// decodes to what `n` decodes to.
pub proof fn lemma_mult_identity<T>(n: Church<T>, o: Church<T>)
    requires
        o.value() == 1,
    ensures
        n.value() * o.value() == n.value(),
{
}

/// Multiplying by a numeral that denotes zero yields zero: `mult(n, z)`
/// decodes to zero.
pub proof fn lemma_mult_zero<T>(n: Church<T>, z: Church<T>)
    requires
        z.value() == 0,
    ensures
        n.value() * z.value() == 0,
{
}

/// Multiplication distributes over addition: `mult(n, add(a, b))` and
/// `add(mult(n, a), mult(n, b))` decode to the same number.
pub proof fn lemma_mult_distributive<T>(n: Church<T>, a: Church<T>, b: Church<T>)
    ensures
        n.value() * (a.value() + b.value()) == n.value() * a.value() + n.value() * b.value(),
{
    assert(n.value() * (a.value() + b.value()) == n.value() * a.value() + n.value() * b.value())
        by (nonlinear_arith);
}

} // verus!
