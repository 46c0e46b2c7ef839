//! Peano naturals: an algebraic representation of the natural numbers as
//! zero or the successor of another natural, with structurally recursive
//! arithmetic. Independent of the Church encoding.

use vstd::prelude::*;

use std::ops::{Add, Mul, Sub};
use std::rc::Rc;

verus! {

/// A natural number: zero, or the successor of a natural number. The
/// predecessor inside a successor is shared through `Rc`.
#[derive(Debug)]
pub enum Peano {
    O,
    S(Rc<Peano>),
}

impl Peano {
    /// The natural number this value represents.
    pub open spec fn as_nat(self) -> nat
        decreases self,
    {
        match self {
            Peano::O => 0,
            Peano::S(p) => (*p).as_nat() + 1,
        }
    }

    /// The predecessor; zero has itself as predecessor.
    pub fn pred(self) -> (r: Self)
        ensures
            r.as_nat() == if self.as_nat() == 0 {
                0
            } else {
                self.as_nat() - 1
            },
    {
        match self {
            Peano::O => Peano::O,
            Peano::S(p) => (*p).clone(),
        }
    }

    /// The successor.
    pub fn succ(self) -> (r: Self)
        ensures
            r.as_nat() == self.as_nat() + 1,
    {
        Peano::S(Rc::new(self))
    }
}

impl Clone for Peano {
    /// An exact copy; the predecessor chain is shared, not rebuilt.
    fn clone(&self) -> (r: Self)
        ensures
            r == *self,
    {
        match self {
            Peano::O => Peano::O,
            Peano::S(p) => Peano::S(p.clone()),
        }
    }
}

/// The representation is canonical: two values denoting the same natural
/// number are equal.
pub proof fn lemma_as_nat_injective(a: &Peano, b: &Peano)
    requires
        a.as_nat() == b.as_nat(),
    ensures
        *a == *b,
    decreases *a,
{
    match (a, b) {
        (Peano::S(x), Peano::S(y)) => {
            lemma_as_nat_injective(&**x, &**y);
        },
        _ => {},
    }
}

/// The Peano value denoting `v`; by canonicity there is exactly one.
pub open spec fn peano_of(v: nat) -> Peano {
    choose|p: Peano| p.as_nat() == v
}

/// A value denoting `v` is the canonical one.
pub proof fn lemma_peano_of(r: &Peano, v: nat)
    requires
        r.as_nat() == v,
    ensures
        *r == peano_of(v),
        peano_of(v).as_nat() == v,
{
    assert(exists|p: Peano| p.as_nat() == v);
    let w = choose|p: Peano| p.as_nat() == v;
    lemma_as_nat_injective(r, &w);
}

fn peano_eq_rec(a: &Peano, b: &Peano) -> (r: bool)
    ensures
        r == (a.as_nat() == b.as_nat()),
    decreases *a,
{
    match (a, b) {
        (Peano::O, Peano::O) => true,
        (Peano::S(x), Peano::S(y)) => peano_eq_rec(&**x, &**y),
        _ => false,
    }
}

impl PartialEq for Peano {
    /// Structural comparison; by canonicity it decides whether the two
    /// values denote the same natural number.
    fn eq(&self, other: &Peano) -> (r: bool) {
        peano_eq_rec(self, other)
    }
}

impl vstd::std_specs::cmp::PartialEqSpecImpl for Peano {
    open spec fn obeys_eq_spec() -> bool {
        true
    }

    open spec fn eq_spec(&self, other: &Peano) -> bool {
        self.as_nat() == other.as_nat()
    }
}

impl From<usize> for Peano {
    /// The value denoting `value`: `O` under `value` successors.
    fn from(value: usize) -> (r: Peano) {
        let mut r = Peano::O;
        let mut i: usize = 0;
        while i < value
            invariant
                i <= value,
                r.as_nat() == i,
            decreases value - i,
        {
            r = r.succ();
            i = i + 1;
        }
        proof {
            lemma_peano_of(&r, value as nat);
        }
        r
    }
}

impl vstd::std_specs::convert::FromSpecImpl<usize> for Peano {
    open spec fn obeys_from_spec() -> bool {
        true
    }

    open spec fn from_spec(v: usize) -> Peano {
        peano_of(v as nat)
    }
}

impl Peano {
    /// The machine integer this value denotes, counted off one successor at
    /// a time.
    pub fn to_usize(&self) -> (r: usize)
        requires
            self.as_nat() <= usize::MAX,
        ensures
            r == self.as_nat(),
    {
        let mut count: usize = 0;
        let mut cur: &Peano = self;
        loop
            invariant
                count + cur.as_nat() == self.as_nat(),
                self.as_nat() <= usize::MAX,
            ensures
                count == self.as_nat(),
            decreases cur.as_nat(),
        {
            match cur {
                Peano::O => {
                    break;
                },
                Peano::S(p) => {
                    count = count + 1;
                    cur = &**p;
                },
            }
        }
        count
    }
}

fn peano_add_rec(a: Peano, b: Peano) -> (r: Peano)
    ensures
        r.as_nat() == a.as_nat() + b.as_nat(),
    decreases b.as_nat(),
{
    let b_is_zero = match &b {
        Peano::O => true,
        Peano::S(_) => false,
    };
    if b_is_zero {
        a
    } else {
        peano_add_rec(a.succ(), b.pred())
    }
}

impl Add for Peano {
    type Output = Peano;

    /// The value denoting the sum: move one successor at a time from the
    /// right operand onto the left until the right is exhausted.
    fn add(self, rhs: Peano) -> (r: Peano) {
        let ghost v = self.as_nat() + rhs.as_nat();
        let r = peano_add_rec(self, rhs);
        proof {
            lemma_peano_of(&r, v);
        }
        r
    }
}

impl vstd::std_specs::ops::AddSpecImpl for Peano {
    open spec fn obeys_add_spec() -> bool {
        true
    }

    open spec fn add_req(self, rhs: Peano) -> bool {
        true
    }

    open spec fn add_spec(self, rhs: Peano) -> Peano {
        peano_of(self.as_nat() + rhs.as_nat())
    }
}

fn peano_sub_rec(a: Peano, b: Peano) -> (r: Peano)
    ensures
        r.as_nat() == if a.as_nat() >= b.as_nat() {
            a.as_nat() - b.as_nat()
        } else {
            0
        },
    decreases a.as_nat(),
{
    match (&a, &b) {
        (Peano::O, _) => Peano::O,
        (_, Peano::O) => a,
        _ => peano_sub_rec(a.pred(), b.pred()),
    }
}

impl Sub for Peano {
    type Output = Peano;

    /// The value denoting the difference, with nothing below zero: there is
    /// no negative natural number, so subtracting past `O` yields `O`.
    fn sub(self, rhs: Peano) -> (r: Peano) {
        let ghost v = if self.as_nat() >= rhs.as_nat() {
            (self.as_nat() - rhs.as_nat()) as nat
        } else {
            0nat
        };
        let r = peano_sub_rec(self, rhs);
        proof {
            lemma_peano_of(&r, v);
        }
        r
    }
}

impl vstd::std_specs::ops::SubSpecImpl for Peano {
    open spec fn obeys_sub_spec() -> bool {
        true
    }

    open spec fn sub_req(self, rhs: Peano) -> bool {
        true
    }

    open spec fn sub_spec(self, rhs: Peano) -> Peano {
        peano_of(
            if self.as_nat() >= rhs.as_nat() {
                (self.as_nat() - rhs.as_nat()) as nat
            } else {
                0nat
            },
        )
    }
}

fn peano_mul_rec(a: Peano, b: Peano) -> (r: Peano)
    ensures
        r.as_nat() == a.as_nat() * b.as_nat(),
    decreases a.as_nat(),
{
    let a_is_zero = match &a {
        Peano::O => true,
        Peano::S(_) => false,
    };
    if a_is_zero {
        proof {
            assert(a.as_nat() * b.as_nat() == 0) by (nonlinear_arith)
                requires
                    a.as_nat() == 0,
            ;
        }
        Peano::O
    } else {
        let ghost av = a.as_nat();
        let ghost bv = b.as_nat();
        let partial = peano_mul_rec(a.pred(), b.clone());
        proof {
            assert((av - 1) * bv + bv == av * bv) by (nonlinear_arith)
                requires
                    av >= 1,
            ;
        }
        peano_add_rec(partial, b)
    }
}

impl Mul for Peano {
    type Output = Peano;

    /// The value denoting the product: the right operand added to the
    /// product of the left's predecessor with the right.
    fn mul(self, rhs: Peano) -> (r: Peano) {
        let ghost v = self.as_nat() * rhs.as_nat();
        let r = peano_mul_rec(self, rhs);
        proof {
            lemma_peano_of(&r, v);
        }
        r
    }
}

impl vstd::std_specs::ops::MulSpecImpl for Peano {
    open spec fn obeys_mul_spec() -> bool {
        true
    }

    open spec fn mul_req(self, rhs: Peano) -> bool {
        true
    }

    open spec fn mul_spec(self, rhs: Peano) -> Peano {
        peano_of(self.as_nat() * rhs.as_nat())
    }
}

} // verus!
