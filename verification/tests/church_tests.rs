use church_encoding::church::{
    exp, from_usize, mult, one, succ, three, to_usize, two, zero, Church, Endo,
};

type T = ();

fn id(n: usize) -> usize {
    to_usize(from_usize::<()>(n))
}

#[test]
pub fn check_identity() {
    assert_eq!(5, id(5));
}

#[test]
pub fn check_zero() {
    assert_eq!(0, to_usize(zero::<T>()));
}

#[test]
pub fn check_one() {
    assert_eq!(1, to_usize(one::<T>()));
}

#[test]
pub fn check_two() {
    assert_eq!(2, to_usize(two::<T>()));
}

#[test]
pub fn check_three() {
    assert_eq!(3, to_usize(three::<T>()))
}

#[test]
pub fn zero_succ_is_one() {
    assert_eq!(to_usize(one::<T>()), to_usize(succ(zero::<T>())))
}

#[test]
pub fn one_succ_is_two() {
    assert_eq!(to_usize(two::<T>()), to_usize(succ(one::<T>())))
}

#[test]
pub fn two_succ_is_three() {
    assert_eq!(to_usize(three::<T>()), to_usize(succ(two::<T>())))
}

#[test]
pub fn plus_one_is_succ_once() {
    assert_eq!(
        to_usize(church_encoding::church::add(two::<T>(), one::<T>())),
        to_usize(succ(two::<T>()))
    )
}

#[test]
pub fn plus_two_is_succ_twice() {
    assert_eq!(
        to_usize(church_encoding::church::add(one::<T>(), two::<T>())),
        to_usize(succ(succ(one::<T>())))
    )
}

#[test]
pub fn two_plus_two_is_two_times_two() {
    assert_eq!(
        to_usize(church_encoding::church::add(two::<T>(), two::<T>())),
        to_usize(mult(two::<T>(), two::<T>()))
    )
}

#[test]
pub fn church_add_1_2() {
    let church_three: Church<T> = church_encoding::church::add(one::<T>(), two::<T>());
    assert_eq!(to_usize(church_three), 3)
}

#[test]
pub fn church_mult_2_3() {
    let church_six: Church<T> = from_usize(6);
    assert_eq!(
        to_usize(church_six),
        to_usize(mult(two::<T>(), three::<T>()))
    );
}

#[test]
pub fn church_exp_2_3() {
    let church_eight: Church<T> = from_usize(8);
    assert_eq!(to_usize(church_eight), to_usize(exp(two::<T>(), three())));
}

#[test]
pub fn church_exp_3_5() {
    let church_3: Church<T> = from_usize(3);
    let church_5: Church<Endo<T>> = from_usize(5);
    let church_243: Church<T> = from_usize(243);
    assert_eq!(to_usize(church_243), to_usize(exp(church_3, church_5)))
}

#[test]
pub fn round_trip_small_range() {
    for k in 0..100 {
        assert_eq!(to_usize(from_usize::<T>(k)), k);
    }
}

#[test]
pub fn round_trip_deep_chain() {
    assert_eq!(to_usize(from_usize::<T>(1000)), 1000);
}

#[test]
pub fn succ_decodes_one_more() {
    for k in 0..20 {
        let n: Church<T> = from_usize(k);
        assert_eq!(to_usize(succ(n)), k + 1);
    }
}

#[test]
pub fn add_zero_is_identity() {
    let n: Church<T> = from_usize(7);
    assert_eq!(to_usize(church_encoding::church::add(n, zero())), 7);
}

#[test]
pub fn add_commutes() {
    let a = to_usize(church_encoding::church::add(from_usize::<T>(4), from_usize::<T>(9)));
    let b = to_usize(church_encoding::church::add(from_usize::<T>(9), from_usize::<T>(4)));
    assert_eq!(a, b);
    assert_eq!(a, 13);
}

#[test]
pub fn mult_one_is_identity() {
    let n: Church<T> = from_usize(7);
    assert_eq!(to_usize(mult(n, one())), 7);
}

#[test]
pub fn mult_zero_is_zero() {
    let n: Church<T> = from_usize(7);
    assert_eq!(to_usize(mult(n, zero())), 0);
}

#[test]
pub fn mult_distributes_over_add() {
    let lhs = mult(
        from_usize::<T>(3),
        church_encoding::church::add(from_usize::<T>(4), from_usize::<T>(5)),
    );
    let rhs = church_encoding::church::add(
        mult(from_usize::<T>(3), from_usize::<T>(4)),
        mult(from_usize::<T>(3), from_usize::<T>(5)),
    );
    assert_eq!(to_usize(lhs), to_usize(rhs));
    assert_eq!(to_usize(mult(
        from_usize::<T>(3),
        church_encoding::church::add(from_usize::<T>(4), from_usize::<T>(5)),
    )), 27);
}

#[test]
pub fn exp_with_zero_exponent_is_one() {
    let n: Church<T> = from_usize(7);
    assert_eq!(to_usize(exp(n, zero())), 1);
    assert_eq!(to_usize(exp(zero::<T>(), zero())), 1);
}

#[test]
pub fn exp_of_zero_base_is_zero() {
    let e: Church<Endo<T>> = from_usize(4);
    assert_eq!(to_usize(exp(zero::<T>(), e)), 0);
}

#[test]
pub fn apply_runs_the_endofunction() {
    let n: Church<u64> = from_usize(5);
    assert_eq!(n.apply(|v: u64| v + 1, 0), 5);
    let m = mult(two::<u64>(), three::<u64>());
    assert_eq!(m.apply(|v: u64| v * 2, 1), 64);
    let e = exp(two::<u64>(), three::<Endo<u64>>());
    assert_eq!(e.apply(|v: u64| v + 3, 1), 25);
}

#[test]
pub fn exp_works_over_another_element_type() {
    let n: Church<u64> = from_usize(5);
    let e: Church<Endo<u64>> = from_usize(2);
    assert_eq!(to_usize(exp(n, e)), 25);
}
