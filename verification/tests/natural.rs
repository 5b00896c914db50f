use task_scheduler::natural::Natural;

#[test]
fn one_exceeds_nothing_but_zero() {
    let one = Natural::one();
    let zero = one.times(0);
    assert!(one.exceeds(&zero));
    assert!(!zero.exceeds(&one));
    assert!(!one.exceeds(&Natural::one()));
}

#[test]
fn times_multiplies() {
    let six = Natural::one().times(2).times(3);
    let seven = Natural::one().times(7);
    let also_six = Natural::one().times(6);
    assert!(seven.exceeds(&six));
    assert!(!six.exceeds(&seven));
    assert!(!six.exceeds(&also_six));
    assert!(!also_six.exceeds(&six));
}

#[test]
fn products_beyond_the_machine_integers_are_compared_exactly() {
    let big = u64::MAX;
    let left = Natural::product_of(&vec![big, big, big], &vec![big, 3]);
    let right = Natural::product_of(&vec![big, big], &vec![big, big, 3]);
    assert!(!left.exceeds(&right));
    assert!(!right.exceeds(&left));
    let more = right.times(1).times(2);
    assert!(more.exceeds(&left));
    assert!(!left.exceeds(&more));
    let less = Natural::product_of(&vec![big, big, big], &vec![big - 1, 3]);
    assert!(left.exceeds(&less));
    assert!(!less.exceeds(&left));
}

#[test]
fn a_carry_runs_through_all_limbs() {
    let mut high = Natural::one();
    for _ in 0..5 {
        high = high.times(u64::MAX);
    }
    let above = Natural::product_of(&vec![1 << 63, 1 << 63, 1 << 63, 1 << 63, 1 << 63], &vec![32]);
    assert!(above.exceeds(&high));
    assert!(!high.exceeds(&above));
}

#[test]
fn an_empty_product_is_one() {
    let empty = Natural::product_of(&vec![], &vec![]);
    assert!(!empty.exceeds(&Natural::one()));
    assert!(!Natural::one().exceeds(&empty));
}

#[test]
fn zeros_on_top_do_not_count() {
    let zero_long = Natural::one().times(u64::MAX).times(u64::MAX).times(0);
    let one = Natural::one();
    assert!(one.exceeds(&zero_long));
    assert!(!zero_long.exceeds(&one));
}
