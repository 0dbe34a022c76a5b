use numcalc::arith::ArithError;
use numcalc::factor::{factor, prime_powers, trydiv, Power};
use numcalc::partition::{check_showvec, is_unique, next_partition, partition};
use numcalc::request::{check_args, check_max};

fn is_prime(p: u64) -> bool {
    p >= 2 && (2..p).take_while(|d| d * d <= p).all(|d| p % d != 0)
}

#[test]
fn factor_of_360() {
    assert_eq!(factor(360), vec![2, 2, 2, 3, 3, 5]);
}

#[test]
fn factor_of_prime() {
    assert_eq!(factor(97), vec![97]);
}

#[test]
fn factor_of_zero_and_one() {
    assert_eq!(factor(0), Vec::<u64>::new());
    assert_eq!(factor(1), Vec::<u64>::new());
}

#[test]
fn factor_product_primes_and_order() {
    for n in 2u64..2000 {
        let fs = factor(n);
        assert_eq!(fs.iter().product::<u64>(), n);
        assert!(fs.iter().all(|&p| is_prime(p)));
        assert!(fs.windows(2).all(|w| w[0] <= w[1]));
    }
}

#[test]
fn factor_large_values() {
    assert_eq!(factor(1_000_000_007), vec![1_000_000_007]);
    assert_eq!(factor(4_294_967_296), vec![2; 32]);
    assert_eq!(factor(600_851_475_143), vec![71, 839, 1471, 6857]);
    assert_eq!(factor(u64::MAX), vec![3, 5, 17, 257, 641, 65537, 6700417]);
}

#[test]
fn trydiv_divides_out_all_copies() {
    let mut x: u64 = 360;
    let mut out: Vec<u64> = vec![7];
    trydiv(2, &mut x, &mut out);
    assert_eq!(x, 45);
    assert_eq!(out, vec![7, 2, 2, 2]);
    trydiv(2, &mut x, &mut out);
    assert_eq!(x, 45);
    assert_eq!(out, vec![7, 2, 2, 2]);
}

#[test]
fn prime_powers_groups_runs() {
    let ps = prime_powers(&factor(360));
    assert_eq!(
        ps,
        vec![
            Power { base: 2, exponent: 3 },
            Power { base: 3, exponent: 2 },
            Power { base: 5, exponent: 1 }
        ]
    );
    assert_eq!(prime_powers(&vec![]), vec![]);
}

#[test]
fn partitions_of_five_into_two() {
    assert_eq!(partition(2, 5, 5, false), vec![vec![4, 1], vec![3, 2]]);
}

#[test]
fn partitions_of_five_into_two_distinct() {
    assert_eq!(partition(2, 5, 5, true), vec![vec![4, 1], vec![3, 2]]);
}

#[test]
fn partitions_of_four_with_max_two() {
    assert_eq!(partition(2, 2, 4, false), vec![vec![2, 2]]);
}

#[test]
fn partitions_of_one() {
    assert_eq!(partition(1, 1, 1, false), vec![vec![1]]);
    assert_eq!(partition(2, 1, 1, false), Vec::<Vec<u64>>::new());
}

#[test]
fn partitions_all_ones_emitted_last() {
    assert_eq!(partition(4, 4, 4, false), vec![vec![1, 1, 1, 1]]);
    assert_eq!(partition(4, 1, 4, true), Vec::<Vec<u64>>::new());
}

fn brute_force(n: u64, largest: u64, prefix: &mut Vec<u64>, all: &mut Vec<Vec<u64>>) {
    if n == 0 {
        all.push(prefix.clone());
        return;
    }
    let mut p = largest.min(n);
    while p >= 1 {
        prefix.push(p);
        brute_force(n - p, p, prefix, all);
        prefix.pop();
        p -= 1;
    }
}

#[test]
fn partitions_match_brute_force() {
    for n in 1u64..=10 {
        let mut all = vec![];
        brute_force(n, n, &mut vec![], &mut all);
        for count in 0..=n + 1 {
            for max in 0..=n + 1 {
                for uniquify in [false, true] {
                    let want: Vec<Vec<u64>> = all
                        .iter()
                        .filter(|p| {
                            p.len() as u64 == count
                                && p.iter().all(|&x| x <= max)
                                && (!uniquify || p.windows(2).all(|w| w[0] != w[1]))
                        })
                        .cloned()
                        .collect();
                    assert_eq!(partition(count, max, n, uniquify), want);
                }
            }
        }
    }
}

#[test]
fn partition_counts() {
    let total: usize = (1..=6).map(|c| partition(c, 6, 6, false).len()).sum();
    assert_eq!(total, 11);
    assert_eq!(partition(3, 10, 10, false).len(), 8);
    assert_eq!(partition(3, 10, 10, true).len(), 4);
}

#[test]
fn next_partition_steps() {
    let mut v: Vec<u64> = vec![5];
    next_partition(&mut v, 5);
    assert_eq!(v, vec![4, 1]);
    next_partition(&mut v, 5);
    assert_eq!(v, vec![3, 2]);
    next_partition(&mut v, 5);
    assert_eq!(v, vec![3, 1, 1]);
    next_partition(&mut v, 5);
    assert_eq!(v, vec![2, 2, 1]);
    next_partition(&mut v, 5);
    assert_eq!(v, vec![2, 1, 1, 1]);
    next_partition(&mut v, 5);
    assert_eq!(v, vec![1, 1, 1, 1, 1]);
}

#[test]
fn uniqueness_ignores_order() {
    assert!(is_unique(&vec![3, 2, 1]));
    assert!(is_unique(&vec![1, 3, 2]));
    assert!(!is_unique(&vec![2, 1, 2]));
    assert!(!is_unique(&vec![2, 2, 1]));
    assert!(is_unique(&vec![]));
}

#[test]
fn filter_checks_count_max_and_uniqueness() {
    assert!(check_showvec(2, 4, &vec![4, 1], false));
    assert!(!check_showvec(3, 4, &vec![4, 1], false));
    assert!(!check_showvec(2, 3, &vec![4, 1], false));
    assert!(check_showvec(2, 2, &vec![2, 2], false));
    assert!(!check_showvec(2, 2, &vec![2, 2], true));
}

#[test]
fn add_sums_operands() {
    assert_eq!(numcalc::arith::add(vec![3, 4, 5]), Ok(12));
    assert_eq!(numcalc::arith::add(vec![]), Ok(0));
    assert_eq!(numcalc::arith::add(vec![u64::MAX, 0]), Ok(u64::MAX));
    assert_eq!(numcalc::arith::add(vec![u64::MAX, 1]), Err(ArithError::Overflow));
}

#[test]
fn mul_multiplies_operands() {
    assert_eq!(numcalc::arith::mul(vec![3, 4, 5]), Ok(60));
    assert_eq!(numcalc::arith::mul(vec![]), Ok(1));
    assert_eq!(numcalc::arith::mul(vec![1 << 32, 1 << 32]), Err(ArithError::Overflow));
    assert_eq!(numcalc::arith::mul(vec![1 << 32, 1 << 32, 0]), Ok(0));
    assert_eq!(numcalc::arith::mul(vec![1 << 32, (1 << 32) - 1]), Ok(u64::MAX - (1 << 32) + 1));
}

#[test]
fn subtract_fails_when_negative() {
    assert_eq!(numcalc::arith::subtract(vec![3, 4, 5]), Err(ArithError::Underflow));
}

#[test]
fn subtract_takes_rest_from_largest() {
    assert_eq!(numcalc::arith::subtract(vec![3, 10, 4]), Ok(3));
    assert_eq!(numcalc::arith::subtract(vec![7]), Ok(7));
    assert_eq!(numcalc::arith::subtract(vec![5, 5]), Ok(0));
    assert_eq!(numcalc::arith::subtract(vec![u64::MAX, u64::MAX, u64::MAX]), Err(ArithError::Underflow));
    assert_eq!(numcalc::arith::subtract(vec![]), Err(ArithError::NoOperands));
}

#[test]
fn request_checks() {
    assert!(!check_max(0));
    assert!(check_max(3));
    assert!(check_args(&vec![1, 2], 2));
    assert!(!check_args(&vec![1], 2));
}
