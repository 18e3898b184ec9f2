use rustlabs::arrays::{
    add_two, create_array_1, create_array_2, create_vec_empty, create_vec_macro_1,
    create_vec_macro_2, set_to_one,
};
use rustlabs::division::{divide_exact, divide_gcd, GCDError};
use rustlabs::exercises::{double_ref, FizzBuzz};
use rustlabs::factorial::{
    checked_factorial, factorial_for, factorial_recursive, factorial_while, iterator_factorial,
};
use rustlabs::generics::{
    cast, clone, demo_impl, is_default, make_pair, make_some, name_vec_impl, Alpha, Beta, Name,
    OneTwo, Value,
};
use rustlabs::primes::{n_primes, nth_prime};

#[test]
fn test_factorial_recursive() {
    assert_eq!(factorial_recursive(0), 1);
    assert_eq!(factorial_recursive(1), 1);
    assert_eq!(factorial_recursive(3), 6);
    assert_eq!(factorial_recursive(5), 120);
    assert_eq!(factorial_recursive(10), 3628800);
}

#[test]
fn test_factorial_while() {
    assert_eq!(factorial_while(0), 1);
    assert_eq!(factorial_while(1), 1);
    assert_eq!(factorial_while(3), 6);
    assert_eq!(factorial_while(5), 120);
    assert_eq!(factorial_while(10), 3628800);
}

#[test]
fn test_factorial_for() {
    assert_eq!(factorial_for(0), 1);
    assert_eq!(factorial_for(1), 1);
    assert_eq!(factorial_for(3), 6);
    assert_eq!(factorial_for(5), 120);
    assert_eq!(factorial_for(10), 3628800);
}

#[test]
fn factorials_at_largest_input() {
    assert_eq!(factorial_recursive(20), 2432902008176640000);
    assert_eq!(factorial_while(20), 2432902008176640000);
    assert_eq!(factorial_for(20), 2432902008176640000);
    assert_eq!(iterator_factorial(20), 2432902008176640000);
}

#[test]
fn test_divide_exact() {
    assert_eq!(divide_exact(1, 0), None);
    assert_eq!(divide_exact(1, 10), None);
    assert_eq!(divide_exact(100, 10), Some(10));
    assert_eq!(divide_exact(-100, 10), Some(-10));
    assert_eq!(divide_exact(44217, 153), Some(289));
}

#[test]
fn divide_exact_with_negative_divisor() {
    assert_eq!(divide_exact(100, -10), Some(-10));
    assert_eq!(divide_exact(-100, -10), Some(10));
    assert_eq!(divide_exact(-7, 2), None);
    assert_eq!(divide_exact(i32::MIN, 1), Some(i32::MIN));
    assert_eq!(divide_exact(0, 5), Some(0));
}

#[test]
fn test_checked_factorial() {
    assert_eq!(checked_factorial(0), Some(1));
    assert_eq!(checked_factorial(1), Some(1));
    assert_eq!(checked_factorial(5), Some(120));
    assert_eq!(checked_factorial(10), Some(3628800));
    assert_eq!(checked_factorial(21), None);
}

#[test]
fn checked_factorial_at_the_limit() {
    assert_eq!(checked_factorial(20), Some(2432902008176640000));
    assert_eq!(checked_factorial(100), None);
}

#[test]
fn test_divide_gcd() {
    assert_eq!(divide_gcd(5, 5), (1, 1));
    assert_eq!(divide_gcd(10, 5), (2, 1));
    assert_eq!(divide_gcd(31, 23), (31, 23));
    assert_eq!(divide_gcd(81, 9), (9, 1));
}

#[test]
fn divide_gcd_with_zero_and_large_values() {
    assert_eq!(divide_gcd(0, 7), (0, 1));
    assert_eq!(divide_gcd(12, 0), (1, 0));
    assert_eq!(divide_gcd(1479, 319), (51, 11));
    assert_eq!(divide_gcd(65535, 65535), (1, 1));
}

#[test]
fn gcd_errors_compare() {
    assert_eq!(GCDError::NotPositive, GCDError::NotPositive);
    assert_ne!(GCDError::OutOfRange, GCDError::NotAnInteger);
}

#[test]
fn test_array_functions() {
    let mut arr1 = create_array_1();
    set_to_one(&mut arr1[..5]);
    assert_eq!(arr1, [1, 1, 1, 1, 1, 0, 0, 0, 0, 0]);

    let arr2 = create_array_2(6, 7, 8, 9);
    assert_eq!(arr2, [6, 7, 8, 9]);
}

#[test]
fn test_vec_functions() {
    let mut vec1 = create_vec_empty();
    add_two(&mut vec1);
    add_two(&mut vec1);
    add_two(&mut vec1);
    set_to_one(&mut vec1[..2]);
    assert_eq!(vec1, vec![1, 1, 2]);

    let mut vec2 = create_vec_macro_1();
    set_to_one(&mut vec2[5..]);
    assert_eq!(vec2, vec![0, 0, 0, 0, 0, 1, 1, 1, 1, 1]);

    let vec3 = create_vec_macro_2(6, 7, 8, 9);
    assert_eq!(vec3, vec![6, 7, 8, 9]);
}

#[test]
fn set_to_one_on_empty_slice() {
    let mut v: Vec<i32> = Vec::new();
    set_to_one(&mut v[..]);
    assert!(v.is_empty());
}

#[test]
fn test_iterator_factorial() {
    assert_eq!(iterator_factorial(0), 1);
    assert_eq!(iterator_factorial(1), 1);
    assert_eq!(iterator_factorial(3), 6);
    assert_eq!(iterator_factorial(5), 120);
    assert_eq!(iterator_factorial(10), 3628800);
}

#[test]
fn test_n_primes() {
    assert_eq!(n_primes(1), vec![2]);
    assert_eq!(n_primes(2), vec![2, 3]);
    assert_eq!(n_primes(5), vec![2, 3, 5, 7, 11]);
    assert_eq!(n_primes(10), vec![2, 3, 5, 7, 11, 13, 17, 19, 23, 29]);
}

#[test]
fn no_primes_asked() {
    assert_eq!(n_primes(0), Vec::<u64>::new());
}

#[test]
fn test_nth_prime() {
    assert_eq!(nth_prime(0), 2);
    assert_eq!(nth_prime(1), 3);
    assert_eq!(nth_prime(5), 13);
    assert_eq!(nth_prime(10), 31);
}

#[test]
fn fizzbuzz_variants() {
    assert_eq!(FizzBuzz::new(2), FizzBuzz::Neither(2));
    assert_eq!(FizzBuzz::new(3), FizzBuzz::Fizz);
    assert_eq!(FizzBuzz::new(5), FizzBuzz::Buzz);
    assert_eq!(FizzBuzz::new(15), FizzBuzz::FizzBuzz);
    assert_eq!(FizzBuzz::new(0), FizzBuzz::FizzBuzz);
}

#[test]
fn double_ref_changes_nothing() {
    let a = String::from("Hello world!");
    let mut b = String::from("Goodbye!");
    double_ref(&a, &mut b);
    assert_eq!(a, "Hello world!");
    assert_eq!(b, "Goodbye!");
}

#[test]
fn test_value() {
    let val1 = Value { val: 0.0f32 };
    assert_eq!(*val1.get(), 0.0f32);

    let val2 = Value {
        val: String::from("Hello"),
    };
    assert_eq!(*val2.get(), String::from("Hello"));
}

#[test]
fn test_onetwo() {
    let mut onetwo: OneTwo<f32, u32> = OneTwo::One(0.0);
    assert_eq!(*onetwo.first(), 0.0f32);
    assert_eq!(onetwo.second(), None);

    onetwo = OneTwo::Two(1.0, 3);
    assert_eq!(*onetwo.first(), 1.0f32);
    assert_eq!(onetwo.second(), Some(&3));
}

#[test]
fn test_is_default() {
    assert!(is_default(0.0f32));
    assert!(is_default(0i32));
    assert!(is_default(false));
}

#[test]
fn non_default_values() {
    assert!(!is_default(1i32));
    assert!(!is_default(true));
    assert!(!is_default(String::from("x")));
}

#[test]
fn helpers_wrap_clone_and_convert() {
    assert_eq!(make_some(4u8), Some(4u8));
    assert_eq!(make_pair(1u8, "one"), (1u8, "one"));
    assert_eq!(clone(&String::from("copy")), String::from("copy"));
    let wide: u64 = cast(7u8, 0u64);
    assert_eq!(wide, 7);
}

#[test]
fn test_demo_impl() {
    let vec_impl = demo_impl(4);
    for i in 0..4 {
        assert_eq!(vec_impl[i], String::from("Alpha"));
        assert_eq!(vec_impl[i + 4], String::from("Beta"));
    }
}

#[test]
fn names_in_order() {
    assert_eq!(Alpha {}.name(), "Alpha");
    assert_eq!(Beta {}.name(), "Beta");
    assert_eq!(name_vec_impl(vec![Beta {}, Beta {}]), vec!["Beta", "Beta"]);
    assert_eq!(demo_impl(0), Vec::<String>::new());
    assert_eq!(demo_impl(1), vec!["Alpha", "Beta"]);
}
