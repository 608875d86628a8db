use euler::runner::{all_correct, pace_of, Pace, Rating};
use euler::{Best, CountOf};

#[test]
fn test_min_simple() {
    let mut best: Best<usize> = Best::new();
    assert_eq!(*best, None);
    best.min(42);
    assert_eq!(*best, Some(42));
    best.min(54);
    assert_eq!(*best, Some(42));
    best.min(31);
    assert_eq!(*best, Some(31));
}

#[test]
fn test_min_with_value() {
    let mut best: Best<(usize, &'static str)> = Best::new();
    best.min((42, "forty two"));
    assert_eq!(*best, Some((42, "forty two")));
    best.min((42, "meaning of life"));
    assert_eq!(*best, Some((42, "forty two")));
    best.min((54, "six times nine"));
    assert_eq!(*best, Some((42, "forty two")));
    best.min((27, "three to the power three"));
    assert_eq!(*best, Some((27, "three to the power three")));
}

#[test]
fn test_max_simple() {
    let mut best: Best<i32> = Best::default();
    assert_eq!(best.into_inner(), None);
    let mut best: Best<i32> = Best::new();
    best.max(3);
    assert_eq!(*best, Some(3));
    best.max(2);
    assert_eq!(*best, Some(3));
    best.max(3);
    assert_eq!(*best, Some(3));
    best.max(10);
    assert_eq!(best.into_inner(), Some(10));
}

#[test]
fn test_max_keeps_first_among_equals() {
    let mut best: Best<CountOf<&'static str>> = Best::new();
    best.max(CountOf::new(1, "squeamish"));
    best.max(CountOf::new(1, "ossifrage"));
    assert_eq!(best.into_inner().map(|hit| *hit), Some("squeamish"));
}

#[test]
fn test_count_of_compares_by_count() {
    let a = CountOf::new(51, "magic");
    let b = CountOf::new(1, "squeamish");
    let c = CountOf::new(1, "ossifrage");
    assert!(a > b);
    assert!(a > c);
    assert!(b == c);
    assert!(!(b < c));
    assert_eq!(a.count, 51);
    assert_eq!(*a, "magic");
    assert_eq!(b.clone().data, "squeamish");
}

#[test]
fn pace_of_sorts_times_into_three_kinds() {
    assert_eq!(pace_of(0), Pace::Instant);
    assert_eq!(pace_of(1), Pace::Quick);
    assert_eq!(pace_of(999), Pace::Quick);
    assert_eq!(pace_of(1000), Pace::Slow);
    assert_eq!(pace_of(u128::MAX), Pace::Slow);
}

#[test]
fn all_correct_asks_for_every_answer() {
    assert!(all_correct(&[]));
    assert!(all_correct(&[Rating::CorrectAnswer, Rating::CorrectAnswer]));
    assert!(!all_correct(&[Rating::CorrectAnswer, Rating::Panicked]));
    assert!(!all_correct(&[Rating::Answered("5".to_string())]));
    let wrong = Rating::WrongAnswer { actual: "1".to_string(), expected: "2".to_string() };
    assert!(!wrong.is_correct());
    assert!(Rating::CorrectAnswer.is_correct());
}
