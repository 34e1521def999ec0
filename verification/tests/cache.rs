use subwash::cache::answer_after_refresh;
use subwash::cache::answer_at_once;
use subwash::cache::cache_ttl;
use subwash::cache::failure;
use subwash::cache::refresh_subscription;
use subwash::cache::Answer;
use subwash::cache::Cache;

fn body(answer: Answer) -> String {
    match answer {
        Answer::Body(data) => data,
        Answer::Failure { .. } => panic!("no body"),
    }
}

fn is_failure(answer: Answer) -> bool {
    matches!(answer, Answer::Failure { status: 500, text: "failed to build subscription" })
}

#[test]
fn a_new_cache_holds_nothing() {
    let cache = Cache::new(Some(10));
    assert!(cache.is_expired(0));
    assert_eq!(cache.get(0), None);
    let cache = Cache::new(None);
    assert!(!cache.is_expired(0));
    assert_eq!(cache.get(0), None);
}

#[test]
fn a_lifetime_ends() {
    let mut cache = Cache::new(Some(10));
    cache.set("x".to_string(), 100);
    assert_eq!(cache.get(100), Some(&"x".to_string()));
    assert_eq!(cache.get(109), Some(&"x".to_string()));
    assert!(!cache.is_expired(109));
    assert!(cache.is_expired(110));
    assert_eq!(cache.get(110), None);
    // A clock that stands behind counts as no time passed.
    assert_eq!(cache.get(3), Some(&"x".to_string()));
    cache.set("y".to_string(), 110);
    assert_eq!(cache.get(119), Some(&"y".to_string()));
}

#[test]
fn no_lifetime_lasts_at_once() {
    let mut cache = Cache::new(Some(0));
    cache.set("x".to_string(), 5);
    assert_eq!(cache.get(5), None);
    assert_eq!(cache.get(4), None);
}

#[test]
fn without_a_lifetime_nothing_ends() {
    let mut cache = Cache::new(None);
    cache.set("x".to_string(), 0);
    assert_eq!(cache.get(u128::MAX), Some(&"x".to_string()));
}

#[test]
fn lifetimes_depend_on_refreshes() {
    assert_eq!(cache_ttl(0), Some(600_000_000_000));
    assert_eq!(cache_ttl(1), None);
    assert_eq!(cache_ttl(u64::MAX), None);
}

#[test]
fn a_failure_keeps_what_was_there() {
    let mut cache = Cache::new(None);
    refresh_subscription(&mut cache, None, 1);
    assert_eq!(cache.get(1), None);
    refresh_subscription(&mut cache, Some("x".to_string()), 2);
    refresh_subscription(&mut cache, None, 3);
    assert_eq!(cache.get(4), Some(&"x".to_string()));
    refresh_subscription(&mut cache, Some("y".to_string()), 5);
    assert_eq!(cache.get(6), Some(&"y".to_string()));
}

#[test]
fn a_failure_does_not_lengthen_a_lifetime() {
    let mut cache = Cache::new(Some(10));
    refresh_subscription(&mut cache, Some("x".to_string()), 0);
    refresh_subscription(&mut cache, None, 9);
    assert_eq!(cache.get(9), Some(&"x".to_string()));
    assert_eq!(cache.get(10), None);
}

#[test]
fn requests_are_answered_from_the_cache() {
    let mut cache = Cache::new(Some(10));
    assert!(answer_at_once(&cache, 0).is_none());
    assert!(is_failure(answer_after_refresh(&cache, 0)));
    refresh_subscription(&mut cache, Some("x".to_string()), 0);
    assert_eq!(body(answer_at_once(&cache, 1).unwrap()), "x");
    assert_eq!(body(answer_after_refresh(&cache, 1)), "x");
    assert!(answer_at_once(&cache, 10).is_none());
    refresh_subscription(&mut cache, None, 11);
    assert!(is_failure(answer_after_refresh(&cache, 11)));
}

#[test]
fn a_failure_says_so() {
    assert!(is_failure(failure()));
}
