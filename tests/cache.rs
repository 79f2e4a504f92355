use std::time::SystemTime;

use hashcards::cache::Cache;
use hashcards::cache::CacheError;
use hashcards::card::CardHash;

#[derive(Clone, Copy, Debug, PartialEq)]
struct Timestamp(SystemTime);

impl Timestamp {
    fn now() -> Self {
        Timestamp(SystemTime::now())
    }
}

#[derive(Clone, Copy, Debug, PartialEq)]
struct Date(u64);

impl Date {
    fn today() -> Self {
        let secs = SystemTime::now()
            .duration_since(SystemTime::UNIX_EPOCH)
            .unwrap()
            .as_secs();
        Date(secs / 86400)
    }
}

#[derive(Clone, Copy, Debug, PartialEq)]
struct ReviewedPerformance {
    last_reviewed_at: Timestamp,
    stability: f64,
    difficulty: f64,
    interval_raw: f64,
    interval_days: usize,
    due_date: Date,
    review_count: usize,
}

#[derive(Clone, Copy, Debug, PartialEq)]
enum Performance {
    New,
    Reviewed(ReviewedPerformance),
}

impl Performance {
    fn is_new(&self) -> bool {
        matches!(self, Performance::New)
    }
}

#[test]
fn test_cache_insert_and_get() -> Result<(), CacheError> {
    let mut cache = Cache::new();
    let card_hash = CardHash::hash_bytes(b"a");
    let performance = Performance::New;
    cache.insert(card_hash, performance)?;
    let retrieved = cache.get(card_hash)?;
    match retrieved {
        Performance::New => Ok(()),
        _ => panic!("Expected Performance::New"),
    }
}

#[test]
fn test_cache_update() -> Result<(), CacheError> {
    let mut cache = Cache::new();
    let card_hash = CardHash::hash_bytes(b"a");
    let performance = Performance::New;
    cache.insert(card_hash, performance)?;
    let last_reviewed_at = Timestamp::now();
    let stability = 1.0;
    let difficulty = 2.0;
    let interval_raw = 0.4;
    let interval_days = 1;
    let due_date = Date::today();
    let review_count = 3;
    cache.update(
        card_hash,
        Performance::Reviewed(ReviewedPerformance {
            last_reviewed_at,
            stability,
            difficulty,
            interval_raw,
            interval_days,
            due_date,
            review_count,
        }),
    )?;
    let retrieved = cache.get(card_hash)?;
    match retrieved {
        Performance::Reviewed(rp) => {
            assert_eq!(rp.last_reviewed_at, last_reviewed_at);
            assert_eq!(rp.stability, stability);
            assert_eq!(rp.difficulty, difficulty);
            assert_eq!(rp.interval_raw, 0.4);
            assert_eq!(rp.interval_days, interval_days);
            assert_eq!(rp.due_date, due_date);
            assert_eq!(rp.review_count, review_count);
            Ok(())
        }
        _ => panic!("Expected Performance::Reviewed"),
    }
}

#[test]
fn test_cache_insert_duplicate() -> Result<(), CacheError> {
    let mut cache = Cache::new();
    let card_hash = CardHash::hash_bytes(b"a");
    let performance = Performance::New;
    cache.insert(card_hash, performance)?;
    assert!(cache.insert(card_hash, performance).is_err());
    Ok(())
}

#[test]
fn test_cache_get_nonexistent() -> Result<(), CacheError> {
    let cache: Cache<Performance> = Cache::new();
    let card_hash = CardHash::hash_bytes(b"a");
    assert!(cache.get(card_hash).is_err());
    Ok(())
}

#[test]
fn test_cache_update_nonexistent() -> Result<(), CacheError> {
    let mut cache = Cache::new();
    let card_hash = CardHash::hash_bytes(b"a");
    let last_reviewed_at = Timestamp::now();
    let stability = 1.0;
    let difficulty = 2.0;
    let interval_raw = 0.4;
    let interval_days = 1;
    let due_date = Date::today();
    let review_count = 3;
    let reviewed = Performance::Reviewed(ReviewedPerformance {
        last_reviewed_at,
        stability,
        difficulty,
        interval_raw,
        interval_days,
        due_date,
        review_count,
    });
    let res = cache.update(card_hash, reviewed);
    assert!(res.is_err());
    Ok(())
}

#[test]
fn test_cache_iter() -> Result<(), CacheError> {
    let mut cache = Cache::new();
    let card_hash = CardHash::hash_bytes(b"a");
    let performance = Performance::New;
    cache.insert(card_hash, performance)?;
    let mut iter = cache.iter();
    let (key, value) = iter.next().unwrap();
    assert_eq!(*key, card_hash);
    assert!(value.is_new());
    assert!(iter.next().is_none());
    Ok(())
}

#[test]
fn cache_errors_name_their_cause() {
    let mut cache = Cache::new();
    let a = CardHash::hash_bytes(b"a");
    let b = CardHash::hash_bytes(b"b");
    assert_eq!(cache.get(a), Err(CacheError::NotFound));
    assert_eq!(cache.update(a, 1u32), Err(CacheError::NotFound));
    assert_eq!(cache.insert(a, 1u32), Ok(()));
    assert_eq!(cache.insert(a, 2u32), Err(CacheError::AlreadyPresent));
    assert_eq!(cache.get(a), Ok(1));
    assert_eq!(cache.insert(b, 5u32), Ok(()));
    assert_eq!(cache.update(a, 7u32), Ok(()));
    assert_eq!(cache.get(a), Ok(7));
    assert_eq!(cache.get(b), Ok(5));
    assert_eq!(cache.iter().count(), 2);
}
