use recommendation_system::config::Ratio;
use recommendation_system::mean_cache::MeanCache;
use recommendation_system::ratings::Ratings;

fn half() -> Ratio {
    Ratio::new(1, 2).unwrap()
}

fn batch(users: std::ops::Range<u64>) -> Ratings {
    let mut r = Ratings::new();
    for u in users {
        r.insert(u, (u as i64) * 10);
    }
    r
}

#[test]
fn shrink_keeps_the_most_read_half() {
    let mut cache = MeanCache::new(99, half());
    cache.add_new_means(&batch(1..101));
    assert_eq!(cache.len(), 100);
    assert_eq!(cache.keep_count(), 50);
    for u in 1..21u64 {
        assert_eq!(cache.get_mean(u), Some((u as i64) * 10));
        assert_eq!(cache.get_mean(u), Some((u as i64) * 10));
    }
    cache.shrink_means();
    assert_eq!(cache.len(), 50);
    for u in 1..21u64 {
        assert!(cache.has_mean_for(u));
        assert_eq!(cache.entry_for(u).unwrap().accesses, 2);
    }
    let unread = (21..101u64).filter(|u| cache.has_mean_for(*u)).count();
    assert_eq!(unread, 30);
    // among entries read equally often the oldest leave first
    for u in 21..71u64 {
        assert!(!cache.has_mean_for(u));
    }
    for u in 71..101u64 {
        assert!(cache.has_mean_for(u));
    }
}

#[test]
fn shrink_waits_for_the_soft_maximum() {
    let mut cache = MeanCache::new(100, half());
    cache.add_new_means(&batch(1..101));
    cache.shrink_means();
    assert_eq!(cache.len(), 100);
    cache.add_new_means(&batch(101..102));
    cache.shrink_means();
    assert_eq!(cache.len(), 50);
}
