use tracker_core::statistics::{GlobalStatistics, ReturnedStatistics};

#[test]
fn counters_never_underflow() {
    let mut stats = GlobalStatistics::new(0);
    // Decrements against zero stay at zero.
    stats.sub_seed();
    stats.sub_leech();
    assert_eq!(stats.total_seeders, 0);
    assert_eq!(stats.total_leechers, 0);

    stats.add_seed();
    stats.add_leech();
    stats.cleared_peers(5, 5);
    assert_eq!(stats.total_seeders, 0);
    assert_eq!(stats.total_leechers, 0);

    stats.promote_leech();
    assert_eq!(stats.total_seeders, 1);
    assert_eq!(stats.total_leechers, 0);
}

#[test]
fn announce_bookkeeping() {
    let mut stats = GlobalStatistics::new(0);
    stats.succ_announce();
    stats.succ_announce();
    stats.fail_announce();
    assert_eq!(stats.announce_requests, 3);
    assert_eq!(stats.succ_announces, 2);
    assert_eq!(stats.num_fails(), 1);

    stats.incr_scrapes();
    assert_eq!(stats.scrapes, 1);
}

#[test]
fn uptime_reads_against_clock() {
    let stats = GlobalStatistics::new(100);
    assert_eq!(stats.uptime(175), 75);
    // A clock reading before the start counts as no elapsed time.
    assert_eq!(stats.uptime(50), 0);

    let snap = ReturnedStatistics::new(&stats, 175);
    assert_eq!(snap.uptime, 75);
    assert_eq!(snap.total_seeders, 0);
}
