use meta_hybrid::granary::{
    counter_text, engage_ratoon_protocol, latest_silo, parse_counter, ratoon_outcome, silo_id, silos_to_prune, sort_silos, Config,
    GranaryConfig, RatoonAction, Silo,
};

fn s(x: &str) -> String {
    x.to_string()
}

fn config(max_backups: usize, retention_days: u64) -> Config {
    Config {
        moduledir: s("/data/adb/modules"),
        tempdir: None,
        mountsource: s("KSU"),
        verbose: false,
        partitions: Vec::new(),
        force_ext4: false,
        enable_nuke: false,
        disable_umount: false,
        granary: GranaryConfig { max_backups, retention_days },
    }
}

fn silo(ts: u64) -> Silo {
    Silo {
        id: silo_id(ts),
        timestamp: ts,
        label: s("auto"),
        reason: s("test"),
        config_snapshot: config(3, 0),
        raw_config: None,
        raw_state: None,
    }
}

#[test]
fn silo_ids_carry_the_timestamp() {
    assert_eq!(silo_id(1000), "silo_1000");
    assert_eq!(silo_id(0), "silo_0");
    assert_eq!(silo_id(u64::MAX), "silo_18446744073709551615");
}

#[test]
fn listing_is_newest_first() {
    let sorted = sort_silos(vec![silo(5), silo(9), silo(1), silo(7)]);
    let ts: Vec<u64> = sorted.iter().map(|x| x.timestamp).collect();
    assert_eq!(ts, vec![9, 7, 5, 1]);
    assert_eq!(latest_silo(&sorted).unwrap().id, "silo_9");
    assert!(latest_silo(&Vec::new()).is_none());
}

#[test]
fn pruning_keeps_at_most_max_backups() {
    let listing = sort_silos(vec![silo(10), silo(40), silo(20), silo(30)]);
    let doomed = silos_to_prune(&listing, GranaryConfig { max_backups: 2, retention_days: 0 }, 50);
    assert_eq!(doomed, vec![s("silo_20"), s("silo_10")]);
    let kept = listing.len() - doomed.len();
    assert!(kept <= 2);
    assert!(!doomed.contains(&s("silo_40")));
}

#[test]
fn pruning_by_age_spares_the_newest() {
    let day = 86400;
    let listing = sort_silos(vec![silo(day), silo(2 * day), silo(3 * day)]);
    // everything is older than one day at day 10
    let doomed = silos_to_prune(&listing, GranaryConfig { max_backups: 0, retention_days: 1 }, 10 * day);
    assert_eq!(doomed, vec![s("silo_172800"), s("silo_86400")]);
    let none = silos_to_prune(&listing, GranaryConfig { max_backups: 0, retention_days: 0 }, 10 * day);
    assert!(none.is_empty());
    let huge = silos_to_prune(&listing, GranaryConfig { max_backups: 0, retention_days: u64::MAX }, 10 * day);
    assert!(huge.is_empty());
}

#[test]
fn counter_parsing() {
    assert_eq!(parse_counter("2"), 2);
    assert_eq!(parse_counter(" 7\n"), 7);
    assert_eq!(parse_counter("+5"), 5);
    assert_eq!(parse_counter(""), 0);
    assert_eq!(parse_counter("abc"), 0);
    assert_eq!(parse_counter("256"), 0);
    assert_eq!(parse_counter("255"), 255);
    assert_eq!(counter_text(3), "3");
}

#[test]
fn third_unfinished_boot_restores() {
    let (c1, a1) = engage_ratoon_protocol(None);
    assert_eq!((c1, a1), (1, RatoonAction::Proceed));
    let t1 = counter_text(c1);
    let (c2, a2) = engage_ratoon_protocol(Some(t1.as_str()));
    assert_eq!((c2, a2), (2, RatoonAction::Proceed));
    let t2 = counter_text(c2);
    let (c3, a3) = engage_ratoon_protocol(Some(t2.as_str()));
    assert_eq!((c3, a3), (3, RatoonAction::Restore));
    let outcome = ratoon_outcome(Some("silo_1000"));
    assert!(!outcome.disable_all_modules);
    assert_eq!(outcome.rescue_notice.unwrap(), "System recovered from bootloop by restoring snapshot: silo_1000");
    let failed = ratoon_outcome(None);
    assert!(failed.disable_all_modules);
    assert!(failed.rescue_notice.is_none());
}

#[test]
fn unreadable_counter_counts_as_zero_and_count_saturates() {
    assert_eq!(engage_ratoon_protocol(Some("garbage")).0, 1);
    assert_eq!(engage_ratoon_protocol(Some("255")), (255, RatoonAction::Restore));
}

#[test]
fn repeated_creates_stay_within_max_backups() {
    let g = GranaryConfig { max_backups: 3, retention_days: 0 };
    let mut granary: Vec<Silo> = Vec::new();
    for ts in 1..=10u64 {
        granary.push(silo(ts * 100));
        let listing = sort_silos(granary);
        let doomed = silos_to_prune(&listing, g, ts * 100);
        granary = listing.into_iter().filter(|x| !doomed.contains(&x.id)).collect();
        assert!(granary.len() <= 3);
        assert!(granary.iter().any(|x| x.timestamp == ts * 100));
    }
    let ts: Vec<u64> = sort_silos(granary).iter().map(|x| x.timestamp).collect();
    assert_eq!(ts, vec![1000, 900, 800]);
}

#[test]
fn counter_trims_unicode_space() {
    assert_eq!(parse_counter("\u{a0}5\u{3000}"), 5);
    assert_eq!(parse_counter("\u{2003}\t2\r\n"), 2);
}
