use spam_filter::counter::Counter;
use spam_filter::order::compare_bytes;
use spam_filter::order::Relation;
use spam_filter::stats::ClassifierStats;

#[test]
fn test_counter_serialization() {
    let counter = Counter { spam: 10, ham: 5 };
    let serialized = counter.to_u64();
    let deserialized = Counter::from_u64(serialized);

    assert_eq!(counter.spam, deserialized.spam);
    assert_eq!(counter.ham, deserialized.ham);
}

#[test]
fn test_classifier_stats() {
    let stats = ClassifierStats::new();
    assert_eq!(stats.total_spam, 0);
    assert_eq!(stats.total_ham, 0);
    assert_eq!(stats.total_tokens, 0);
    assert_eq!(stats.unique_tokens, 0);
    let (numerator, denominator) = stats.prior_ratio();
    let prior_spam = numerator as f32 / denominator as f32;
    assert_eq!(prior_spam, 0.5);
    assert_eq!(1.0 - prior_spam, 0.5);
}

#[test]
fn counter_packs_spam_high_and_ham_low() {
    assert_eq!(Counter { spam: 10, ham: 5 }.to_u64(), 42_949_672_965);
    assert_eq!(Counter { spam: 1, ham: 0 }.to_u64(), 1 << 32);
    assert_eq!(Counter { spam: 0, ham: 1 }.to_u64(), 1);
    assert_eq!(Counter { spam: 0, ham: 0 }.to_u64(), 0);
    assert_eq!(Counter { spam: u32::MAX, ham: u32::MAX }.to_u64(), u64::MAX);
}

#[test]
fn counter_unpacks_both_halves() {
    assert_eq!(Counter::from_u64(42_949_672_965), Counter { spam: 10, ham: 5 });
    assert_eq!(Counter::from_u64(u64::MAX), Counter { spam: u32::MAX, ham: u32::MAX });
    assert_eq!(Counter::from_u64(0xdead_beef_0000_0007), Counter { spam: 0xdead_beef, ham: 7 });
}

#[test]
fn counter_round_trips_at_the_limits() {
    for spam in [0u32, 1, 2, 0x7fff_ffff, 0x8000_0000, u32::MAX - 1, u32::MAX] {
        for ham in [0u32, 1, 3, 0x7fff_ffff, 0x8000_0000, u32::MAX - 1, u32::MAX] {
            let counter = Counter { spam, ham };
            assert_eq!(Counter::from_u64(counter.to_u64()), counter);
        }
    }
    for value in [0u64, 1, 0xffff_ffff, 0x1_0000_0000, 0x1234_5678_9abc_def0, u64::MAX] {
        assert_eq!(Counter::from_u64(value).to_u64(), value);
    }
}

#[test]
fn counter_default_is_zero() {
    assert_eq!(Counter::default(), Counter { spam: 0, ham: 0 });
}

#[test]
fn bytes_compare_lexicographically() {
    assert_eq!(compare_bytes(b"", b""), Relation::Same);
    assert_eq!(compare_bytes(b"", b"a"), Relation::Before);
    assert_eq!(compare_bytes(b"a", b""), Relation::After);
    assert_eq!(compare_bytes(b"free", b"free"), Relation::Same);
    assert_eq!(compare_bytes(b"free", b"freedom"), Relation::Before);
    assert_eq!(compare_bytes(b"freedom", b"free"), Relation::After);
    assert_eq!(compare_bytes(b"hello", b"money"), Relation::Before);
    assert_eq!(compare_bytes(b"money", b"hello"), Relation::After);
    assert_eq!(compare_bytes(b"Z", b"a"), Relation::Before);
    assert_eq!(compare_bytes(&[0xff], &[0x00, 0xff]), Relation::After);
    assert_eq!(compare_bytes("é".as_bytes(), b"z"), Relation::After);
}

#[test]
fn stats_prior_is_spam_over_all() {
    let stats = ClassifierStats { total_spam: 9, total_ham: 4, total_tokens: 13, unique_tokens: 3 };
    assert_eq!(stats.prior_ratio(), (9, 13));
    let empty = ClassifierStats { total_spam: 0, total_ham: 0, total_tokens: 0, unique_tokens: 0 };
    assert_eq!(empty.prior_ratio(), (1, 2));
    assert_eq!(ClassifierStats::default(), empty);
}
