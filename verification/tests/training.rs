use spam_filter::classifier::NaiveBayesClassifier;
use spam_filter::counter::Counter;
use spam_filter::dataset::train_dataset;
use spam_filter::dataset::train_fresh;
use spam_filter::dataset::train_records;
use spam_filter::dataset::TrainError;
use spam_filter::model::bump;
use spam_filter::model::Label;
use spam_filter::stats::ClassifierStats;
use spam_filter::store::StoreError;
use spam_filter::store::TokenEntry;
use spam_filter::store::TokenStore;
use spam_filter::tokenizer::select_words;
use spam_filter::tokenizer::tokenize;
use spam_filter::tokenizer::Segment;
use spam_filter::tokenizer::SegmentKind;
use spam_filter::trainer::find_place;
use spam_filter::trainer::parse_label;
use spam_filter::trainer::Trainer;
use spam_filter::trainer::TrainingStats;

fn entry(token: &str, spam: u32, ham: u32) -> TokenEntry {
    TokenEntry { token: token.as_bytes().to_vec(), counter: Counter { spam, ham } }
}

fn plain(entries: &[TokenEntry]) -> Vec<(String, u32, u32)> {
    entries
        .iter()
        .map(|e| (String::from_utf8(e.token.clone()).unwrap(), e.counter.spam, e.counter.ham))
        .collect()
}

fn row(token: &str, spam: u32, ham: u32) -> (String, u32, u32) {
    (token.to_string(), spam, ham)
}

fn words(list: &[&str]) -> Vec<String> {
    list.iter().map(|w| w.to_string()).collect()
}

const DATASET: &str = "text,label\nFree money now,spam\nHello my friend,ham\nfree hello,spam\n";

#[test]
fn test_tokenization() {
    let text = "Hello world! This is a test message.";
    let tokens = tokenize(text);

    println!("Tokens: {:?}", tokens);

    assert!(!tokens.is_empty());
    assert!(tokens.contains(&"hello".to_string()));
    assert!(tokens.contains(&"world".to_string()));
    assert!(tokens.contains(&"test".to_string()));
    // Check for either "message" or "messag" (stemmed version)
    assert!(
        tokens.contains(&"message".to_string()) || tokens.contains(&"messag".to_string()),
        "Expected 'message' or 'messag' in tokens: {:?}",
        tokens
    );
}

#[test]
fn tokens_are_lower_case_words_without_punctuation() {
    let tokens = tokenize("Hello world! This is a test message.");
    assert_eq!(&tokens[..2], &words(&["hello", "world"])[..]);
    for token in &tokens {
        assert_eq!(token, &token.to_lowercase());
        assert!(token.chars().any(|c| c.is_alphanumeric()));
    }
    assert!(!tokens.contains(&"!".to_string()));
    assert!(!tokens.contains(&".".to_string()));
    assert!(!tokens.contains(&" ".to_string()));
}

#[test]
fn tokenize_is_deterministic() {
    let text = "FREE MONEY! Click here to win $1000000! Limited time offer!";
    assert_eq!(tokenize(text), tokenize(text));
}

#[test]
fn tokenize_finds_nothing_in_empty_or_punctuation() {
    assert!(tokenize("").is_empty());
    assert!(tokenize("!?.,;:").is_empty());
    assert!(tokenize("   \n\t ").is_empty());
}

#[test]
fn tokenize_keeps_numbers_and_repeats() {
    assert_eq!(tokenize("1234567890"), words(&["1234567890"]));
    assert_eq!(tokenize("Free free FREE"), words(&["free", "free", "free"]));
}

#[test]
fn select_words_keeps_alphanumeric_segments_in_order() {
    let segments = vec![
        Segment { text: "free".to_string(), kind: SegmentKind::AlphaNumeric },
        Segment { text: " ".to_string(), kind: SegmentKind::Separator },
        Segment { text: "$".to_string(), kind: SegmentKind::Symbol },
        Segment { text: "".to_string(), kind: SegmentKind::Unclassified },
        Segment { text: "money".to_string(), kind: SegmentKind::AlphaNumeric },
    ];
    assert_eq!(select_words(&segments), words(&["free", "money"]));
    assert!(select_words(&Vec::new()).is_empty());
}

#[test]
fn labels_are_spam_ham_or_other() {
    assert_eq!(parse_label("spam"), Label::Spam);
    assert_eq!(parse_label("ham"), Label::Ham);
    assert_eq!(parse_label("Spam"), Label::Other);
    assert_eq!(parse_label("spam "), Label::Other);
    assert_eq!(parse_label(""), Label::Other);
    assert_eq!(parse_label("unknown"), Label::Other);
}

#[test]
fn bump_counts_one_for_the_label() {
    let counter = Counter { spam: 3, ham: 7 };
    assert_eq!(bump(counter, Label::Spam), Counter { spam: 4, ham: 7 });
    assert_eq!(bump(counter, Label::Ham), Counter { spam: 3, ham: 8 });
    assert_eq!(bump(counter, Label::Other), counter);
    assert_eq!(bump(Counter { spam: u32::MAX, ham: 1 }, Label::Spam), Counter { spam: 0, ham: 1 });
    assert_eq!(bump(Counter { spam: 1, ham: u32::MAX }, Label::Ham), Counter { spam: 1, ham: 0 });
}

#[test]
fn find_place_finds_tokens_and_gaps() {
    let entries = vec![entry("free", 5, 0), entry("hello", 0, 3), entry("money", 4, 1)];
    assert_eq!(find_place(&entries, b"free"), (true, 0));
    assert_eq!(find_place(&entries, b"hello"), (true, 1));
    assert_eq!(find_place(&entries, b"money"), (true, 2));
    assert_eq!(find_place(&entries, b"a"), (false, 0));
    assert_eq!(find_place(&entries, b"game"), (false, 1));
    assert_eq!(find_place(&entries, b"in"), (false, 2));
    assert_eq!(find_place(&entries, b"zoo"), (false, 3));
    assert_eq!(find_place(&Vec::new(), b"zoo"), (false, 0));
}

#[test]
fn trainer_counts_tokens_per_label() {
    let mut trainer = Trainer::new();
    trainer.observe(&words(&["money", "free", "money"]), "spam");
    trainer.observe(&words(&["hello", "money"]), "ham");
    assert_eq!(
        plain(trainer.entries()),
        vec![row("free", 1, 0), row("hello", 0, 1), row("money", 2, 1)]
    );
    assert_eq!(
        trainer.stats(),
        TrainingStats {
            total_samples: 2,
            spam_samples: 1,
            ham_samples: 1,
            total_tokens: 5,
            unique_tokens: 3,
        }
    );
}

#[test]
fn trainer_keeps_unlabelled_tokens_with_zero_weight() {
    let mut trainer = Trainer::new();
    trainer.observe(&words(&["free"]), "spam");
    trainer.observe(&words(&["free", "gift"]), "promo");
    assert_eq!(plain(trainer.entries()), vec![row("free", 1, 0), row("gift", 0, 0)]);
    let stats = trainer.stats();
    assert_eq!((stats.total_samples, stats.spam_samples, stats.ham_samples), (2, 1, 0));
    assert_eq!((stats.total_tokens, stats.unique_tokens), (3, 2));
}

#[test]
fn trainer_records_single_tokens() {
    let mut trainer = Trainer::new();
    trainer.record(b"b".to_vec(), Label::Ham);
    trainer.record(b"a".to_vec(), Label::Spam);
    trainer.record(b"c".to_vec(), Label::Other);
    trainer.record(b"a".to_vec(), Label::Ham);
    trainer.record(b"a".to_vec(), Label::Spam);
    assert_eq!(plain(trainer.entries()), vec![row("a", 2, 1), row("b", 0, 1), row("c", 0, 0)]);
    assert_eq!(trainer.stats().unique_tokens, 3);
}

#[test]
fn trainer_extends_an_earlier_store() {
    let earlier = TokenStore::build(&vec![entry("free", 5, 0), entry("money", 4, 1)]).unwrap();
    let mut trainer = Trainer::from_store(&earlier);
    assert_eq!(
        trainer.stats(),
        TrainingStats {
            total_samples: 0,
            spam_samples: 0,
            ham_samples: 0,
            total_tokens: 10,
            unique_tokens: 2,
        }
    );
    trainer.train("Free hello", "ham");
    assert_eq!(
        plain(trainer.entries()),
        vec![row("free", 5, 1), row("hello", 0, 1), row("money", 4, 1)]
    );
    let store = trainer.build().unwrap();
    assert_eq!(store.get(b"free"), Some(Counter { spam: 5, ham: 1 }));
    assert_eq!(store.get(b"hello"), Some(Counter { spam: 0, ham: 1 }));
    assert_eq!(trainer.stats().total_tokens, 12);
    assert_eq!(trainer.stats().unique_tokens, 3);
}

#[test]
fn dataset_trains_from_nothing() {
    let outcome = train_dataset(None, DATASET.as_bytes()).unwrap();
    let store = TokenStore::deserialize(outcome.model.clone()).unwrap();
    assert_eq!(
        plain(&store.iterate()),
        vec![
            row("free", 2, 0),
            row("friend", 0, 1),
            row("hello", 1, 1),
            row("money", 1, 0),
            row("my", 0, 1),
            row("now", 1, 0),
        ]
    );
    assert_eq!(
        outcome.training,
        TrainingStats {
            total_samples: 3,
            spam_samples: 2,
            ham_samples: 1,
            total_tokens: 8,
            unique_tokens: 6,
        }
    );
    assert_eq!(
        outcome.model_stats,
        ClassifierStats { total_spam: 5, total_ham: 3, total_tokens: 8, unique_tokens: 6 }
    );
}

#[test]
fn training_again_on_the_same_data_doubles_the_counts() {
    let once = train_dataset(None, DATASET.as_bytes()).unwrap();
    let twice = train_dataset(Some(once.model.clone()), DATASET.as_bytes()).unwrap();
    let first = TokenStore::deserialize(once.model).unwrap().iterate();
    let second = TokenStore::deserialize(twice.model).unwrap().iterate();
    assert_eq!(first.len(), second.len());
    for (a, b) in first.iter().zip(second.iter()) {
        assert_eq!(a.token, b.token);
        assert_eq!(b.counter.spam, 2 * a.counter.spam);
        assert_eq!(b.counter.ham, 2 * a.counter.ham);
    }
    assert_eq!(twice.training.total_tokens, 16);
    assert_eq!(twice.training.unique_tokens, 6);
    assert_eq!(twice.model_stats.total_tokens, 16);
}

#[test]
fn dataset_skips_records_it_cannot_use() {
    let data = "text,label\nfree money,spam\nbroken,record,with,more,fields\nhello,ham\n";
    let outcome = train_dataset(None, data.as_bytes()).unwrap();
    let store = TokenStore::deserialize(outcome.model).unwrap();
    assert_eq!(
        plain(&store.iterate()),
        vec![row("free", 1, 0), row("hello", 0, 1), row("money", 1, 0)]
    );
    assert_eq!(outcome.training.total_samples, 2);
}

#[test]
fn dataset_skips_records_without_a_label() {
    let outcome = train_dataset(None, b"text\nfree money\nhello\n").unwrap();
    assert!(TokenStore::deserialize(outcome.model).unwrap().iterate().is_empty());
    assert_eq!(outcome.training, TrainingStats::new());
    assert_eq!(outcome.model_stats, ClassifierStats::new());
}

#[test]
fn dataset_passes_over_the_header_line() {
    let outcome = train_dataset(None, b"free money,spam\n").unwrap();
    assert_eq!(outcome.training.total_samples, 0);
    let outcome = train_dataset(None, b"").unwrap();
    assert_eq!(outcome.training.total_samples, 0);
}

#[test]
fn dataset_counts_unknown_labels_as_background() {
    let outcome = train_dataset(None, b"text,label\nfree gift,promo\nfree,spam\n").unwrap();
    let store = TokenStore::deserialize(outcome.model).unwrap();
    assert_eq!(plain(&store.iterate()), vec![row("free", 1, 0), row("gift", 0, 0)]);
    assert_eq!(outcome.training.total_samples, 2);
    assert_eq!(outcome.training.spam_samples, 1);
    assert_eq!(outcome.training.ham_samples, 0);
    assert_eq!(outcome.training.total_tokens, 3);
    assert_eq!(outcome.model_stats.total_tokens, 1);
    assert_eq!(outcome.model_stats.unique_tokens, 2);
}

#[test]
fn dataset_refuses_a_corrupt_earlier_model() {
    let result = train_dataset(Some(vec![1, 2, 3]), DATASET.as_bytes());
    assert_eq!(result.err(), Some(TrainError::CorruptModel(StoreError::Malformed)));
    let mut blob = train_dataset(None, DATASET.as_bytes()).unwrap().model;
    blob[17] ^= 0xff;
    let result = train_dataset(Some(blob), DATASET.as_bytes());
    assert_eq!(result.err(), Some(TrainError::CorruptModel(StoreError::Checksum)));
}

#[test]
fn train_records_skips_short_and_missing_records() {
    let mut trainer = Trainer::new();
    let records = vec![
        Some(words(&["free money", "spam"])),
        None,
        Some(words(&["lonely"])),
        Some(Vec::new()),
        Some(words(&["hello", "ham", "extra"])),
    ];
    train_records(&mut trainer, &records);
    assert_eq!(
        plain(trainer.entries()),
        vec![row("free", 1, 0), row("hello", 0, 1), row("money", 1, 0)]
    );
    assert_eq!(trainer.stats().total_samples, 2);
}

#[test]
fn classifier_looks_up_the_tokens_of_a_text() {
    let store = TokenStore::build(&vec![entry("free", 5, 0), entry("hello", 0, 3), entry("money", 4, 1)])
        .unwrap();
    let classifier = NaiveBayesClassifier::from_model(store);
    assert_eq!(
        classifier.stats(),
        ClassifierStats { total_spam: 9, total_ham: 4, total_tokens: 13, unique_tokens: 3 }
    );
    assert_eq!(classifier.get_token_counter("free"), Counter { spam: 5, ham: 0 });
    assert_eq!(classifier.get_token_counter("unseen"), Counter { spam: 0, ham: 0 });
    assert_eq!(
        classifier.token_counters("FREE money, free... gift!"),
        vec![
            Counter { spam: 5, ham: 0 },
            Counter { spam: 4, ham: 1 },
            Counter { spam: 5, ham: 0 },
            Counter { spam: 0, ham: 0 },
        ]
    );
    assert!(classifier.token_counters("").is_empty());
    assert!(classifier.token_counters("!@#$%^&*()").is_empty());
    assert_eq!(
        classifier.lookup_tokens(&words(&["hello", "hello"])),
        vec![Counter { spam: 0, ham: 3 }, Counter { spam: 0, ham: 3 }]
    );
    assert_eq!(classifier.model().get(b"money"), Some(Counter { spam: 4, ham: 1 }));
}

fn spam_probability(classifier: &NaiveBayesClassifier, text: &str) -> f32 {
    let stats = classifier.stats();
    let (numerator, denominator) = stats.prior_ratio();
    let prior = numerator as f32 / denominator as f32;
    let counters = classifier.token_counters(text);
    if counters.is_empty() {
        return prior;
    }
    let mut log_spam = prior.ln();
    let mut log_ham = (1.0 - prior).ln();
    for counter in counters {
        let unique = stats.unique_tokens as f32;
        log_spam += ((counter.spam as f32 + 1.0) / (stats.total_spam as f32 + unique)).ln();
        log_ham += ((counter.ham as f32 + 1.0) / (stats.total_ham as f32 + unique)).ln();
    }
    let result = (log_spam - (log_spam.exp() + log_ham.exp()).ln()).exp();
    if result.is_nan() || result.is_infinite() {
        prior
    } else {
        result
    }
}

#[test]
fn known_spam_words_weigh_towards_spam() {
    let store = TokenStore::build(&vec![entry("free", 5, 0), entry("hello", 0, 3), entry("money", 4, 1)])
        .unwrap();
    let classifier = NaiveBayesClassifier::from_model(store);
    assert!(spam_probability(&classifier, "free money") > 0.5);
    assert!(spam_probability(&classifier, "hello") < 0.5);
    for text in ["", "!!!", "free", "hello money", "Normal email content"] {
        let score = spam_probability(&classifier, text);
        assert!(score >= 0.0 && score <= 1.0);
    }
}

#[test]
fn a_first_run_is_a_run_without_an_earlier_model() {
    let fresh = train_fresh(DATASET.as_bytes()).unwrap();
    let plain_run = train_dataset(None, DATASET.as_bytes()).unwrap();
    assert_eq!(fresh.model, plain_run.model);
    assert_eq!(fresh.training, plain_run.training);
    assert_eq!(fresh.model_stats, plain_run.model_stats);
    assert_eq!(fresh.training.total_samples, 3);
    let store = TokenStore::deserialize(fresh.model).unwrap();
    assert_eq!(store.get(b"free"), Some(Counter { spam: 2, ham: 0 }));
}
