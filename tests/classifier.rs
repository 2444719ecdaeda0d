use spam_filter::bow::{add_document_to_bow, total_count};
use spam_filter::classify::{combined_total, count_verdicts, document_terms, Term, TrainingError};
use spam_filter::table::FreqTable;
use spam_filter::THRESHOLD;

fn table_of(text: &str) -> FreqTable {
    let mut t = FreqTable::new();
    add_document_to_bow(text.as_bytes(), &mut t).unwrap();
    t
}

fn repeated(word: &str, n: usize) -> String {
    let mut s = String::new();
    for _ in 0..n {
        s.push_str(word);
        s.push(' ');
    }
    s
}

fn key(s: &str) -> String {
    s.to_string()
}

#[test]
fn empty_table_has_zero_total() {
    let t = FreqTable::new();
    assert_eq!(total_count(&t, THRESHOLD), 0);
    assert_eq!(total_count(&t, 0), 0);
    assert_eq!(t.len(), 0);
}

#[test]
fn total_count_skips_counts_under_threshold() {
    let text = format!("{}{}{}", repeated("a", 100), repeated("b", 99), repeated("c", 150));
    let t = table_of(&text);
    assert_eq!(t.get(&key("A")), 100);
    assert_eq!(t.get(&key("B")), 99);
    assert_eq!(t.get(&key("C")), 150);
    assert_eq!(total_count(&t, THRESHOLD), 250);
    assert_eq!(total_count(&t, 0), 349);
    assert_eq!(total_count(&t, 151), 0);
    assert_eq!(t.total_tokens(), 349);
}

#[test]
fn accumulating_twice_doubles_counts() {
    let doc = "spam eggs spam\tham\nspam";
    let mut t = FreqTable::new();
    add_document_to_bow(doc.as_bytes(), &mut t).unwrap();
    assert_eq!(t.get(&key("SPAM")), 3);
    assert_eq!(t.get(&key("EGGS")), 1);
    assert_eq!(t.get(&key("HAM")), 1);
    add_document_to_bow(doc.as_bytes(), &mut t).unwrap();
    assert_eq!(t.get(&key("SPAM")), 6);
    assert_eq!(t.get(&key("EGGS")), 2);
    assert_eq!(t.get(&key("HAM")), 2);
    assert_eq!(t.len(), 3);
    assert_eq!(t.total_tokens(), 10);
}

#[test]
fn case_variants_share_one_entry() {
    let t = table_of("Free FREE free fReE");
    assert_eq!(t.len(), 1);
    assert_eq!(t.token_at(0), "FREE");
    assert_eq!(t.count_at(0), 4);
    assert_eq!(t.get(&key("FREE")), 4);
    assert_eq!(t.get(&key("free")), 0);
}

#[test]
fn whitespace_runs_split_tokens() {
    let t = table_of("  one\t\ttwo\r\n\n three  one ");
    assert_eq!(t.len(), 3);
    assert_eq!(t.get(&key("ONE")), 2);
    assert_eq!(t.get(&key("TWO")), 1);
    assert_eq!(t.get(&key("THREE")), 1);
}

#[test]
fn punctuation_is_kept() {
    let t = table_of("free! free");
    assert_eq!(t.get(&key("FREE!")), 1);
    assert_eq!(t.get(&key("FREE")), 1);
}

#[test]
fn invalid_utf8_is_replaced() {
    let mut t = FreqTable::new();
    add_document_to_bow(b"caf\xff ok", &mut t).unwrap();
    assert_eq!(t.len(), 2);
    assert_eq!(t.get(&key("CAF\u{FFFD}")), 1);
    assert_eq!(t.get(&key("OK")), 1);
}

#[test]
fn zero_byte_document_adds_nothing() {
    let mut t = table_of("keep this");
    add_document_to_bow(b"", &mut t).unwrap();
    assert_eq!(t.len(), 2);
    assert_eq!(t.total_tokens(), 2);
}

fn scenario_tables() -> (FreqTable, FreqTable) {
    let ham = table_of(&format!("{}{}", repeated("FREE", 50), repeated("OFFER", 200)));
    let spam = table_of(&format!("{}{}", repeated("FREE", 300), repeated("OFFER", 10)));
    (ham, spam)
}

fn scores(terms: &[Term], ham_total: u64, spam_total: u64) -> (f64, f64) {
    let total = (ham_total + spam_total) as f64;
    let mut dp = 0.0;
    let mut spam_dp = 0.0;
    let mut ham_dp = 0.0;
    for t in terms {
        if t.spam_freq != 0 {
            spam_dp += (t.spam_freq as f64 / spam_total as f64).ln();
        }
        if t.ham_freq != 0 {
            ham_dp += (t.ham_freq as f64 / ham_total as f64).ln();
        }
        dp += ((t.spam_freq + t.ham_freq) as f64 / total).ln();
    }
    let spam_p = (spam_total as f64 / total).ln();
    let ham_p = (ham_total as f64 / total).ln();
    (spam_dp + spam_p - dp, ham_dp + ham_p - dp)
}

#[test]
fn free_document_is_spam() {
    let (ham, spam) = scenario_tables();
    let doc = table_of("free");
    let terms = document_terms(&ham, &spam, &doc, THRESHOLD);
    assert_eq!(terms, vec![Term { spam_freq: 300, ham_freq: 50 }]);
    assert_eq!(combined_total(250, 310), Ok(560));
    let (s, h) = scores(&terms, 250, 310);
    let expect_s = (300.0f64 / 310.0).ln() + (310.0f64 / 560.0).ln() - (350.0f64 / 560.0).ln();
    let expect_h = (50.0f64 / 250.0).ln() + (250.0f64 / 560.0).ln() - (350.0f64 / 560.0).ln();
    assert!((s - expect_s).abs() < 1e-12);
    assert!((h - expect_h).abs() < 1e-12);
    assert!(s > h);
}

#[test]
fn token_just_under_threshold_is_ignored() {
    let ham = table_of(&repeated("rare", 49));
    let spam = table_of(&format!("{}{}", repeated("rare", 50), repeated("common", 100)));
    let doc = table_of("rare common RARE");
    let terms = document_terms(&ham, &spam, &doc, THRESHOLD);
    assert_eq!(terms, vec![Term { spam_freq: 100, ham_freq: 0 }]);
    let only_common = table_of("common");
    assert_eq!(document_terms(&ham, &spam, &only_common, THRESHOLD), terms);
}

#[test]
fn token_at_threshold_is_admitted() {
    let ham = table_of(&repeated("edge", 40));
    let spam = table_of(&repeated("edge", 60));
    let doc = table_of("edge");
    assert_eq!(
        document_terms(&ham, &spam, &doc, THRESHOLD),
        vec![Term { spam_freq: 60, ham_freq: 40 }]
    );
}

#[test]
fn all_rare_document_scores_priors() {
    let (ham, spam) = scenario_tables();
    let doc = table_of("hello world unknown words");
    let terms = document_terms(&ham, &spam, &doc, THRESHOLD);
    assert!(terms.is_empty());
    let (s, h) = scores(&terms, 250, 310);
    assert_eq!(s, (310.0f64 / 560.0).ln());
    assert_eq!(h, (250.0f64 / 560.0).ln());
    assert!(s > h);
}

#[test]
fn empty_document_scores_priors() {
    let (ham, spam) = scenario_tables();
    let mut doc = FreqTable::new();
    add_document_to_bow(b"", &mut doc).unwrap();
    assert_eq!(doc.len(), 0);
    let terms = document_terms(&ham, &spam, &doc, THRESHOLD);
    assert!(terms.is_empty());
    let first = scores(&terms, 400, 100);
    let second = scores(&terms, 400, 100);
    assert_eq!(first, second);
    assert!(first.0 < first.1);
}

#[test]
fn verdict_counts_cover_every_document() {
    assert_eq!(count_verdicts(&vec![]), (0, 0));
    assert_eq!(count_verdicts(&vec![true, false, true, true, false]), (3, 2));
    assert_eq!(count_verdicts(&vec![false, false]), (0, 2));
}

#[test]
fn missing_training_data_is_an_error() {
    assert_eq!(combined_total(0, 310), Err(TrainingError::InsufficientTrainingData));
    assert_eq!(combined_total(250, 0), Err(TrainingError::InsufficientTrainingData));
    assert_eq!(combined_total(0, 0), Err(TrainingError::InsufficientTrainingData));
}

#[test]
fn oversized_totals_are_an_error() {
    assert_eq!(combined_total(u64::MAX, 1), Err(TrainingError::TotalTooLarge));
    assert_eq!(combined_total(u64::MAX - 1, 1), Ok(u64::MAX));
}
