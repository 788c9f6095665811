use stal::model::BayesianModel;
use stal::rating::{adjust_probabilities, token_rating};
use stal::fixed::combine;

/// Dataset entry helper: one author, one text.
fn entry(author: &str, text: &str) -> (String, String) {
    (author.to_string(), text.to_string())
}

/// Fifty distinct words for one author, sixty for another, each seen
/// five times, with disjoint vocabularies.
fn disjoint_dataset() -> Vec<(String, String)> {
    let mut dataset = Vec::new();
    for i in 0..50u32 {
        let w = format!("qa{}{}", (b'a' + (i / 26) as u8) as char, (b'a' + (i % 26) as u8) as char);
        for _ in 0..5 {
            dataset.push(entry("alpha", &w));
        }
    }
    for i in 0..60u32 {
        let w = format!("qb{}{}", (b'a' + (i / 26) as u8) as char, (b'a' + (i % 26) as u8) as char);
        for _ in 0..5 {
            dataset.push(entry("beta", &w));
        }
    }
    dataset
}

fn score_of(scores: &Vec<(String, u64)>, author: &str) -> u64 {
    for (name, s) in scores.iter() {
        if name == author {
            return *s;
        }
    }
    panic!("author missing from classification");
}

#[test]
fn tokenize_splits_words_and_separators() {
    let toks = BayesianModel::tokenize("The quick");
    assert_eq!(toks, vec!["The".to_string(), " ".to_string(), "quick".to_string()]);
}

#[test]
fn tokenize_empty_is_empty() {
    let toks = BayesianModel::tokenize("");
    assert!(toks.is_empty());
}

#[test]
fn preprocess_short_text_is_one_sentence() {
    let sentences = BayesianModel::preprocess("hello world");
    assert_eq!(sentences.len(), 1);
    assert_eq!(sentences[0].0, 0);
    assert_eq!(
        sentences[0].1,
        vec!["hello".to_string(), " ".to_string(), "world".to_string()]
    );
}

#[test]
fn computed_ratings_are_clamped() {
    // this = 5/10, other = 0/20: the raw quotient 1 is clamped to 0.7.
    assert_eq!(token_rating(5, 10, 5, 30), 700_000);
    // this = 1/10, other = 1/20: raw 2/3 stays inside the clamp.
    assert_eq!(token_rating(1, 10, 2, 30), 666_666);
    // An author trained on nothing falls back to the minimum rating.
    assert_eq!(token_rating(0, 0, 5, 30), 200_000);
}

#[test]
fn combination_of_known_lists() {
    assert_eq!(combine(&vec![200_000]), 200_000);
    assert_eq!(combine(&vec![400_000, 200_000]), 299_881);
}

#[test]
fn trimming_removes_two_from_each_tail() {
    // Ten ratings: the two lowest and two highest go.
    let input: Vec<u64> = (0..10u64).map(|i| 200_000 + i * 1_000).collect();
    let trimmed = adjust_probabilities(input);
    let expected: Vec<u64> = (2..8u64).map(|i| 200_000 + i * 1_000).collect();
    assert_eq!(trimmed, expected);
}

#[test]
fn trimming_keeps_short_lists_unsorted() {
    let input: Vec<u64> = vec![500_000, 300_000, 400_000];
    assert_eq!(adjust_probabilities(input.clone()), input);
}

#[test]
fn trimming_retains_exactly_eighty() {
    // Ninety ratings: after the first trim 86 remain, then only the
    // forty lowest and forty highest are kept.
    let input: Vec<u64> = (0..90u64).map(|i| 200_000 + i * 1_000).collect();
    let trimmed = adjust_probabilities(input);
    assert_eq!(trimmed.len(), 80);
    let mut expected: Vec<u64> = (2..42u64).map(|i| 200_000 + i * 1_000).collect();
    expected.extend((48..88u64).map(|i| 200_000 + i * 1_000));
    assert_eq!(trimmed, expected);
}

#[test]
fn matching_vocabulary_wins() {
    let model = BayesianModel::train(disjoint_dataset()).unwrap();
    let result = model.classify_text("qaaa");
    let a = score_of(&result.total_classification, "alpha");
    let b = score_of(&result.total_classification, "beta");
    assert_eq!(a, 700_000);
    assert_eq!(b, 299_881);
    assert!(a > b);
}

#[test]
fn empty_text_has_no_sentences_and_neutral_totals() {
    let model = BayesianModel::train(disjoint_dataset()).unwrap();
    let result = model.classify_text("");
    assert!(result.sentences_classification.is_empty());
    assert_eq!(result.total_classification.len(), 2);
    for (_, s) in result.total_classification.iter() {
        assert_eq!(*s, 500_000);
    }
}

#[test]
fn unknown_tokens_score_all_authors_alike() {
    let model = BayesianModel::train(disjoint_dataset()).unwrap();
    let result = model.classify_text("zzzz wwww");
    assert_eq!(result.sentences_classification.len(), 1);
    let sentence = &result.sentences_classification[0].1;
    assert_eq!(sentence[0].1, sentence[1].1);
    let t0 = result.total_classification[0].1;
    let t1 = result.total_classification[1].1;
    assert_eq!(t0, t1);
    assert!(t0 <= 1_000_000);
}

#[test]
fn author_without_tokens_gets_defined_scores() {
    let model = BayesianModel::train(vec![entry("ghost", ""), entry("writer", "hello")]).unwrap();
    let result = model.classify_text("hello");
    let g = score_of(&result.total_classification, "ghost");
    let w = score_of(&result.total_classification, "writer");
    assert_eq!(g, 299_881);
    assert_eq!(w, 200_000);
    assert!(g <= 1_000_000 && w <= 1_000_000);
}

#[test]
fn classification_is_deterministic() {
    let model = BayesianModel::train(disjoint_dataset()).unwrap();
    let text = "qaaa qbbb zzzz";
    let first = model.classify_text(text);
    let second = model.classify_text(text);
    assert_eq!(first.sentences_classification, second.sentences_classification);
    assert_eq!(first.total_classification, second.total_classification);
}

#[test]
fn scores_stay_in_unit_interval() {
    let model = BayesianModel::train(disjoint_dataset()).unwrap();
    let result = model.classify_text("qaaa qaab qbaa zzzz hello qbac qaac");
    for (_, sentence) in result.sentences_classification.iter() {
        for (_, s) in sentence.iter() {
            assert!(*s <= 1_000_000);
        }
    }
    for (_, s) in result.total_classification.iter() {
        assert!(*s <= 1_000_000);
    }
}

#[test]
fn chinese_vocabulary_attribution() {
    // Two authors with disjoint Chinese vocabularies; the segmenter
    // handles the script without any separator characters.
    let mut dataset = Vec::new();
    for _ in 0..5 {
        dataset.push(entry("wang", "山水画卷"));
        dataset.push(entry("li", "机器学习"));
    }
    let model = BayesianModel::train(dataset).unwrap();
    let result = model.classify_text("山水画卷");
    let w = score_of(&result.total_classification, "wang");
    let l = score_of(&result.total_classification, "li");
    assert!(w > l);
    assert!(w <= 1_000_000 && l <= 1_000_000);
}

#[test]
fn aggregate_is_mean_of_sentence_scores() {
    let model = BayesianModel::train(disjoint_dataset()).unwrap();
    // Long enough that the splitter must produce several sentences.
    let text = "qaaa qaab qaac qaad qaae qaaf qaag qaah qaai qaaj qaak qaal. \
                qbaa qbab qbac qbad qbae qbaf qbag qbah qbai qbaj qbak qbal. \
                qaaa qbaa zzzz wwww qaab qbab vvvv uuuu qaac qbac tttt ssss.";
    let result = model.classify_text(text);
    let n = result.sentences_classification.len();
    assert!(n >= 2);
    // Offsets never decrease across the document.
    for w in result.sentences_classification.windows(2) {
        assert!(w[0].0 <= w[1].0);
    }
    // The aggregate score is the per-author mean over the sentences.
    for (a, (name, total)) in result.total_classification.iter().enumerate() {
        let mut sum: u128 = 0;
        for (_, sentence) in result.sentences_classification.iter() {
            assert_eq!(&sentence[a].0, name);
            sum += sentence[a].1 as u128;
        }
        assert_eq!(*total as u128, sum / (n as u128));
    }
}

#[test]
fn empty_dataset_trains_an_empty_model() {
    let model = BayesianModel::train(Vec::new()).unwrap();
    let result = model.classify_text("anything");
    assert_eq!(result.total_classification.len(), 0);
}
