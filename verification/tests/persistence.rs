use stal::model::{BayesianModel, BayesianLoadError};

fn entry(author: &str, text: &str) -> (String, String) {
    (author.to_string(), text.to_string())
}

fn push_u64_le(out: &mut Vec<u8>, x: u64) {
    for i in 0..8 {
        out.push(((x >> (8 * i)) & 0xff) as u8);
    }
}

fn push_u32_le(out: &mut Vec<u8>, x: u32) {
    for i in 0..4 {
        out.push(((x >> (8 * i)) & 0xff) as u8);
    }
}

#[test]
fn save_produces_the_documented_layout() {
    // One author "a", one text holding the single token "x".
    let model = BayesianModel::train(vec![entry("a", "x")]).unwrap();
    let bytes = model.save();
    let mut expected: Vec<u8> = vec![1];
    push_u64_le(&mut expected, 1); // one author
    push_u64_le(&mut expected, 1); // its name is one byte
    expected.push(b'a');
    push_u64_le(&mut expected, 1); // one token
    push_u64_le(&mut expected, 1); // one byte long
    expected.push(b'x');
    push_u32_le(&mut expected, 1); // its count for "a"
    push_u32_le(&mut expected, 1); // author total
    push_u32_le(&mut expected, 1); // grand total
    assert_eq!(bytes, expected);
}

#[test]
fn load_of_save_classifies_identically() {
    let dataset = vec![
        entry("alpha", "green apples ripen slowly"),
        entry("alpha", "green pears"),
        entry("beta", "blue engines hum loudly"),
        entry("beta", "blue turbines"),
    ];
    let model = BayesianModel::train(dataset).unwrap();
    let bytes = model.save();
    let reloaded = BayesianModel::load(&bytes).unwrap();
    let text = "green engines hum slowly near blue apples";
    let first = model.classify_text(text);
    let second = reloaded.classify_text(text);
    assert_eq!(first.sentences_classification, second.sentences_classification);
    assert_eq!(first.total_classification, second.total_classification);
    // A second save of the reloaded model reproduces the bytes.
    assert_eq!(reloaded.save(), bytes);
}

#[test]
fn load_rejects_empty_bytes() {
    assert_eq!(
        BayesianModel::load(&Vec::new()).unwrap_err(),
        BayesianLoadError::Deserialization
    );
}

#[test]
fn load_rejects_unknown_version() {
    let model = BayesianModel::train(vec![entry("a", "x")]).unwrap();
    let mut bytes = model.save();
    bytes[0] = 2;
    assert!(BayesianModel::load(&bytes).is_err());
}

#[test]
fn load_rejects_truncated_bytes() {
    let model = BayesianModel::train(vec![entry("a", "x")]).unwrap();
    let mut bytes = model.save();
    bytes.pop();
    assert!(BayesianModel::load(&bytes).is_err());
}

#[test]
fn load_rejects_inconsistent_totals() {
    let model = BayesianModel::train(vec![entry("a", "x")]).unwrap();
    let mut bytes = model.save();
    // Corrupt the grand total at the tail of the encoding.
    let n = bytes.len();
    bytes[n - 4] = 9;
    assert!(BayesianModel::load(&bytes).is_err());
}

#[test]
fn load_rejects_trailing_garbage() {
    let model = BayesianModel::train(vec![entry("a", "x")]).unwrap();
    let mut bytes = model.save();
    bytes.push(0);
    assert!(BayesianModel::load(&bytes).is_err());
}
