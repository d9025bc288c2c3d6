use catlearn::decision_tree::DecisionTreeClassifier;
use catlearn::decision_tree::FitError;
use catlearn::decision_tree::Node;
use catlearn::naive_bayes::NaiveBayesClassifier;
use catlearn::one_r::OneRClassifier;

fn rows(data: &[&[&str]]) -> Vec<Vec<String>> {
    data.iter().map(|r| r.iter().map(|s| s.to_string()).collect()).collect()
}

fn labels(data: &[&str]) -> Vec<String> {
    data.iter().map(|s| s.to_string()).collect()
}

#[test]
fn tree_weather_scenario_pure_branch() {
    let x = rows(&[&["Sunny", "Hot"], &["Sunny", "Hot"], &["Overcast", "Hot"], &["Rain", "Mild"]]);
    let y = labels(&["No", "No", "Yes", "Yes"]);
    let mut model = DecisionTreeClassifier::new();
    assert!(model.fit(&x, &y).is_ok());
    let p = model.predict(&rows(&[&["Sunny", "Mild"]]));
    assert_eq!(p, labels(&["No"]));
}

#[test]
fn tree_weather_scenario_unseen_value_falls_back() {
    let x = rows(&[&["Sunny", "Hot"], &["Sunny", "Hot"], &["Overcast", "Hot"], &["Rain", "Mild"]]);
    let y = labels(&["No", "No", "Yes", "Yes"]);
    let mut model = DecisionTreeClassifier::new();
    assert!(model.fit(&x, &y).is_ok());
    // Global majority is a 2-2 tie; the first-seen label "No" wins.
    let p = model.predict(&rows(&[&["Snowy", "Hot"]]));
    assert_eq!(p, labels(&["No"]));
}

#[test]
fn tree_weather_scenario_splits_on_separating_attribute() {
    let x = rows(&[&["Sunny", "Hot"], &["Sunny", "Hot"], &["Overcast", "Hot"], &["Rain", "Mild"]]);
    let y = labels(&["No", "No", "Yes", "Yes"]);
    let model = DecisionTreeClassifier::new();
    let indices: Vec<usize> = vec![0, 1, 2, 3];
    let feats: Vec<usize> = vec![0, 1];
    let node = model.build_tree(&x, &y, &indices, &feats);
    match node {
        Node::Decision { feature_index, branches } => {
            assert_eq!(feature_index, 0);
            assert_eq!(branches.len(), 3);
            // The Sunny branch is pure, so it is a leaf carrying "No".
            let sunny = branches.iter().find(|b| b.0 == "Sunny").unwrap();
            match &sunny.1 {
                Node::Leaf(c) => assert_eq!(c, "No"),
                _ => panic!("Sunny branch should be a leaf"),
            }
        },
        _ => panic!("root should be a decision node"),
    }
}

#[test]
fn tree_single_attribute_perfect_separation_depth_one() {
    let x = rows(&[&["A"], &["A"], &["B"], &["B"]]);
    let y = labels(&["p", "p", "q", "q"]);
    let model = DecisionTreeClassifier::new();
    let indices: Vec<usize> = vec![0, 1, 2, 3];
    let feats: Vec<usize> = vec![0];
    let node = model.build_tree(&x, &y, &indices, &feats);
    match node {
        Node::Decision { feature_index, branches } => {
            assert_eq!(feature_index, 0);
            assert_eq!(branches.len(), 2);
            for b in &branches {
                assert!(matches!(b.1, Node::Leaf(_)));
            }
        },
        _ => panic!("root should be a decision node"),
    }
    // Zero misclassifications on the training data.
    let mut trained = DecisionTreeClassifier::new();
    assert!(trained.fit(&x, &y).is_ok());
    assert_eq!(trained.predict(&x), y);
}

#[test]
fn tree_no_attributes_left_majority_leaf() {
    let x = rows(&[&["v"], &["v"], &["v"]]);
    let y = labels(&["A", "A", "B"]);
    let model = DecisionTreeClassifier::new();
    let indices: Vec<usize> = vec![0, 1, 2];
    let feats: Vec<usize> = vec![];
    let node = model.build_tree(&x, &y, &indices, &feats);
    match node {
        Node::Leaf(c) => assert_eq!(c, "A"),
        _ => panic!("with no attributes left the builder must return a leaf"),
    }
}

#[test]
fn tree_predict_is_total_on_short_rows() {
    let x = rows(&[&["a", "x"], &["b", "y"], &["a", "x"], &["b", "z"]]);
    let y = labels(&["p", "q", "p", "q"]);
    let mut model = DecisionTreeClassifier::new();
    assert!(model.fit(&x, &y).is_ok());
    // One label per row, even for empty or unseen rows.
    let queries = vec![
        vec![],
        vec!["zzz".to_string()],
        vec!["a".to_string(), "x".to_string()],
    ];
    let p = model.predict(&queries);
    assert_eq!(p.len(), 3);
    assert_eq!(p[2], "p");
}

#[test]
fn tree_fit_rejects_empty_training_set() {
    let mut model = DecisionTreeClassifier::new();
    let x: Vec<Vec<String>> = vec![];
    let y: Vec<String> = vec![];
    assert_eq!(model.fit(&x, &y), Err(FitError::EmptyTrainingSet));
}

#[test]
fn tree_fit_rejects_length_mismatch() {
    let mut model = DecisionTreeClassifier::new();
    let x = rows(&[&["a"], &["b"]]);
    let y = labels(&["p"]);
    assert_eq!(model.fit(&x, &y), Err(FitError::LengthMismatch));
}

#[test]
fn tree_fit_rejects_ragged_rows() {
    let mut model = DecisionTreeClassifier::new();
    let x = rows(&[&["a", "x"], &["b"]]);
    let y = labels(&["p", "q"]);
    assert_eq!(model.fit(&x, &y), Err(FitError::RaggedRows));
}

#[test]
fn tree_fit_twice_predicts_identically() {
    let x = rows(&[&["Sunny", "Hot"], &["Sunny", "Hot"], &["Overcast", "Hot"], &["Rain", "Mild"]]);
    let y = labels(&["No", "No", "Yes", "Yes"]);
    let queries = rows(&[&["Sunny", "Mild"], &["Rain", "Mild"], &["Snowy", "Hot"], &["Overcast", "Hot"]]);
    let mut m1 = DecisionTreeClassifier::new();
    let mut m2 = DecisionTreeClassifier::new();
    assert!(m1.fit(&x, &y).is_ok());
    assert!(m2.fit(&x, &y).is_ok());
    assert_eq!(m1.predict(&queries), m2.predict(&queries));
    // Refitting the same model fully replaces its state.
    assert!(m1.fit(&x, &y).is_ok());
    assert_eq!(m1.predict(&queries), m2.predict(&queries));
}

#[test]
fn tree_untrained_predicts_empty_default() {
    let model = DecisionTreeClassifier::new();
    let p = model.predict(&rows(&[&["anything"]]));
    assert_eq!(p, labels(&[""]));
}

#[test]
fn tree_zero_gain_gives_majority_leaf() {
    // The attribute does not separate the classes at all: no split helps.
    let x = rows(&[&["v"], &["v"], &["v"], &["v"]]);
    let y = labels(&["A", "B", "A", "A"]);
    let model = DecisionTreeClassifier::new();
    let indices: Vec<usize> = vec![0, 1, 2, 3];
    let feats: Vec<usize> = vec![0];
    let node = model.build_tree(&x, &y, &indices, &feats);
    match node {
        Node::Leaf(c) => assert_eq!(c, "A"),
        _ => panic!("a split with zero gain must not be taken"),
    }
}

#[test]
fn one_r_picks_attribute_with_fewest_errors() {
    let x = rows(&[
        &["Sunny", "Hot"],
        &["Sunny", "Hot"],
        &["Rain", "Cool"],
        &["Rain", "Hot"],
    ]);
    let y = labels(&["No", "No", "Yes", "No"]);
    let mut model = OneRClassifier::new();
    assert!(model.fit(&x, &y).is_ok());
    // Attribute 0 misclassifies one Rain row; attribute 1 is error-free.
    assert_eq!(model.get_best_feature_index(), 1);
    let p = model.predict(&rows(&[&["Sunny", "Cool"], &["Snowy", "Hot"]]));
    assert_eq!(p, labels(&["Yes", "No"]));
}

#[test]
fn one_r_tie_keeps_first_attribute() {
    let x = rows(&[&["a", "u"], &["b", "v"]]);
    let y = labels(&["p", "q"]);
    let mut model = OneRClassifier::new();
    assert!(model.fit(&x, &y).is_ok());
    assert_eq!(model.get_best_feature_index(), 0);
}

#[test]
fn one_r_unseen_value_and_short_row_fall_back() {
    let x = rows(&[&["a"], &["a"], &["b"]]);
    let y = labels(&["p", "p", "q"]);
    let mut model = OneRClassifier::new();
    assert!(model.fit(&x, &y).is_ok());
    let p = model.predict(&vec![vec!["zzz".to_string()], vec![]]);
    // The global majority is "p".
    assert_eq!(p, labels(&["p", "p"]));
}

#[test]
fn one_r_fit_rejects_bad_input() {
    let mut model = OneRClassifier::new();
    let empty_x: Vec<Vec<String>> = vec![];
    let empty_y: Vec<String> = vec![];
    assert_eq!(model.fit(&empty_x, &empty_y), Err(FitError::EmptyTrainingSet));
    let x = rows(&[&["a"], &["b"]]);
    assert_eq!(model.fit(&x, &labels(&["p"])), Err(FitError::LengthMismatch));
    let ragged = rows(&[&["a", "x"], &["b"]]);
    assert_eq!(model.fit(&ragged, &labels(&["p", "q"])), Err(FitError::RaggedRows));
}

#[test]
fn naive_bayes_prefers_likely_class() {
    let x = rows(&[&["Sunny"], &["Sunny"], &["Rain"]]);
    let y = labels(&["No", "No", "Yes"]);
    let mut model = NaiveBayesClassifier::new();
    assert!(model.fit(&x, &y).is_ok());
    // P(No|Sunny) ~ (2/3)*(3/4) = 1/2 beats P(Yes|Sunny) ~ (1/3)*(1/3) = 1/9.
    // P(Yes|Rain) ~ (1/3)*(2/3) = 2/9 beats P(No|Rain) ~ (2/3)*(1/4) = 1/6.
    let p = model.predict(&rows(&[&["Sunny"], &["Rain"]]));
    assert_eq!(p, labels(&["No", "Yes"]));
}

#[test]
fn naive_bayes_smoothing_handles_unseen_values() {
    let x = rows(&[&["a"], &["a"], &["b"]]);
    let y = labels(&["p", "p", "q"]);
    let mut model = NaiveBayesClassifier::new();
    assert!(model.fit(&x, &y).is_ok());
    // An unseen value leaves only the priors: "p" has the higher one.
    let p = model.predict(&rows(&[&["zzz"]]));
    assert_eq!(p, labels(&["p"]));
}

#[test]
fn naive_bayes_untrained_predicts_empty_string() {
    let model = NaiveBayesClassifier::new();
    let p = model.predict(&rows(&[&["a"]]));
    assert_eq!(p, labels(&[""]));
}

#[test]
fn naive_bayes_fit_rejects_bad_input() {
    let mut model = NaiveBayesClassifier::new();
    let empty_x: Vec<Vec<String>> = vec![];
    let empty_y: Vec<String> = vec![];
    assert_eq!(model.fit(&empty_x, &empty_y), Err(FitError::EmptyTrainingSet));
    let x = rows(&[&["a"], &["b"]]);
    assert_eq!(model.fit(&x, &labels(&["p"])), Err(FitError::LengthMismatch));
    let ragged = rows(&[&["a", "x"], &["b"]]);
    assert_eq!(model.fit(&ragged, &labels(&["p", "q"])), Err(FitError::RaggedRows));
}

#[test]
fn naive_bayes_fit_twice_predicts_identically() {
    let x = rows(&[&["a", "u"], &["a", "v"], &["b", "u"], &["b", "v"]]);
    let y = labels(&["p", "p", "q", "p"]);
    let queries = rows(&[&["a", "u"], &["b", "u"], &["zzz", "v"]]);
    let mut m1 = NaiveBayesClassifier::new();
    let mut m2 = NaiveBayesClassifier::new();
    assert!(m1.fit(&x, &y).is_ok());
    assert!(m2.fit(&x, &y).is_ok());
    assert_eq!(m1.predict(&queries), m2.predict(&queries));
}

#[test]
fn majority_tie_keeps_first_seen_label() {
    // Counts tie 2-2; "B" was seen first, so it is the default class.
    let x = rows(&[&["a"], &["b"], &["c"], &["d"]]);
    let y = labels(&["B", "A", "A", "B"]);
    let mut model = DecisionTreeClassifier::new();
    assert!(model.fit(&x, &y).is_ok());
    let p = model.predict(&rows(&[&["zzz"]]));
    assert_eq!(p, labels(&["B"]));
}

#[test]
fn tree_deeper_dataset_buy_computer_style() {
    let x = rows(&[
        &["<=30", "High", "No", "Fair"],
        &["<=30", "High", "No", "Excellent"],
        &["31-40", "High", "No", "Fair"],
        &[">40", "Medium", "No", "Fair"],
        &[">40", "Low", "Yes", "Fair"],
        &[">40", "Low", "Yes", "Excellent"],
        &["31-40", "Low", "Yes", "Excellent"],
        &["<=30", "Medium", "No", "Fair"],
        &["<=30", "Low", "Yes", "Fair"],
        &[">40", "Medium", "Yes", "Fair"],
        &["<=30", "Medium", "Yes", "Excellent"],
        &["31-40", "Medium", "No", "Excellent"],
        &["31-40", "High", "Yes", "Fair"],
        &[">40", "Medium", "No", "Excellent"],
    ]);
    let y = labels(&[
        "No", "No", "Yes", "Yes", "Yes", "No", "Yes", "No", "Yes", "Yes", "Yes", "Yes", "Yes",
        "No",
    ]);
    let mut model = DecisionTreeClassifier::new();
    assert!(model.fit(&x, &y).is_ok());
    // The tree reproduces its own training data exactly: this dataset is
    // consistent, so every training subset ends in a pure leaf.
    assert_eq!(model.predict(&x), y);
    // Classic expected answer for this dataset.
    let p = model.predict(&rows(&[&["31-40", "High", "Yes", "Fair"]]));
    assert_eq!(p, labels(&["Yes"]));
}

fn path_reuses_attribute(node: &Node, used: &mut Vec<usize>) -> bool {
    match node {
        Node::Leaf(_) => false,
        Node::Decision { feature_index, branches } => {
            if used.contains(feature_index) {
                return true;
            }
            used.push(*feature_index);
            for b in branches {
                if path_reuses_attribute(&b.1, used) {
                    return true;
                }
            }
            used.pop();
            false
        },
    }
}

#[test]
fn tree_never_reuses_attribute_on_a_path() {
    let x = rows(&[
        &["<=30", "High", "No", "Fair"],
        &["<=30", "High", "No", "Excellent"],
        &["31-40", "High", "No", "Fair"],
        &[">40", "Medium", "No", "Fair"],
        &[">40", "Low", "Yes", "Fair"],
        &[">40", "Low", "Yes", "Excellent"],
        &["31-40", "Low", "Yes", "Excellent"],
        &["<=30", "Medium", "No", "Fair"],
        &["<=30", "Low", "Yes", "Fair"],
        &[">40", "Medium", "Yes", "Fair"],
        &["<=30", "Medium", "Yes", "Excellent"],
        &["31-40", "Medium", "No", "Excellent"],
        &["31-40", "High", "Yes", "Fair"],
        &[">40", "Medium", "No", "Excellent"],
    ]);
    let y = labels(&[
        "No", "No", "Yes", "Yes", "Yes", "No", "Yes", "No", "Yes", "Yes", "Yes", "Yes", "Yes",
        "No",
    ]);
    let model = DecisionTreeClassifier::new();
    let indices: Vec<usize> = (0..x.len()).collect();
    let feats: Vec<usize> = (0..x[0].len()).collect();
    let node = model.build_tree(&x, &y, &indices, &feats);
    let mut used: Vec<usize> = Vec::new();
    assert!(!path_reuses_attribute(&node, &mut used));
}
