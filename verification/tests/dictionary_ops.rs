use term_index::dictionary::Dictionary;
use term_index::error::DictError;

fn pairs(items: &[(&str, &str)]) -> Vec<(String, String)> {
    items.iter().map(|(t, d)| (t.to_string(), d.to_string())).collect()
}

#[test]
fn build_then_search_finds_every_entry() {
    let inputs = pairs(&[
        ("Compiler", "translates source code"),
        ("Interpreter", "executes directly"),
        ("Virtual Machine", "emulates a computer"),
    ]);
    let (dict, report) = Dictionary::build(&inputs);
    assert!(report.skipped.is_empty());
    for (term, def) in &inputs {
        let results = dict.search(term).unwrap();
        assert!(results.contains(def));
    }
}

#[test]
fn homonyms_keep_insertion_order() {
    let inputs = pairs(&[
        ("Bank", "An institution for money."),
        ("Bank", "The land beside a river."),
    ]);
    let (dict, report) = Dictionary::build(&inputs);
    assert!(report.skipped.is_empty());
    let results = dict.search("bank").unwrap();
    assert_eq!(
        results,
        vec![
            "An institution for money.".to_string(),
            "The land beside a river.".to_string(),
        ]
    );
}

#[test]
fn no_match_is_empty_not_error() {
    let inputs = pairs(&[("Compiler", "translates source code")]);
    let (dict, _) = Dictionary::build(&inputs);
    let results = dict.search("zzzznotaterm").unwrap();
    assert!(results.is_empty());
}

#[test]
fn empty_query_is_rejected() {
    let (dict, _) = Dictionary::build(&pairs(&[("Compiler", "translates")]));
    assert_eq!(dict.search("").unwrap_err(), DictError::QueryRejected);
    assert_eq!(dict.search("   \t ").unwrap_err(), DictError::QueryRejected);
}

#[test]
fn match_is_case_and_blank_insensitive() {
    let (dict, _) = Dictionary::build(&pairs(&[("Virtual Machine", "emulates a computer")]));
    let results = dict.search("  VIRTUAL   machine ").unwrap();
    assert_eq!(results, vec!["emulates a computer".to_string()]);
}

#[test]
fn match_is_exact_not_prefix_or_substring() {
    let (dict, _) = Dictionary::build(&pairs(&[("Compiler", "translates source code")]));
    assert!(dict.search("compile").unwrap().is_empty());
    assert!(dict.search("compilers").unwrap().is_empty());
    assert!(dict.search("omp").unwrap().is_empty());
}

#[test]
fn clean_batch_reports_zero_skips() {
    let inputs = pairs(&[("A", "first"), ("B", "second"), ("C", "third")]);
    let (_, report) = Dictionary::build(&inputs);
    assert_eq!(report.skipped.len(), 0);
}

#[test]
fn empty_terms_are_skipped_and_reported() {
    let inputs = pairs(&[
        ("Compiler", "translates source code"),
        ("", "definition of nothing"),
        ("   ", "blank term"),
        ("Interpreter", "executes directly"),
    ]);
    let (dict, report) = Dictionary::build(&inputs);
    let positions: Vec<usize> = report.skipped.iter().map(|s| s.position).collect();
    assert_eq!(positions, vec![1, 2]);
    for s in &report.skipped {
        assert_eq!(s.reason, DictError::InvalidInput);
    }
    assert_eq!(
        dict.search("compiler").unwrap(),
        vec!["translates source code".to_string()]
    );
    assert_eq!(
        dict.search("interpreter").unwrap(),
        vec!["executes directly".to_string()]
    );
}

#[test]
fn end_to_end_small_dataset() {
    let inputs = pairs(&[
        (
            "Trace-based",
            "A method of optimization that uses execution traces to identify hot code paths.",
        ),
        (
            "Compiler",
            "A program that translates source code into machine code or bytecode.",
        ),
    ]);
    let (dict, report) = Dictionary::build(&inputs);
    assert!(report.skipped.is_empty());
    assert_eq!(
        dict.search("compiler").unwrap(),
        vec!["A program that translates source code into machine code or bytecode.".to_string()]
    );
    assert_eq!(dict.search("interpreter").unwrap(), Vec::<String>::new());
}

#[test]
fn repeated_reads_of_static_index_agree() {
    let inputs = pairs(&[
        ("Bank", "An institution for money."),
        ("Bank", "The land beside a river."),
        ("Compiler", "translates source code"),
    ]);
    let (dict, _) = Dictionary::build(&inputs);
    let first = dict.search("bank").unwrap();
    for _ in 0..8 {
        assert_eq!(dict.search("bank").unwrap(), first);
    }
}

#[test]
fn insert_allocates_monotonic_ids_and_rejects_empty() {
    let mut dict = Dictionary::new();
    assert_eq!(dict.insert("Alpha", "first".to_string()).unwrap(), 0);
    assert_eq!(dict.insert("Beta", "second".to_string()).unwrap(), 1);
    assert_eq!(
        dict.insert("  ", "blank".to_string()).unwrap_err(),
        DictError::InvalidInput
    );
    assert_eq!(dict.insert("Gamma", "third".to_string()).unwrap(), 2);
    assert_eq!(dict.len(), 3);
    assert!(dict.search("blank").unwrap().is_empty());
}

#[test]
fn search_on_empty_dictionary() {
    let dict = Dictionary::new();
    assert!(dict.search("anything").unwrap().is_empty());
    assert_eq!(dict.search(" ").unwrap_err(), DictError::QueryRejected);
}

#[test]
fn rebuild_replaces_the_corpus_whole() {
    let (mut dict, _) = Dictionary::build(&pairs(&[("Old", "old definition")]));
    assert_eq!(dict.search("old").unwrap(), vec!["old definition".to_string()]);
    let report = dict.rebuild(&pairs(&[("New", "new definition"), ("", "skipped")]));
    assert_eq!(report.skipped.len(), 1);
    assert_eq!(report.skipped[0].position, 1);
    assert!(dict.search("old").unwrap().is_empty());
    assert_eq!(dict.search("new").unwrap(), vec!["new definition".to_string()]);
}

#[test]
fn insert_is_visible_in_full_after_write() {
    let mut dict = Dictionary::new();
    dict.insert("Bank", "first sense".to_string()).unwrap();
    let before = dict.search("bank").unwrap();
    assert_eq!(before, vec!["first sense".to_string()]);
    dict.insert("Bank", "second sense".to_string()).unwrap();
    let after = dict.search("bank").unwrap();
    assert_eq!(
        after,
        vec!["first sense".to_string(), "second sense".to_string()]
    );
}
