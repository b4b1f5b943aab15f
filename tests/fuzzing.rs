use earley_cfg::compile::compile;
use earley_cfg::earley::contains;
use earley_cfg::fuzz::{derive_step, find_mismatch, start_fuzzer, DeriveStep, FuzzError, Fuzzer};
use earley_cfg::grammar::Symbol::{Nonterminal, Terminal};

#[test]
fn out_words_get_a_prefix() {
    let out = Fuzzer::new(1, 1, 1).generate_out_words(&vec![b"ab".to_vec(), vec![]]);
    assert_eq!(out, vec![b"cabab".to_vec(), b"cab".to_vec()]);
}

#[test]
fn alphabets_merge_sorted() {
    let fuzzer = Fuzzer::new(1, 1, 1);
    let merged = fuzzer.merge_alphabet(&vec![vec![b'c', b'a'], vec![b'b', b'a'], vec![]]).unwrap();
    assert_eq!(merged, vec![b'a', b'b', b'c']);
    assert!(matches!(fuzzer.merge_alphabet(&vec![vec![], vec![]]), Err(FuzzError::EmptyAlphabet)));
}

#[test]
fn generated_words_are_members() {
    let g = compile("S -> a S | b S | a | b", false).unwrap();
    let fuzzer = Fuzzer::new(20, 2, 10);
    let words = fuzzer.generate_in_words(&g).unwrap();
    assert_eq!(words.len(), 20);
    for (i, w) in words.iter().enumerate() {
        assert!(w.len() >= 2 && w.len() <= 10);
        assert!(contains(&g, w));
        assert!(!words[..i].contains(w));
    }
}

#[test]
fn impossible_word_count_fails() {
    let g = compile("S -> a", false).unwrap();
    let fuzzer = Fuzzer::new(2, 1, 5);
    assert!(matches!(
        fuzzer.generate_in_words(&g),
        Err(FuzzError::Generation { got: 1, wanted: 2 })
    ));
}

#[test]
fn mismatch_is_found_at_first_disagreement() {
    let a = compile("S -> a S | a", false).unwrap();
    let b = compile("S -> a S | a", false).unwrap();
    let c = compile("S -> a a S | a", false).unwrap();
    let words = vec![b"a".to_vec(), b"aaa".to_vec(), b"aa".to_vec(), b"b".to_vec()];
    let m = find_mismatch(&a, &b, &c, &words).unwrap();
    assert_eq!(m.index, 2);
    assert_eq!(m.word, b"aa".to_vec());
    assert!(m.before && m.after1 && !m.after2);
    assert!(find_mismatch(&a, &b, &b, &words).is_none());
}

#[test]
fn equivalent_grammars_pass() {
    let before = "S -> a S | b S | a | b";
    let after = "S -> a S\nS -> b S\nS -> a\nS -> b";
    let report = start_fuzzer(before, after, after).unwrap();
    assert_eq!(report.passed, 100);
    assert_eq!(report.in_words.len(), 50);
    assert_eq!(report.alphabet, vec![b'a', b'b']);
    for (w, o) in report.in_words.iter().zip(report.out_words.iter()) {
        assert_eq!(&o[..3], b"cab");
        assert_eq!(&o[3..], &w[..]);
    }
}

#[test]
fn different_grammars_mismatch() {
    let before = "S -> a S | b S | a | b";
    let after = "S -> a S\nS -> a";
    assert!(matches!(start_fuzzer(before, after, after), Err(FuzzError::Mismatch(_))));
}

#[test]
fn compile_errors_surface() {
    assert!(matches!(start_fuzzer("S a", "S -> a", "S -> a"), Err(FuzzError::Compile(_))));
}

#[test]
fn derive_step_rewrites_the_chosen_nonterminal() {
    let g = compile("S -> a S b | c", false).unwrap();
    let form = vec![Terminal(b'x'), Nonterminal(0), Nonterminal(0)];
    match derive_step(&g, &form, 1, 0, 10) {
        DeriveStep::Form(f) => assert_eq!(
            f,
            vec![Terminal(b'x'), Nonterminal(0), Terminal(b'a'), Nonterminal(0), Terminal(b'b')]
        ),
        _ => panic!("expected a form"),
    }
    match derive_step(&g, &form, 0, 1, 10) {
        DeriveStep::Form(f) => assert_eq!(f, vec![Terminal(b'x'), Terminal(b'c'), Nonterminal(0)]),
        _ => panic!("expected a form"),
    }
    assert!(matches!(derive_step(&g, &form, 2, 0, 10), DeriveStep::Stop));
    assert!(matches!(derive_step(&g, &form, 0, 2, 10), DeriveStep::Stop));
    assert!(matches!(derive_step(&g, &form, 0, 0, 2), DeriveStep::Stop));
    match derive_step(&g, &vec![Terminal(b'a'), Terminal(b'b')], 5, 5, 0) {
        DeriveStep::Word(w) => assert_eq!(w, b"ab".to_vec()),
        _ => panic!("expected a word"),
    }
}

#[test]
fn collected_words_are_distinct_members_in_range() {
    let g = compile("S -> a S | a", false).unwrap();
    let fuzzer = Fuzzer::new(2, 2, 3);
    let results = vec![
        None,
        Some(b"a".to_vec()),
        Some(b"aa".to_vec()),
        Some(b"ab".to_vec()),
        Some(b"aa".to_vec()),
        Some(b"aaaa".to_vec()),
        Some(b"aaa".to_vec()),
        Some(b"aa".to_vec()),
    ];
    assert_eq!(fuzzer.collect_words(&g, &results), vec![b"aa".to_vec(), b"aaa".to_vec()]);
    let mut words = vec![b"aa".to_vec()];
    fuzzer.keep_word(&g, &mut words, &Some(b"aaa".to_vec()));
    fuzzer.keep_word(&g, &mut words, &Some(b"aa".to_vec()));
    assert_eq!(words, vec![b"aa".to_vec(), b"aaa".to_vec()]);
}

#[test]
fn check_words_reports_first_disagreement() {
    let fuzzer = Fuzzer::new(2, 1, 5);
    let a = compile("S -> a S | a", false).unwrap();
    let b = compile("S -> a S\nS -> a", true).unwrap();
    let c = compile("S -> a S\nS -> a\nS -> c a b a", true).unwrap();
    let words = vec![b"a".to_vec(), b"aa".to_vec()];
    let report = fuzzer.check_words(a, b, c, vec![b'a'], words).unwrap_err();
    match report {
        FuzzError::Mismatch(m) => {
            assert_eq!(m.index, 2);
            assert_eq!(m.word, b"caba".to_vec());
            assert!(!m.before && !m.after1 && m.after2);
        }
        _ => panic!("expected a mismatch"),
    }
    let a = compile("S -> a S | a", false).unwrap();
    let b = compile("S -> a S\nS -> a", true).unwrap();
    let rep = fuzzer.check_words(a, b, compile("S -> a | a S", false).unwrap(), vec![b'a'], vec![b"a".to_vec()]).unwrap();
    assert_eq!(rep.passed, 2);
    assert_eq!(rep.out_words, vec![b"caba".to_vec()]);
}

#[test]
fn zero_words_always_pass() {
    let fuzzer = Fuzzer::new(0, 1, 5);
    let rep = fuzzer.fuzz_equivalence("S -> a", "S -> b", "S -> c").unwrap();
    assert_eq!(rep.passed, 0);
    assert!(matches!(start_fuzzer("S -> a", "S -> a", "S -> ab"), Err(FuzzError::Compile(_))));
}
