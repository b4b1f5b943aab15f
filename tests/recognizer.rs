use earley_cfg::compile::compile;
use earley_cfg::earley::{contains, Chart, Item};
use earley_cfg::grammar::{Grammar, Symbol};

fn piped(text: &str) -> Grammar {
    compile(text, false).expect("grammar compiles")
}

#[test]
fn left_recursion_terminates_and_accepts() {
    let g = piped("S -> S a | a");
    assert!(contains(&g, b"a"));
    assert!(contains(&g, b"aa"));
    assert!(contains(&g, b"aaa"));
    assert!(!contains(&g, b""));
    assert!(!contains(&g, b"b"));
    assert!(!contains(&g, b"aab"));
}

#[test]
fn epsilon_grammar_accepts_only_empty_word() {
    let g = Grammar { start: 0, productions: vec![vec![vec![]]], alphabet: vec![] };
    assert!(contains(&g, b""));
    assert!(!contains(&g, b"a"));
    assert!(!contains(&g, b"ab"));
    assert!(!contains(&g, &[0u8]));
}

#[test]
fn balanced_language() {
    let g = piped("S -> a S b | eps");
    assert!(contains(&g, b""));
    assert!(contains(&g, b"ab"));
    assert!(contains(&g, b"aabb"));
    assert!(contains(&g, b"aaabbb"));
    assert!(!contains(&g, b"aab"));
    assert!(!contains(&g, b"abab"));
    assert!(!contains(&g, b"ba"));
}

#[test]
fn ambiguity_does_not_change_membership() {
    let g = piped("S -> A | B\nA -> a\nB -> a");
    assert!(contains(&g, b"a"));
    assert!(contains(&g, b"a"));
    assert!(!contains(&g, b"aa"));
    assert!(!contains(&g, b""));
}

#[test]
fn bytes_outside_alphabet_are_rejected() {
    let g = piped("S -> a S | b S | a | b");
    assert_eq!(g.alphabet, vec![b'a', b'b']);
    assert!(!contains(&g, b"c"));
    assert!(!contains(&g, b"acb"));
    assert!(!contains(&g, &[0xffu8]));
    assert!(contains(&g, b"abba"));
}

#[test]
fn repeated_calls_agree() {
    let g = piped("E -> E + T | T\nT -> T * F | F\nF -> ( E ) | x");
    for w in [&b"x"[..], b"x+x", b"x*(x+x)", b"x+", b"(x", b""] {
        let first = contains(&g, w);
        assert_eq!(first, contains(&g, w));
        assert_eq!(first, contains(&g, w));
    }
    assert!(contains(&g, b"x*(x+x)"));
    assert!(contains(&g, b"(x)+x*x"));
    assert!(!contains(&g, b"x+"));
    assert!(!contains(&g, b"()"));
}

#[test]
fn compiling_twice_behaves_identically() {
    let text = "S -> a S b | A\nA -> c A | c";
    let g1 = piped(text);
    let g2 = piped(text);
    assert_eq!(g1.start, g2.start);
    assert_eq!(g1.productions, g2.productions);
    assert_eq!(g1.alphabet, g2.alphabet);
    for w in [&b"c"[..], b"acb", b"aacccbb", b"ab", b"", b"acbb"] {
        assert_eq!(contains(&g1, w), contains(&g2, w));
    }
}

#[test]
fn nullable_nonterminals_inside_productions() {
    let g = piped("S -> A b A\nA -> a | eps");
    assert!(contains(&g, b"b"));
    assert!(contains(&g, b"ab"));
    assert!(contains(&g, b"ba"));
    assert!(contains(&g, b"aba"));
    assert!(!contains(&g, b"aa"));
}

#[test]
fn nonterminal_without_productions_generates_nothing() {
    let g = Grammar {
        start: 0,
        productions: vec![vec![vec![Symbol::Nonterminal(1)], vec![Symbol::Terminal(b'x')]], vec![]],
        alphabet: vec![b'x'],
    };
    assert!(contains(&g, b"x"));
    assert!(!contains(&g, b""));
    assert!(!contains(&g, b"xx"));
}

#[test]
fn chart_sets_only_grow() {
    let mut chart = Chart::new(2);
    assert_eq!(chart.num_positions(), 2);
    let it = Item { nt: 0, prod: 1, dot: 0, origin: 0 };
    let other = Item { nt: 0, prod: 1, dot: 1, origin: 0 };
    assert!(chart.insert(0, it));
    assert!(!chart.insert(0, it));
    assert_eq!(chart.row_len(0), 1);
    assert!(chart.insert(0, other));
    assert_eq!(chart.row_len(0), 2);
    assert_eq!(chart.get(0, 0), it);
    assert_eq!(chart.get(0, 1), other);
    assert!(chart.has(0, other));
    assert!(!chart.has(1, other));
    assert_eq!(chart.row_len(1), 0);
}

#[test]
fn nullable_nonterminal_predicted_after_its_completion() {
    let g = piped("S -> A A b\nA -> eps");
    assert!(contains(&g, b"b"));
    assert!(!contains(&g, b""));
    assert!(!contains(&g, b"bb"));
}

#[test]
fn chain_of_nullable_nonterminals() {
    let g = Grammar {
        start: 0,
        productions: vec![
            vec![vec![Symbol::Nonterminal(1), Symbol::Nonterminal(1)]],
            vec![vec![]],
        ],
        alphabet: vec![],
    };
    assert!(contains(&g, b""));
    assert!(!contains(&g, b"a"));
    let h = piped("S -> A B c\nA -> eps\nB -> A");
    assert!(contains(&h, b"c"));
    assert!(!contains(&h, b"cc"));
}
