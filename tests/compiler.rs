use earley_cfg::compile::{compile, CompileError};
use earley_cfg::grammar::Symbol::{Nonterminal, Terminal};

#[test]
fn ids_follow_first_occurrence() {
    let g = compile("S -> A <b> c\n# comment\n\nA -> a B\n", true).unwrap();
    assert_eq!(g.start, 0);
    assert_eq!(g.productions.len(), 4);
    assert_eq!(g.productions[0], vec![vec![Nonterminal(1), Nonterminal(2), Terminal(b'c')]]);
    assert_eq!(g.productions[1], vec![vec![Terminal(b'a'), Nonterminal(3)]]);
    assert!(g.productions[2].is_empty());
    assert!(g.productions[3].is_empty());
    assert_eq!(g.alphabet, vec![b'a', b'c']);
}

#[test]
fn pipe_mode_splits_alternatives() {
    let g = compile("S -> a S | b | eps", false).unwrap();
    assert_eq!(
        g.productions[0],
        vec![vec![Terminal(b'a'), Nonterminal(0)], vec![Terminal(b'b')], vec![]]
    );
    assert_eq!(g.alphabet, vec![b'a', b'b']);
}

#[test]
fn one_alternative_mode_keeps_pipes_as_terminals() {
    let g = compile("S -> a | b", true).unwrap();
    assert_eq!(g.productions[0], vec![vec![Terminal(b'a'), Terminal(b'|'), Terminal(b'b')]]);
    assert_eq!(g.alphabet, vec![b'a', b'b', b'|']);
}

#[test]
fn rules_for_one_name_accumulate_in_order() {
    let g = compile("S -> b\nS -> a\r\nS -> ε", true).unwrap();
    assert_eq!(g.productions[0], vec![vec![Terminal(b'b')], vec![Terminal(b'a')], vec![]]);
}

#[test]
fn missing_arrow_is_malformed() {
    assert_eq!(compile("S -> a\n\nS a", true).unwrap_err(), CompileError::MalformedRule { line: 3 });
}

#[test]
fn two_arrows_are_malformed() {
    assert_eq!(compile("S -> a -> b", false).unwrap_err(), CompileError::MalformedRule { line: 1 });
}

#[test]
fn malformed_rule_is_reported_before_terminals() {
    assert_eq!(compile("S -> ab\nT", false).unwrap_err(), CompileError::MalformedRule { line: 2 });
}

#[test]
fn long_terminal_is_invalid() {
    assert_eq!(
        compile("S -> a\nT -> xy z", true).unwrap_err(),
        CompileError::InvalidTerminal { token: b"xy".to_vec() }
    );
}

#[test]
fn no_terminals_is_empty_alphabet() {
    assert_eq!(compile("S -> A\nA -> eps", true).unwrap_err(), CompileError::EmptyAlphabet);
}

#[test]
fn no_rules_is_empty_grammar() {
    assert_eq!(compile("# only a comment\n\n   \n", true).unwrap_err(), CompileError::EmptyGrammar);
    assert_eq!(compile("", false).unwrap_err(), CompileError::EmptyGrammar);
}

#[test]
fn angle_bracket_names_are_nonterminals() {
    let g = compile("<expr> -> <expr> + x | <y>\n<y> -> y", false).unwrap();
    assert_eq!(g.productions.len(), 2);
    assert_eq!(
        g.productions[0],
        vec![vec![Nonterminal(0), Terminal(b'+'), Terminal(b'x')], vec![Nonterminal(1)]]
    );
    assert_eq!(g.productions[1], vec![vec![Terminal(b'y')]]);
    assert_eq!(g.start, 0);
}

#[test]
fn unicode_whitespace_only_line_is_blank() {
    assert_eq!(compile("\u{3000}", true).unwrap_err(), CompileError::EmptyGrammar);
    assert_eq!(compile("\u{00A0}\u{2003}\n# note\u{0085}", false).unwrap_err(), CompileError::EmptyGrammar);
}

#[test]
fn unicode_whitespace_separates_tokens() {
    let g = compile("S\u{2009}->\u{3000}a\u{00A0}b\u{1680}\u{205F}C\u{2028}\nC -> c", true).unwrap();
    assert_eq!(
        g.productions[0],
        vec![vec![Terminal(b'a'), Terminal(b'b'), Nonterminal(1)]]
    );
    assert_eq!(
        compile("S -> ab\u{3000}c", true).unwrap_err(),
        CompileError::InvalidTerminal { token: b"ab".to_vec() }
    );
    assert_eq!(
        compile("S -> <a\u{3000}b>", true).unwrap_err(),
        CompileError::InvalidTerminal { token: b"<a".to_vec() }
    );
}

#[test]
fn non_whitespace_multibyte_terminal_is_invalid() {
    assert_eq!(
        compile("S -> \u{00E9}", true).unwrap_err(),
        CompileError::InvalidTerminal { token: "\u{00E9}".as_bytes().to_vec() }
    );
}
