use std::collections::HashSet;

use pcfg_tool::induce::{first_matching_subtree, InductionError, OccurrenceRules};
use pcfg_tool::ptb::{PTBParser, ParseTree};
use pcfg_tool::{Body, Grammar, Probability, Rule};

fn lex(head: &str, word: &str) -> Rule {
    Rule {
        head: head.to_string(),
        body: Body::Lexical(word.to_string()),
    }
}

fn nonlex(head: &str, symbols: &[&str]) -> Rule {
    Rule {
        head: head.to_string(),
        body: Body::NonLexical(symbols.iter().map(|s| s.to_string()).collect()),
    }
}

fn julius_grammar() -> Grammar {
    let input = "(S (NP (NNP Julius)) (VP (VB stabs) (NP (NN him))))";
    let tree = PTBParser::parse(input).expect("This should be parsable");
    Grammar::from_parse_trees(String::from("S"), vec![tree]).expect("This is a valid initial")
}

#[test]
fn head_groups_sum_exactly_to_one() {
    let grammar = julius_grammar();
    let rules = grammar.rules();
    for (outer, probability) in rules.iter() {
        let mut total: u64 = 0;
        for (inner, other) in rules.iter() {
            if inner.head == outer.head {
                total += other.num;
            }
        }
        assert_eq!(probability.den, total);
        assert!(probability.num >= 1);
    }
}

#[test]
fn renormalising_keeps_the_table() {
    let mut grammar = julius_grammar();
    let before: Vec<(Rule, Probability)> = grammar.rules().clone();
    grammar.normalise();
    assert_eq!(grammar.rules(), &before);
}

#[test]
fn nonterminals_include_start_of_degenerate_tree() {
    let tree = PTBParser::parse("(A word)").expect("This should be parsable");
    let grammar =
        Grammar::from_parse_trees(String::from("TOP"), vec![tree]).expect("valid corpus");

    let nonterminals: HashSet<String> = HashSet::from_iter(grammar.nonterminals());
    assert!(nonterminals.contains("TOP"));
    assert!(nonterminals.contains("A"));
    assert_eq!(nonterminals.len(), 2);

    let terminals: HashSet<String> = HashSet::from_iter(grammar.terminals());
    assert_eq!(terminals, HashSet::from_iter(vec!["word".to_string()]));
}

#[test]
fn empty_corpus_gives_empty_grammar() {
    let grammar = Grammar::from_parse_trees(String::from("S"), vec![]).expect("empty corpus");
    assert_eq!(grammar.rules().len(), 0);
    assert_eq!(grammar.nonterminals(), vec!["S".to_string()]);
    assert_eq!(grammar.terminals().len(), 0);
}

#[test]
fn splits_lexical_and_nonlexical_rules() {
    let grammar = julius_grammar();
    let lexical = grammar.lexical_rules();
    let nonlexical = grammar.nonlexical_rules();

    assert_eq!(lexical.len(), 3);
    assert_eq!(nonlexical.len(), 4);
    for (rule, _probability) in lexical.iter() {
        assert!(rule.is_lexical_rule());
    }
    for (rule, _probability) in nonlexical.iter() {
        assert!(!rule.is_lexical_rule());
    }

    let lexical_set: HashSet<Rule> = HashSet::from_iter(lexical.into_iter().map(|e| e.0));
    assert_eq!(
        lexical_set,
        HashSet::from_iter(vec![
            lex("NNP", "Julius"),
            lex("VB", "stabs"),
            lex("NN", "him")
        ])
    );
}

#[test]
fn counts_accumulate_over_batches() {
    let mut occurence_rules = OccurrenceRules::new();
    Grammar::count_rule_occurence(
        &mut occurence_rules,
        vec![lex("VP", "some"), nonlex("NP", &["VP"])],
    );
    Grammar::count_rule_occurence(
        &mut occurence_rules,
        vec![nonlex("NP", &["VP"]), lex("VP", "some"), lex("VP", "some")],
    );

    assert_eq!(occurence_rules.len(), 2);
    assert_eq!(occurence_rules.get(&lex("VP", "some")), Some(3));
    assert_eq!(occurence_rules.get(&nonlex("NP", &["VP"])), Some(2));
    assert_eq!(occurence_rules.get(&lex("VP", "other")), None);
}

#[test]
fn finds_first_matching_subtree() {
    let input = "(S (NP (NNP Julius)) (VP (VB stabs) (NP (NN him))))";

    let tree = PTBParser::parse(input).expect("This should be parsable");
    let sub = first_matching_subtree("VP", tree).expect("the label is present");
    assert_eq!(sub.root, "VP");
    assert_eq!(sub.print(), "(VP (VB stabs) (NP (NN him)))");

    let tree = PTBParser::parse(input).expect("This should be parsable");
    let whole = first_matching_subtree("S", tree).expect("the root itself matches");
    assert_eq!(whole.print(), input);

    let tree = PTBParser::parse(input).expect("This should be parsable");
    assert_eq!(first_matching_subtree("X", tree), None);
}

#[test]
fn selection_that_fails_yields_no_rules() {
    let tree = PTBParser::parse("(A word)").expect("This should be parsable");
    let initial = String::from("A");
    let rules = Grammar::read_rules(&initial, tree, |_initial: &str, _tree: ParseTree| None);
    assert!(rules.is_none());
}

#[test]
fn induction_error_messages() {
    assert_eq!(
        InductionError::NoRules.message(),
        "there are no rules to read"
    );
    assert_eq!(
        InductionError::CountOverflow.message(),
        "too many rule occurrences to count"
    );
}
