use std::collections::{HashMap, HashSet};

use pcfg_tool::induce::OccurrenceRules;
use pcfg_tool::ptb::{PTBParser, ParseTree};
use pcfg_tool::{Body, Grammar, Probability, Rule};

fn lex(head: &str, word: &str) -> Rule {
    Rule {
        head: head.to_string(),
        body: Body::Lexical(word.to_string()),
    }
}

fn nonlex(head: &str, symbols: &[&str]) -> Rule {
    Rule {
        head: head.to_string(),
        body: Body::NonLexical(symbols.iter().map(|s| s.to_string()).collect()),
    }
}

fn lookup(rules: &[(Rule, Probability)], wanted: &Rule) -> Option<Probability> {
    for (rule, probability) in rules.iter() {
        if rule == wanted {
            return Some(*probability);
        }
    }
    None
}

fn as_f64(p: Probability) -> f64 {
    p.num as f64 / p.den as f64
}

#[test]
fn reads_off_rules_correctly() {
    let input = "(S (NP (NNP Julius)) (VP (VB stabs) (NP (NN him))))";
    let output = PTBParser::parse(input).expect("This should be parsable");

    let initial = String::from("S");
    let parse_tree = output;

    let rules = Grammar::read_rules(&initial, parse_tree, |_initial: &str,
        parse_tree: ParseTree| {
        Some(parse_tree)
    });

    assert!(rules.is_some());
    assert_eq!(
        HashSet::from_iter(rules.expect("This is Some").into_iter()) as HashSet<Rule>,
        HashSet::from_iter(vec![
            nonlex("S", &["NP", "VP"]),
            nonlex("NP", &["NNP"]),
            lex("NNP", "Julius"),
            nonlex("VP", &["VB", "NP"]),
            lex("VB", "stabs"),
            nonlex("NP", &["NN"]),
            lex("NN", "him")
        ])
    );
}

#[test]
fn counts_correct_rule_occurence() {
    let input = "(S (NP (VP some)) (NP (VP some)) (NP (VP other)))";
    let output = PTBParser::parse(input).expect("This should be parsable");

    let initial = String::from("S");
    let parse_tree = output;

    let rules = Grammar::read_rules(&initial, parse_tree, |_initial: &str,
        parse_tree: ParseTree| {
        Some(parse_tree)
    });

    assert!(rules.is_some());

    let mut occurence_rules = OccurrenceRules::new();
    Grammar::count_rule_occurence(&mut occurence_rules, rules.expect("This is some"));

    assert_eq!(occurence_rules.len(), 4);
    assert_eq!(occurence_rules.get(&nonlex("S", &["NP", "NP", "NP"])), Some(1));
    assert_eq!(occurence_rules.get(&nonlex("NP", &["VP"])), Some(3));
    assert_eq!(occurence_rules.get(&lex("VP", "some")), Some(2));
    assert_eq!(occurence_rules.get(&lex("VP", "other")), Some(1));
}

#[test]
fn normalises_rules_correctly() {
    let input = "(S (NP (VP some)) (NP (VP some)) (NP (VP other)))";
    let output = PTBParser::parse(input).expect("This should be parsable");

    let initial = String::from("S");
    let parse_tree = output;

    let rules = Grammar::read_rules(&initial, parse_tree, |_initial: &str,
        parse_tree: ParseTree| {
        Some(parse_tree)
    });

    assert!(rules.is_some());

    let mut occurence_rules = OccurrenceRules::new();
    Grammar::count_rule_occurence(&mut occurence_rules, rules.expect("This is some"));

    let normalised_rules = Grammar::normalise_rules(occurence_rules);
    assert_eq!(normalised_rules.len(), 4);
    let s_rule = lookup(&normalised_rules, &nonlex("S", &["NP", "NP", "NP"])).expect("present");
    assert_eq!(as_f64(s_rule), 1.0);
    let np_rule = lookup(&normalised_rules, &nonlex("NP", &["VP"])).expect("present");
    assert_eq!(as_f64(np_rule), 1.0);
    let some_rule = lookup(&normalised_rules, &lex("VP", "some")).expect("present");
    assert_eq!(as_f64(some_rule), 2.0 / 3.0);
    let other_rule = lookup(&normalised_rules, &lex("VP", "other")).expect("present");
    assert_eq!(as_f64(other_rule), 1.0 / 3.0);
}

#[test]
fn instantiates_correct_grammar() {
    let input = "(S (NP (NNP Julius)) (VP (VB stabs) (NP (NN him))))";
    let output = PTBParser::parse(input).expect("This should be parsable");

    let initial = String::from("S");
    let parse_trees = vec![output];

    let grammar =
        Grammar::from_parse_trees(initial, parse_trees).expect("This is a valid initial");

    assert_eq!(grammar.initial().as_str(), "S");
    let rules = grammar.rules();
    assert_eq!(rules.len(), 7);
    assert_eq!(
        as_f64(lookup(rules, &nonlex("S", &["NP", "VP"])).expect("present")),
        1.0
    );
    assert_eq!(
        as_f64(lookup(rules, &nonlex("NP", &["NNP"])).expect("present")),
        0.5
    );
    assert_eq!(
        as_f64(lookup(rules, &lex("NNP", "Julius")).expect("present")),
        1.0
    );
    assert_eq!(
        as_f64(lookup(rules, &nonlex("VP", &["VB", "NP"])).expect("present")),
        1.0
    );
    assert_eq!(
        as_f64(lookup(rules, &lex("VB", "stabs")).expect("present")),
        1.0
    );
    assert_eq!(
        as_f64(lookup(rules, &nonlex("NP", &["NN"])).expect("present")),
        0.5
    );
    assert_eq!(
        as_f64(lookup(rules, &lex("NN", "him")).expect("present")),
        1.0
    );
}

#[test]
fn correct_nonterminals() {
    let input = "(S (NP (NNP Julius)) (VP (VB stabs) (NP (NN him))))";
    let output = PTBParser::parse(input).expect("This should be parsable");

    let initial = String::from("S");
    let parse_trees = vec![output];

    let grammar =
        Grammar::from_parse_trees(initial, parse_trees).expect("This is a valid initial");

    let nonterminals = grammar.nonterminals();
    assert_eq!(
        HashSet::from_iter(nonterminals) as HashSet<String>,
        HashSet::from_iter(vec![
            "S".to_string(),
            "NP".to_string(),
            "NNP".to_string(),
            "VP".to_string(),
            "VB".to_string(),
            "NN".to_string()
        ])
    )
}

#[test]
fn correct_terminals() {
    let input = "(S (NP (NNP Julius)) (VP (VB stabs) (NP (NN him))))";
    let output = PTBParser::parse(input).expect("This should be parsable");

    let initial = String::from("S");
    let parse_trees = vec![output];

    let grammar =
        Grammar::from_parse_trees(initial, parse_trees).expect("This is a valid initial");

    let terminals = grammar.terminals();
    assert_eq!(
        HashSet::from_iter(terminals) as HashSet<String>,
        HashSet::from_iter(vec![
            "Julius".to_string(),
            "stabs".to_string(),
            "him".to_string()
        ])
    )
}

#[test]
fn probabilities_add_to_one() {
    let input = vec![
        "(ROOT (S (NP-SBJ (NP (NNP Pierre) (NNP Vinken)) (, ,) (ADJP (NP (CD 61) (NNS years)) (JJ old)) (, ,)) (VP (MD will) (VP (VB join) (NP (DT the) (NN board)) (PP-CLR (IN as) (NP (DT a) (JJ nonexecutive) (NN director))) (NP-TMP (NNP Nov.) (CD 29)))) (. .)))",
        "(ROOT (S (NP-SBJ (NNP Mr.) (NNP Vinken)) (VP (VBZ is) (NP-PRD (NP (NN chairman)) (PP (IN of) (NP (NP (NNP Elsevier) (NNP N.V.)) (, ,) (NP (DT the) (NNP Dutch) (VBG publishing) (NN group)))))) (. .)))",
        "(ROOT (S (NP-SBJ (NP (NNP Rudolph) (NNP Agnew)) (, ,) (UCP (ADJP (NP (CD 55) (NNS years)) (JJ old)) (CC and) (NP (NP (JJ former) (NN chairman)) (PP (IN of) (NP (NNP Consolidated) (NNP Gold) (NNP Fields) (NNP PLC))))) (, ,)) (VP (VBD was) (VP (VBN named) (NP (NP (DT a) (JJ nonexecutive) (NN director)) (PP (IN of) (NP (DT this) (JJ British) (JJ industrial) (NN conglomerate)))))) (. .)))",
        "(ROOT (S (S-TPC (NP-SBJ (NP (NP (DT A) (NN form)) (PP (IN of) (NP (NN asbestos)))) (RRC (ADVP-TMP (RB once)) (VP (VBN used) (S-CLR (VP (TO to) (VP (VB make) (NP (NNP Kent) (NN cigarette) (NNS filters)))))))) (VP (VBZ has) (VP (VBN caused) (S (NP-SBJ (NP (DT a) (JJ high) (NN percentage)) (PP (IN of) (NP (NN cancer) (NNS deaths))) (PP-LOC (IN among) (NP (NP (DT a) (NN group)) (PP (IN of) (NP (NNS workers)))))) (VP (VBN exposed) (PP-CLR (TO to) (NP (PRP it))) (ADVP-TMP (NP (QP (RBR more) (IN than) (CD 30)) (NNS years)) (IN ago))))))) (, ,) (NP-SBJ (NNS researchers)) (VP (VBD reported)) (. .)))",
        "(ROOT (S (S-TPC (NP-SBJ (NP (DT The) (NN asbestos) (NN fiber)) (, ,) (NP (NN crocidolite)) (, ,)) (VP (VBZ is) (ADJP-PRD (RB unusually) (JJ resilient)) (SBAR-TMP (IN once) (S (NP-SBJ (PRP it)) (VP (VBZ enters) (NP (DT the) (NNS lungs))))) (, ,) (PP (IN with) (NP (NP (NP (RB even) (JJ brief) (NNS exposures)) (PP-DIR (TO to) (NP (PRP it)))) (PP (VBG causing) (NP (NNS symptoms))) (SBAR (WHNP (WDT that)) (S (VP (VBP show) (PRT (RP up)) (ADVP-TMP (NP (NNS decades)) (JJ later))))))))) (, ,) (NP-SBJ (NNS researchers)) (VP (VBD said)) (. .)))",
    ];
    let parse_trees: Vec<ParseTree> = input
        .into_iter()
        .map(|input| PTBParser::parse(input).expect("This should be parsable"))
        .collect();

    let initial = String::from("ROOT");

    let grammar =
        Grammar::from_parse_trees(initial, parse_trees).expect("This is a valid initial");

    let mut sum_head = HashMap::new();
    for (rule, probability) in grammar.rules().iter() {
        *sum_head.entry(rule.head.clone()).or_insert(0.0) += as_f64(*probability);
    }

    // compare against the machine epsilon, since summing the per-rule
    // fractions in floating point rounds
    let epsilon = f64::EPSILON;
    let approx_equal = |a: f64, b: f64| -> bool { (a - b).abs() <= epsilon };

    for (_head, total) in sum_head.iter() {
        assert!(approx_equal(*total, 1.0));
    }
}
