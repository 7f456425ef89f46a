use pcfg_tool::ptb::{Descendants, PTBParser, ParseErrorKind, ParseTree};

#[test]
fn parses_correct_tree() {
    let input = "(ROOT (S (NP (NNP A)) (VP (VB screams))))";
    let tree = PTBParser::parse(input).expect("should be parsable");

    assert_eq!(
        tree,
        ParseTree {
            root: "ROOT".to_string(),
            descendants: Descendants::Expressions(vec![ParseTree {
                root: "S".to_string(),
                descendants: Descendants::Expressions(vec![
                    ParseTree {
                        root: "NP".to_string(),
                        descendants: Descendants::Expressions(vec![ParseTree {
                            root: "NNP".to_string(),
                            descendants: Descendants::Atom("A".to_string())
                        }])
                    },
                    ParseTree {
                        root: "VP".to_string(),
                        descendants: Descendants::Expressions(vec![ParseTree {
                            root: "VB".to_string(),
                            descendants: Descendants::Atom("screams".to_string())
                        }])
                    }
                ])
            }])
        }
    )
}

#[test]
fn empty_input() {
    let input = "";
    let _err = PTBParser::parse(input).expect_err("This should not be parsable");
}

#[test]
fn erroneous_input() {
    let input = "(((NP)";
    let _err = PTBParser::parse(input).expect_err("This should not be parsable");
}

#[test]
fn minimal_input() {
    let input = "(A A)";
    let tree = PTBParser::parse(input).expect("This should be parsable");
    assert_eq!(
        tree,
        ParseTree {
            root: "A".to_string(),
            descendants: Descendants::Atom("A".to_string())
        }
    )
}

#[test]
fn generates_input_ptb_string() {
    let input = "(ROOT (S (NP-SBJ (NP (NNP Pierre) (NNP Vinken)) (, ,) (ADJP (NP (CD 61) (NNS years)) (JJ old)) (, ,)) (VP (MD will) (VP (VB join) (NP (DT the) (NN board)) (PP-CLR (IN as) (NP (DT a) (JJ nonexecutive) (NN director))) (NP-TMP (NNP Nov.) (CD 29)))) (. .)))";
    let output = PTBParser::parse(input)
        .expect("This should be parsable")
        .print();

    assert_eq!(input, output)
}

#[test]
fn wild_spaces() {
    let input = " (S (NP ( NP \t John   ) (NP Maria )) ) ";
    let tree = PTBParser::parse(input).expect("This should be parsable");
    assert_eq!(
        tree,
        ParseTree {
            root: "S".to_string(),
            descendants: Descendants::Expressions(vec![ParseTree {
                root: "NP".to_string(),
                descendants: Descendants::Expressions(vec![
                    ParseTree {
                        root: "NP".to_string(),
                        descendants: Descendants::Atom("John".to_string())
                    },
                    ParseTree {
                        root: "NP".to_string(),
                        descendants: Descendants::Atom("Maria".to_string())
                    }
                ])
            }])
        }
    )
}

#[test]
fn error_carries_expected_open() {
    let err = PTBParser::parse("NP tree").expect_err("no opening parenthesis");
    assert_eq!(err.kind, ParseErrorKind::ExpectedOpen);
    assert_eq!(err.input, "NP tree");
}

#[test]
fn error_carries_unexpected_end() {
    let err = PTBParser::parse("").expect_err("empty input");
    assert_eq!(err.kind, ParseErrorKind::UnexpectedEnd);
    assert_eq!(err.input, "");

    let err = PTBParser::parse("(S ").expect_err("input ends inside the expression");
    assert_eq!(err.kind, ParseErrorKind::UnexpectedEnd);
    assert_eq!(err.input, "");
}

#[test]
fn error_carries_expected_token() {
    let err = PTBParser::parse("()").expect_err("no head token");
    assert_eq!(err.kind, ParseErrorKind::ExpectedToken);
    assert_eq!(err.input, ")");
}

#[test]
fn error_carries_expected_close() {
    let err = PTBParser::parse("(A B C)").expect_err("a second word after the atom");
    assert_eq!(err.kind, ParseErrorKind::ExpectedClose);
    assert_eq!(err.input, "C)");
}

#[test]
fn trailing_content_is_ignored() {
    let tree = PTBParser::parse("(A B)) garbage").expect("the first expression is well-formed");
    assert_eq!(
        tree,
        ParseTree {
            root: "A".to_string(),
            descendants: Descendants::Atom("B".to_string())
        }
    )
}

#[test]
fn print_then_parse_rebuilds_the_tree() {
    let input = "(X (Y z) (W (Q v) (R w)))";
    let tree = PTBParser::parse(input).expect("This should be parsable");
    let printed = tree.print();
    assert_eq!(printed, input);
    let reparsed = PTBParser::parse(&printed).expect("canonical text parses");
    assert_eq!(reparsed, tree);
}
