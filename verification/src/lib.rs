//! Induction of probabilistic context-free grammars from constituency trees.
//!
//! A corpus of bracketed trees is read into [`ptb::ParseTree`] values, the
//! production rules implicit in each tree are extracted and counted, and the
//! counts are normalized into per-head conditional probabilities, yielding a
//! [`Grammar`]. Probabilities are kept as exact rationals: the occurrence
//! count of a rule over the total occurrence count of all rules sharing its
//! head symbol.

use vstd::prelude::*;

pub mod induce;
pub mod ptb;

verus! {

/// A grammar symbol that can appear on the left side of a production.
pub type Nonterminal = String;

/// A grammar symbol that can only appear as a leaf word.
pub type Terminal = String;

/// The right side of a production rule.
#[derive(Debug, Clone, PartialEq, Eq, Hash)]
pub enum Body {
    /// The head rewrites directly to a single word.
    Lexical(Terminal),
    /// The head rewrites to an ordered, non-empty sequence of nonterminals.
    NonLexical(Vec<Nonterminal>),
}

/// A production rule: a head symbol and the body it rewrites to.
#[derive(Debug, Clone, PartialEq, Eq, Hash)]
pub struct Rule {
    pub head: Nonterminal,
    pub body: Body,
}

/// Mathematical model of a rule body: the labels as character sequences.
#[verifier::ext_equal]
pub enum BodyView {
    Lexical(Seq<char>),
    NonLexical(Seq<Seq<char>>),
}

/// Mathematical model of a production rule.
#[verifier::ext_equal]
pub struct RuleView {
    pub head: Seq<char>,
    pub body: BodyView,
}

/// The labels of `v` as character sequences, in order.
pub open spec fn labels_view(v: Seq<String>) -> Seq<Seq<char>> {
    v.map_values(|s: String| s@)
}

impl View for Body {
    type V = BodyView;

    open spec fn view(&self) -> BodyView {
        match self {
            Body::Lexical(word) => BodyView::Lexical(word@),
            Body::NonLexical(symbols) => BodyView::NonLexical(labels_view(symbols@)),
        }
    }
}

impl View for Rule {
    type V = RuleView;

    open spec fn view(&self) -> RuleView {
        RuleView { head: self.head@, body: self.body@ }
    }
}

impl Rule {
    /// Whether this rule rewrites its head directly to a word.
    pub fn is_lexical_rule(&self) -> (r: bool)
        ensures
            r == (self@.body is Lexical),
    {
        match &self.body {
            Body::Lexical(_) => true,
            Body::NonLexical(_) => false,
        }
    }
}

/// The maximum-likelihood probability of a rule, as an exact rational:
/// the rule's occurrence count over the total occurrence count of all
/// rules sharing its head.
#[derive(Debug, Clone, Copy, PartialEq, Eq, Structural)]
pub struct Probability {
    pub num: u64,
    pub den: u64,
}

/// Mathematical model of a grammar: the start symbol and the rule table.
#[verifier::ext_equal]
pub struct GrammarView {
    pub initial: Seq<char>,
    pub rules: Seq<(RuleView, Probability)>,
}

/// A start symbol together with a normalized rule-to-probability table.
///
/// Construct one with [`Grammar::from_parse_trees`]; the probabilities of
/// the rules sharing a head always sum to exactly one (`wf`).
#[derive(Debug, Clone, PartialEq)]
pub struct Grammar {
    pub initial: Nonterminal,
    pub rules: Vec<(Rule, Probability)>,
}

/// The model of a rule-to-probability table.
pub open spec fn table_view(rules: Seq<(Rule, Probability)>) -> Seq<(RuleView, Probability)> {
    Seq::new(rules.len(), |i: int| (rules[i].0@, rules[i].1))
}

impl View for Grammar {
    type V = GrammarView;

    open spec fn view(&self) -> GrammarView {
        GrammarView { initial: self.initial@, rules: table_view(self.rules@) }
    }
}

/// No two entries of the table stand for the same rule.
pub open spec fn rules_distinct(rules: Seq<(RuleView, Probability)>) -> bool {
    forall|i: int, j: int| 0 <= i < j < rules.len() ==> rules[i].0 != rules[j].0
}

/// Sum of the probability numerators of the rules with head `h`.
pub open spec fn head_num_total(rules: Seq<(RuleView, Probability)>, h: Seq<char>) -> int
    decreases rules.len(),
{
    if rules.len() == 0 {
        0
    } else {
        (if rules[0].0.head == h {
            rules[0].1.num as int
        } else {
            0
        }) + head_num_total(rules.drop_first(), h)
    }
}

/// Every probability is a positive numerator over the total numerator
/// mass of its head group: within each group the probabilities sum to
/// exactly one.
pub open spec fn table_normalized(rules: Seq<(RuleView, Probability)>) -> bool {
    forall|i: int|
        0 <= i < rules.len() ==> (#[trigger] rules[i]).1.num >= 1 && rules[i].1.den
            == head_num_total(rules, rules[i].0.head)
}

impl Grammar {
    /// Validity: distinct rules and normalized probabilities.
    pub open spec fn wf(&self) -> bool {
        rules_distinct(self@.rules) && table_normalized(self@.rules)
    }

    /// The start symbol.
    pub fn initial(&self) -> (r: &Nonterminal)
        ensures
            r@ == self@.initial,
    {
        &self.initial
    }

    /// The rule table with its probabilities.
    pub fn rules(&self) -> (r: &Vec<(Rule, Probability)>)
        ensures
            table_view(r@) == self@.rules,
    {
        &self.rules
    }
}

} // verus!
