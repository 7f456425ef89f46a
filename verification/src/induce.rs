//! Grammar induction: reading the production rules implicit in parsed
//! trees, counting how often each occurs across a corpus, and normalizing
//! the counts into per-head probabilities.

use vstd::prelude::*;
use vstd::string::StringExecFns;

use crate::ptb::{Descendants, ParseTree, TreeShape, lemma_subtree_views, subtree_views, tree_view};
use crate::{
    Body, BodyView, Grammar, Nonterminal, Probability, Rule, RuleView, Terminal, head_num_total,
    labels_view, rules_distinct, table_normalized, table_view,
};

verus! {

broadcast use vstd::std_specs::vec::group_vec_axioms, vstd::seq::group_seq_axioms;

/// The root label of a tree model.
pub open spec fn label_of(t: TreeShape) -> Seq<char> {
    match t {
        TreeShape::Leaf { label, word } => label,
        TreeShape::Branch { label, kids } => label,
    }
}

/// The root labels of `kids`, in order.
pub open spec fn body_labels(kids: Seq<TreeShape>) -> Seq<Seq<char>> {
    kids.map_values(|k: TreeShape| label_of(k))
}

/// The models of the rules of `v`, in order.
pub open spec fn rule_views(v: Seq<Rule>) -> Seq<RuleView> {
    v.map_values(|r: Rule| r@)
}

/// The models of the trees of `v`, in order.
pub open spec fn forest_view(v: Seq<ParseTree>) -> Seq<TreeShape> {
    v.map_values(|t: ParseTree| tree_view(t))
}

/// The production rules implicit in a tree, in depth-first preorder: a
/// leaf yields one lexical rule; a branch yields one non-lexical rule
/// whose body is its children's labels, followed by the children's rules.
pub open spec fn tree_rules(t: TreeShape) -> Seq<RuleView>
    decreases t, 0int,
{
    match t {
        TreeShape::Leaf { label, word } => seq![
            RuleView { head: label, body: BodyView::Lexical(word) },
        ],
        TreeShape::Branch { label, kids } => seq![
            RuleView { head: label, body: BodyView::NonLexical(body_labels(kids)) },
        ] + kids_rules(kids, 0),
    }
}

/// The rules of the trees of `kids` from index `q` on, concatenated.
pub open spec fn kids_rules(kids: Seq<TreeShape>, q: int) -> Seq<RuleView>
    decreases kids, kids.len() - q,
{
    if q < 0 || q >= kids.len() {
        Seq::empty()
    } else {
        tree_rules(kids[q]) + kids_rules(kids, q + 1)
    }
}

/// Appends to `out` the rules implicit in `t`, in depth-first preorder.
#[verifier::loop_isolation(false)]
fn extract_rules(t: ParseTree, out: &mut Vec<Rule>)
    ensures
        rule_views(final(out)@) == rule_views(old(out)@) + tree_rules(t@),
    decreases t,
{
    let ghost t0 = t;
    let ghost base = out@;
    let ParseTree { root, descendants } = t;
    match descendants {
        Descendants::Atom(word) => {
            out.push(Rule { head: root, body: Body::Lexical(word) });
            proof {
                assert(rule_views(out@) =~= rule_views(base) + tree_rules(tree_view(t0)));
            }
        },
        Descendants::Expressions(kids) => {
            let ghost kv = subtree_views(kids@, 0);
            let ghost kids0 = kids@;
            proof {
                lemma_subtree_views(kids@, 0);
            }
            // gather the children's root labels, in order
            let mut labels: Vec<Nonterminal> = Vec::new();
            let mut i: usize = 0;
            while i < kids.len()
                invariant
                    i <= kids.len(),
                    labels@.len() == i,
                    forall|j: int| 0 <= j < i ==> labels@[j]@ == kids@[j].root@,
                decreases kids.len() - i,
            {
                labels.push(kids[i].root.clone());
                i = i + 1;
            }
            out.push(Rule { head: root, body: Body::NonLexical(labels) });
            proof {
                assert(labels_view(labels@) =~= body_labels(kv));
                assert(rule_views(out@) + kids_rules(kv, 0) =~= rule_views(base) + tree_rules(
                    tree_view(t0),
                ));
            }
            // visit each child in order
            let mut kids = kids;
            while kids.len() > 0
                invariant
                    kids@.len() <= kids0.len(),
                    kids@ == kids0.subrange(
                        kids0.len() - kids.len(),
                        kids0.len() as int,
                    ),
                    rule_views(out@) + kids_rules(kv, kids0.len() - kids.len()) == rule_views(
                        base,
                    ) + tree_rules(tree_view(t0)),
                decreases kids.len(),
            {
                let ghost q = kids0.len() - kids@.len();
                let k = kids.remove(0);
                proof {
                    assert(k == kids0[q]);
                    assert(kids@ =~= kids0.subrange(kids0.len() - kids.len(), kids0.len() as int));
                    assert(decreases_to!(t0 => t0.descendants));
                    assert(t0.descendants->Expressions_0@ == kids0);
                    assert(decreases_to!(t0.descendants => t0.descendants->Expressions_0));
                    assert(decreases_to!(t0.descendants->Expressions_0 => kids0));
                    assert(decreases_to!(kids0 => kids0[q]));
                    assert(decreases_to!(t0 => kids0[q]));
                }
                extract_rules(k, out);
                proof {
                    assert(tree_view(k) == kv[q]);
                    assert(kids_rules(kv, q) == tree_rules(kv[q]) + kids_rules(kv, q + 1));
                    assert(rule_views(out@) + kids_rules(kv, q + 1) =~= rule_views(base)
                        + tree_rules(tree_view(t0)));
                }
            }
            proof {
                assert(kids_rules(kv, kids0.len() as int) =~= Seq::<RuleView>::empty());
                assert(rule_views(out@) =~= rule_views(base) + tree_rules(tree_view(t0)));
            }
        },
    }
}

/// No two entries of an occurrence table stand for the same rule.
pub open spec fn occ_distinct(t: Seq<(RuleView, u64)>) -> bool {
    forall|i: int, j: int| 0 <= i < j < t.len() ==> t[i].0 != t[j].0
}

/// Validity of an occurrence table: distinct rules, every count positive.
pub open spec fn occ_wf(t: Seq<(RuleView, u64)>) -> bool {
    occ_distinct(t) && (forall|i: int| 0 <= i < t.len() ==> (#[trigger] t[i]).1 >= 1)
}

/// Sum of all counts of the table.
pub open spec fn occ_total(t: Seq<(RuleView, u64)>) -> int
    decreases t.len(),
{
    if t.len() == 0 {
        0
    } else {
        t[0].1 + occ_total(t.drop_first())
    }
}

/// The count recorded for rule `r`, zero if absent.
pub open spec fn count_of(t: Seq<(RuleView, u64)>, r: RuleView) -> int
    decreases t.len(),
{
    if t.len() == 0 {
        0
    } else {
        (if t[0].0 == r {
            t[0].1 as int
        } else {
            0
        }) + count_of(t.drop_first(), r)
    }
}

/// How often `r` occurs in a sequence of rules.
pub open spec fn occurrences(rs: Seq<RuleView>, r: RuleView) -> int
    decreases rs.len(),
{
    if rs.len() == 0 {
        0
    } else {
        (if rs[0] == r {
            1int
        } else {
            0
        }) + occurrences(rs.drop_first(), r)
    }
}

/// One observation of rule `r`: its count rises by one, a fresh entry
/// with count one is appended on first sight.
pub open spec fn occ_insert(t: Seq<(RuleView, u64)>, r: RuleView) -> Seq<(RuleView, u64)>
    decreases t.len(),
{
    if t.len() == 0 {
        seq![(r, 1u64)]
    } else if t[0].0 == r {
        seq![(t[0].0, (t[0].1 + 1) as u64)] + t.drop_first()
    } else {
        seq![t[0]] + occ_insert(t.drop_first(), r)
    }
}

/// Folding a sequence of observed rules into the table, left to right.
pub open spec fn occ_fold(t: Seq<(RuleView, u64)>, rs: Seq<RuleView>) -> Seq<(RuleView, u64)>
    decreases rs.len(),
{
    if rs.len() == 0 {
        t
    } else {
        occ_fold(occ_insert(t, rs[0]), rs.drop_first())
    }
}

/// A rule absent from every entry has count zero.
proof fn lemma_count_absent(t: Seq<(RuleView, u64)>, x: RuleView)
    requires
        forall|i: int| 0 <= i < t.len() ==> (#[trigger] t[i]).0 != x,
    ensures
        count_of(t, x) == 0,
    decreases t.len(),
{
    if t.len() > 0 {
        lemma_count_absent(t.drop_first(), x);
    }
}

/// In a distinct table, the count of an entry's rule is that entry's count.
proof fn lemma_count_at(t: Seq<(RuleView, u64)>, i: int)
    requires
        occ_distinct(t),
        0 <= i < t.len(),
    ensures
        count_of(t, t[i].0) == t[i].1,
    decreases t.len(),
{
    if i == 0 {
        lemma_count_absent(t.drop_first(), t[0].0);
    } else {
        lemma_count_at(t.drop_first(), i - 1);
    }
}

/// A count never exceeds the total of the table.
proof fn lemma_count_le_total(t: Seq<(RuleView, u64)>, x: RuleView)
    ensures
        0 <= count_of(t, x) <= occ_total(t),
    decreases t.len(),
{
    if t.len() > 0 {
        lemma_count_le_total(t.drop_first(), x);
    }
}

/// `occ_insert` on a table holding `r` at index `i` updates that entry.
proof fn lemma_occ_insert_found(t: Seq<(RuleView, u64)>, r: RuleView, i: int)
    requires
        occ_distinct(t),
        0 <= i < t.len(),
        t[i].0 == r,
    ensures
        occ_insert(t, r) == t.update(i, (r, (t[i].1 + 1) as u64)),
    decreases t.len(),
{
    if i == 0 {
        assert(occ_insert(t, r) =~= t.update(0, (r, (t[0].1 + 1) as u64)));
    } else {
        lemma_occ_insert_found(t.drop_first(), r, i - 1);
        assert(seq![t[0]] + t.drop_first().update(i - 1, (r, (t[i].1 + 1) as u64)) =~= t.update(
            i,
            (r, (t[i].1 + 1) as u64),
        ));
    }
}

/// `occ_insert` on a table without `r` appends a fresh entry.
proof fn lemma_occ_insert_absent(t: Seq<(RuleView, u64)>, r: RuleView)
    requires
        forall|i: int| 0 <= i < t.len() ==> (#[trigger] t[i]).0 != r,
    ensures
        occ_insert(t, r) == t.push((r, 1u64)),
    decreases t.len(),
{
    if t.len() == 0 {
        assert(occ_insert(t, r) =~= t.push((r, 1u64)));
    } else {
        lemma_occ_insert_absent(t.drop_first(), r);
        assert(seq![t[0]] + t.drop_first().push((r, 1u64)) =~= t.push((r, 1u64)));
    }
}

/// `occ_insert` keeps the table valid, raises the total by one, raises
/// the count of the inserted rule by one and changes no other count.
proof fn lemma_insert_props(t: Seq<(RuleView, u64)>, r: RuleView)
    requires
        occ_wf(t),
        occ_total(t) + 1 <= u64::MAX,
    ensures
        occ_wf(occ_insert(t, r)),
        occ_total(occ_insert(t, r)) == occ_total(t) + 1,
        forall|x: RuleView| count_of(occ_insert(t, r), x) == count_of(t, x) + (if x == r {
            1int
        } else {
            0
        }),
    decreases t.len(),
{
    lemma_count_le_total(t, r);
    if t.len() == 0 {
        let u = occ_insert(t, r);
        assert(u == seq![(r, 1u64)]);
        assert forall|x: RuleView| count_of(u, x) == count_of(t, x) + (if x == r {
            1int
        } else {
            0
        }) by {
            assert(u.drop_first() =~= Seq::<(RuleView, u64)>::empty());
            assert(count_of(u.drop_first(), x) == 0);
            assert(u[0] == (r, 1u64));
            assert(count_of(u, x) == (if u[0].0 == x {
                u[0].1 as int
            } else {
                0
            }) + count_of(u.drop_first(), x));
        }
        assert(occ_total(u) == occ_total(t) + 1) by {
            assert(u.drop_first() =~= Seq::<(RuleView, u64)>::empty());
            assert(occ_total(u.drop_first()) == 0);
            assert(occ_total(u) == u[0].1 + occ_total(u.drop_first()));
        }
    } else if t[0].0 == r {
        let u = occ_insert(t, r);
        assert(u.drop_first() =~= t.drop_first());
        assert(t[0].1 + 1 <= u64::MAX) by {
            lemma_count_le_total(t.drop_first(), r);
            lemma_count_at(t, 0);
        }
        assert(u[0] == (t[0].0, (t[0].1 + 1) as u64));
        assert forall|i: int, j: int| 0 <= i < j < u.len() implies u[i].0 != u[j].0 by {
            assert(u[i].0 == t[i].0 && u[j].0 == t[j].0);
        }
        assert forall|x: RuleView| count_of(u, x) == count_of(t, x) + (if x == r {
            1int
        } else {
            0
        }) by {
            assert(count_of(u, x) == (if u[0].0 == x {
                u[0].1 as int
            } else {
                0
            }) + count_of(u.drop_first(), x));
            assert(count_of(t, x) == (if t[0].0 == x {
                t[0].1 as int
            } else {
                0
            }) + count_of(t.drop_first(), x));
        }
        assert(occ_total(u) == u[0].1 + occ_total(u.drop_first()));
        assert(occ_total(t) == t[0].1 + occ_total(t.drop_first()));
    } else {
        let d = t.drop_first();
        assert(occ_total(d) + 1 <= u64::MAX);
        lemma_insert_props(d, r);
        let v = occ_insert(d, r);
        let u = occ_insert(t, r);
        assert(u == seq![t[0]] + v);
        assert(u.drop_first() =~= v);
        assert(u[0] == t[0]);
        // the head's rule stays absent from the inserted tail
        assert forall|j: int| 0 <= j < v.len() implies v[j].0 != t[0].0 by {
            if v[j].0 == t[0].0 {
                lemma_count_at(v, j);
                lemma_count_absent(d, t[0].0);
                assert(count_of(v, t[0].0) == count_of(d, t[0].0) + (if t[0].0 == r {
                    1int
                } else {
                    0
                }));
                assert(false);
            }
        }
        assert forall|i: int, j: int| 0 <= i < j < u.len() implies u[i].0 != u[j].0 by {
            if i > 0 {
                assert(u[i] == v[i - 1] && u[j] == v[j - 1]);
            } else {
                assert(u[j] == v[j - 1]);
            }
        }
        assert forall|x: RuleView| count_of(u, x) == count_of(t, x) + (if x == r {
            1int
        } else {
            0
        }) by {
            assert(count_of(u, x) == (if u[0].0 == x {
                u[0].1 as int
            } else {
                0
            }) + count_of(v, x));
            assert(count_of(t, x) == (if t[0].0 == x {
                t[0].1 as int
            } else {
                0
            }) + count_of(d, x));
        }
        assert(occ_total(u) == u[0].1 + occ_total(v));
        assert(occ_total(t) == t[0].1 + occ_total(d));
    }
}

/// Folding observed rules keeps the table valid, adds their number to the
/// total, and adds each rule's occurrence count to its table count.
proof fn lemma_fold_props(t: Seq<(RuleView, u64)>, rs: Seq<RuleView>)
    requires
        occ_wf(t),
        occ_total(t) + rs.len() <= u64::MAX,
    ensures
        occ_wf(occ_fold(t, rs)),
        occ_total(occ_fold(t, rs)) == occ_total(t) + rs.len(),
        forall|x: RuleView| count_of(occ_fold(t, rs), x) == count_of(t, x) + occurrences(rs, x),
    decreases rs.len(),
{
    if rs.len() > 0 {
        lemma_insert_props(t, rs[0]);
        lemma_fold_props(occ_insert(t, rs[0]), rs.drop_first());
    }
}

/// Structural equality of the labels of two symbol sequences.
fn labels_eq(xs: &Vec<Nonterminal>, ys: &Vec<Nonterminal>) -> (res: bool)
    ensures
        res == (labels_view(xs@) == labels_view(ys@)),
{
    if xs.len() != ys.len() {
        proof {
            assert(labels_view(xs@).len() != labels_view(ys@).len());
        }
        return false;
    }
    let mut i: usize = 0;
    while i < xs.len()
        invariant
            i <= xs.len(),
            xs@.len() == ys@.len(),
            forall|j: int| 0 <= j < i ==> xs@[j]@ == ys@[j]@,
        decreases xs.len() - i,
    {
        if !(xs[i] == ys[i]) {
            proof {
                assert(labels_view(xs@)[i as int] != labels_view(ys@)[i as int]);
            }
            return false;
        }
        i = i + 1;
    }
    proof {
        assert(labels_view(xs@) =~= labels_view(ys@));
    }
    true
}

/// Structural equality of two rules, at the level of their models.
fn rule_eq(a: &Rule, b: &Rule) -> (res: bool)
    ensures
        res == (a@ == b@),
{
    if !(a.head == b.head) {
        proof {
            assert(a@.head != b@.head);
        }
        return false;
    }
    match &a.body {
        Body::Lexical(x) => match &b.body {
            Body::Lexical(y) => {
                let r = *x == *y;
                proof {
                    assert(a@.body == BodyView::Lexical(x@));
                    assert(b@.body == BodyView::Lexical(y@));
                    if r {
                        assert(a@ =~= b@);
                    }
                }
                r
            },
            Body::NonLexical(ys) => {
                proof {
                    assert(a@.body is Lexical && b@.body is NonLexical);
                }
                false
            },
        },
        Body::NonLexical(xs) => match &b.body {
            Body::Lexical(y) => {
                proof {
                    assert(a@.body is NonLexical && b@.body is Lexical);
                }
                false
            },
            Body::NonLexical(ys) => {
                let r = labels_eq(xs, ys);
                proof {
                    assert(a@.body == BodyView::NonLexical(labels_view(xs@)));
                    assert(b@.body == BodyView::NonLexical(labels_view(ys@)));
                    if r {
                        assert(a@ =~= b@);
                    }
                }
                r
            },
        },
    }
}

/// The model of the entries of an occurrence table.
pub open spec fn occ_view(v: Seq<(Rule, u64)>) -> Seq<(RuleView, u64)> {
    Seq::new(v.len(), |i: int| (v[i].0@, v[i].1))
}

/// A mapping from distinct rules to how often each was observed across
/// the corpus. Built once per induction run, mutated only by increments.
pub struct OccurrenceRules {
    pub entries: Vec<(Rule, u64)>,
}

impl View for OccurrenceRules {
    type V = Seq<(RuleView, u64)>;

    open spec fn view(&self) -> Seq<(RuleView, u64)> {
        occ_view(self.entries@)
    }
}

impl OccurrenceRules {
    /// Validity: distinct rules, positive counts.
    pub open spec fn wf(&self) -> bool {
        occ_wf(self@)
    }

    /// An empty table.
    pub fn new() -> (r: Self)
        ensures
            r@ == Seq::<(RuleView, u64)>::empty(),
            r.wf(),
    {
        let r = OccurrenceRules { entries: Vec::new() };
        proof {
            assert(r@ =~= Seq::<(RuleView, u64)>::empty());
        }
        r
    }

    /// How many distinct rules the table holds.
    pub fn len(&self) -> (n: usize)
        ensures
            n == self@.len(),
    {
        self.entries.len()
    }

    /// The count recorded for `rule`, if present.
    pub fn get(&self, rule: &Rule) -> (r: Option<u64>)
        requires
            self.wf(),
        ensures
            r matches Some(c) ==> count_of(self@, rule@) == c && c >= 1,
            r is None ==> count_of(self@, rule@) == 0,
    {
        let n = self.entries.len();
        let mut i: usize = 0;
        while i < n
            invariant
                i <= n,
                n == self@.len(),
                self.wf(),
                forall|j: int| 0 <= j < i ==> self@[j].0 != rule@,
            decreases n - i,
        {
            if rule_eq(&self.entries[i].0, rule) {
                proof {
                    lemma_count_at(self@, i as int);
                }
                return Some(self.entries[i].1);
            }
            i = i + 1;
        }
        proof {
            lemma_count_absent(self@, rule@);
        }
        None
    }
}

/// Raises the count of `r` by one, appending a fresh entry on first sight.
#[verifier::loop_isolation(false)]
fn insert_one(table: &mut OccurrenceRules, r: Rule)
    requires
        old(table).wf(),
        occ_total(old(table)@) + 1 <= u64::MAX,
    ensures
        final(table).wf(),
        final(table)@ == occ_insert(old(table)@, r@),
        occ_total(final(table)@) == occ_total(old(table)@) + 1,
{
    proof {
        lemma_insert_props(old(table)@, r@);
    }
    let n = table.entries.len();
    let mut i: usize = 0;
    while i < n
        invariant
            i <= n,
            n == table@.len(),
            *table == *old(table),
            forall|j: int| 0 <= j < i ==> table@[j].0 != r@,
        decreases n - i,
    {
        if rule_eq(&table.entries[i].0, &r) {
            let c = table.entries[i].1;
            proof {
                lemma_count_at(table@, i as int);
                lemma_count_le_total(table@, r@);
                lemma_occ_insert_found(table@, r@, i as int);
            }
            table.entries[i].1 = c + 1;
            proof {
                assert(table@ =~= occ_insert(old(table)@, r@));
            }
            return;
        }
        i = i + 1;
    }
    table.entries.push((r, 1));
    proof {
        lemma_occ_insert_absent(old(table)@, r@);
        assert(table@ =~= occ_insert(old(table)@, r@));
    }
}

/// Why a grammar could not be induced from a batch of trees.
#[derive(Debug, Clone, Copy, PartialEq, Eq, Structural)]
pub enum InductionError {
    /// A tree yielded no rules: no starting subtree could be selected.
    NoRules,
    /// The corpus holds more rule occurrences than the counters can hold.
    CountOverflow,
}

impl InductionError {
    /// A human-readable description of the failure.
    pub fn message(&self) -> (r: String)
        ensures
            self is NoRules ==> r@ == "there are no rules to read"@,
            self is CountOverflow ==> r@ == "too many rule occurrences to count"@,
    {
        match self {
            InductionError::NoRules => String::from_str("there are no rules to read"),
            InductionError::CountOverflow => String::from_str(
                "too many rule occurrences to count",
            ),
        }
    }
}

/// The rules of all trees of `trees`, concatenated in order.
pub open spec fn corpus_rules(trees: Seq<TreeShape>) -> Seq<RuleView>
    decreases trees.len(),
{
    if trees.len() == 0 {
        Seq::empty()
    } else {
        tree_rules(trees[0]) + corpus_rules(trees.drop_first())
    }
}

/// Folding a concatenation folds the parts one after the other.
proof fn lemma_fold_concat(t: Seq<(RuleView, u64)>, a: Seq<RuleView>, b: Seq<RuleView>)
    ensures
        occ_fold(t, a + b) == occ_fold(occ_fold(t, a), b),
    decreases a.len(),
{
    if a.len() == 0 {
        assert(a + b =~= b);
    } else {
        assert((a + b).drop_first() =~= a.drop_first() + b);
        assert((a + b)[0] == a[0]);
        lemma_fold_concat(occ_insert(t, a[0]), a.drop_first(), b);
    }
}

/// Sum of the counts of the rules with head `h`.
pub open spec fn head_count_total(t: Seq<(RuleView, u64)>, h: Seq<char>) -> int
    decreases t.len(),
{
    if t.len() == 0 {
        0
    } else {
        (if t[0].0.head == h {
            t[0].1 as int
        } else {
            0
        }) + head_count_total(t.drop_first(), h)
    }
}

/// Maximum-likelihood normalization of an occurrence table: every rule
/// keeps its count as the numerator, over the total count of the rules
/// sharing its head.
pub open spec fn renorm(t: Seq<(RuleView, u64)>) -> Seq<(RuleView, Probability)> {
    Seq::new(
        t.len(),
        |i: int|
            (
                t[i].0,
                Probability { num: t[i].1, den: head_count_total(t, t[i].0.head) as u64 },
            ),
    )
}

/// A head group's total lies between zero and the table's total.
proof fn lemma_head_le_total(t: Seq<(RuleView, u64)>, h: Seq<char>)
    ensures
        0 <= head_count_total(t, h) <= occ_total(t),
    decreases t.len(),
{
    if t.len() > 0 {
        lemma_head_le_total(t.drop_first(), h);
    }
}

/// Appending an entry adds its count to the totals it belongs to.
proof fn lemma_occ_push(u: Seq<(RuleView, u64)>, e: (RuleView, u64), h: Seq<char>)
    ensures
        occ_total(u.push(e)) == occ_total(u) + e.1,
        head_count_total(u.push(e), h) == head_count_total(u, h) + (if e.0.head == h {
            e.1 as int
        } else {
            0
        }),
    decreases u.len(),
{
    if u.len() == 0 {
        assert(u.push(e).drop_first() =~= Seq::<(RuleView, u64)>::empty());
        assert(occ_total(u.push(e).drop_first()) == 0);
        assert(head_count_total(u.push(e).drop_first(), h) == 0);
    } else {
        lemma_occ_push(u.drop_first(), e, h);
        assert(u.push(e).drop_first() =~= u.drop_first().push(e));
    }
}

/// A prefix of the table never exceeds the table's total.
proof fn lemma_occ_total_take(t: Seq<(RuleView, u64)>, j: int)
    requires
        0 <= j <= t.len(),
    ensures
        occ_total(t.take(j)) <= occ_total(t),
    decreases t.len() - j,
{
    if j == t.len() {
        assert(t.take(j) =~= t);
    } else {
        assert(t.take(j + 1) =~= t.take(j).push(t[j]));
        lemma_occ_push(t.take(j), t[j], t[j].0.head);
        lemma_occ_total_take(t, j + 1);
    }
}

/// Two tables agreeing pointwise on heads and numerators have the same
/// head group totals.
proof fn lemma_head_num_pointwise(
    a: Seq<(RuleView, Probability)>,
    t: Seq<(RuleView, u64)>,
    h: Seq<char>,
)
    requires
        a.len() == t.len(),
        forall|i: int|
            0 <= i < t.len() ==> (#[trigger] a[i]).0.head == t[i].0.head && a[i].1.num == t[i].1,
    ensures
        head_num_total(a, h) == head_count_total(t, h),
    decreases t.len(),
{
    if t.len() > 0 {
        lemma_head_num_pointwise(a.drop_first(), t.drop_first(), h);
    }
}

/// Normalizing a valid occurrence table yields a valid, normalized
/// probability table over the same rules.
proof fn lemma_renorm_props(t: Seq<(RuleView, u64)>)
    requires
        occ_wf(t),
        occ_total(t) <= u64::MAX,
    ensures
        rules_distinct(renorm(t)),
        table_normalized(renorm(t)),
{
    let a = renorm(t);
    assert forall|i: int| 0 <= i < a.len() implies (#[trigger] a[i]).1.num >= 1 && a[i].1.den
        == head_num_total(a, a[i].0.head) by {
        lemma_head_le_total(t, t[i].0.head);
        lemma_head_num_pointwise(a, t, t[i].0.head);
    }
}

impl Grammar {
    /// Converts occurrence counts into probabilities: every rule keeps its
    /// count as the numerator over the total count of the rules sharing
    /// its head, so each head group's probabilities sum to exactly one.
    #[verifier::loop_isolation(false)]
    pub fn normalise_rules(occurence_rules: OccurrenceRules) -> (r: Vec<(Rule, Probability)>)
        requires
            occurence_rules.wf(),
            occ_total(occurence_rules@) <= u64::MAX,
        ensures
            table_view(r@) == renorm(occurence_rules@),
            rules_distinct(table_view(r@)),
            table_normalized(table_view(r@)),
    {
        let ghost t = occurence_rules@;
        proof {
            lemma_renorm_props(t);
        }
        let OccurrenceRules { entries } = occurence_rules;
        let ghost ev = entries@;
        let n = entries.len();
        // the total count of each entry's head group
        let mut dens: Vec<u64> = Vec::new();
        let mut i: usize = 0;
        while i < n
            invariant
                i <= n,
                dens@.len() == i,
                forall|k: int| 0 <= k < i ==> #[trigger] dens@[k] as int == head_count_total(
                    t,
                    t[k].0.head,
                ),
            decreases n - i,
        {
            let h = entries[i].0.head.clone();
            let mut sum: u64 = 0;
            let mut j: usize = 0;
            while j < n
                invariant
                    j <= n,
                    h@ == t[i as int].0.head,
                    sum as int == head_count_total(t.take(j as int), h@),
                decreases n - j,
            {
                proof {
                    assert(t.take(j as int + 1) =~= t.take(j as int).push(t[j as int]));
                    lemma_occ_push(t.take(j as int), t[j as int], h@);
                    lemma_head_le_total(t.take(j as int + 1), h@);
                    lemma_occ_total_take(t, j as int + 1);
                }
                if entries[j].0.head == h {
                    let c = entries[j].1;
                    sum = sum + c;
                }
                j = j + 1;
            }
            proof {
                assert(t.take(n as int) =~= t);
            }
            dens.push(sum);
            i = i + 1;
        }
        // rebuild the table, pairing each rule with its probability
        let mut entries = entries;
        let mut out: Vec<(Rule, Probability)> = Vec::new();
        let mut idx: usize = 0;
        while entries.len() > 0
            invariant
                idx + entries.len() == n,
                entries@ == ev.subrange(idx as int, n as int),
                out@.len() == idx,
                forall|k: int|
                    0 <= k < idx ==> #[trigger] out@[k] == (
                        ev[k].0,
                        Probability { num: ev[k].1, den: dens@[k] },
                    ),
            decreases entries@.len(),
        {
            let ghost pre = entries@;
            let (rule, c) = entries.remove(0);
            proof {
                assert(pre[0] == ev[idx as int]);
                assert(entries@ =~= ev.subrange(idx as int + 1, n as int));
            }
            out.push((rule, Probability { num: c, den: dens[idx] }));
            idx = idx + 1;
        }
        proof {
            assert(table_view(out@) =~= renorm(t));
        }
        out
    }

    /// Accumulates observed rules into the occurrence table, counting one
    /// per occurrence: the table's count of every rule rises by how often
    /// the rule stands in `rules`, and the total by how many rules came.
    #[verifier::loop_isolation(false)]
    pub fn count_rule_occurence(occurence_rules: &mut OccurrenceRules, rules: Vec<Rule>)
        requires
            old(occurence_rules).wf(),
            occ_total(old(occurence_rules)@) + rules@.len() <= u64::MAX,
        ensures
            final(occurence_rules).wf(),
            final(occurence_rules)@ == occ_fold(old(occurence_rules)@, rule_views(rules@)),
            occ_total(final(occurence_rules)@) == occ_total(old(occurence_rules)@) + rules@.len(),
            forall|x: RuleView|
                count_of(final(occurence_rules)@, x) == count_of(old(occurence_rules)@, x)
                    + occurrences(rule_views(rules@), x),
    {
        proof {
            lemma_fold_props(old(occurence_rules)@, rule_views(rules@));
        }
        let ghost rs0 = rule_views(rules@);
        let mut rules = rules;
        while rules.len() > 0
            invariant
                occurence_rules.wf(),
                occ_total(occurence_rules@) + rules@.len() <= u64::MAX,
                occ_fold(occurence_rules@, rule_views(rules@)) == occ_fold(
                    old(occurence_rules)@,
                    rs0,
                ),
            decreases rules@.len(),
        {
            let ghost pre = rules@;
            let r = rules.remove(0);
            proof {
                assert(rule_views(pre).drop_first() =~= rule_views(rules@));
                assert(rule_views(pre)[0] == r@);
            }
            insert_one(occurence_rules, r);
        }
        proof {
            assert(rule_views(rules@) =~= Seq::<RuleView>::empty());
        }
    }

    /// Induces a grammar from a corpus of parsed trees: the rules of every
    /// tree are extracted and counted into one shared occurrence table,
    /// and the counts are normalized into per-head probabilities.
    ///
    /// Fails only when the corpus holds more rule occurrences than the
    /// counters can hold; with a start-subtree selection that always
    /// succeeds, the no-rules failure cannot arise.
    #[verifier::loop_isolation(false)]
    pub fn from_parse_trees(initial: Nonterminal, parse_trees: Vec<ParseTree>) -> (r: Result<
        Grammar,
        InductionError,
    >)
        ensures
            r matches Ok(g) ==> g.wf() && g@.initial == initial@ && g@.rules == renorm(
                occ_fold(Seq::empty(), corpus_rules(forest_view(parse_trees@))),
            ),
            corpus_rules(forest_view(parse_trees@)).len() <= u64::MAX ==> r is Ok,
            r matches Err(e) ==> e == InductionError::CountOverflow && corpus_rules(
                forest_view(parse_trees@),
            ).len() > u64::MAX,
    {
        let ghost forest = forest_view(parse_trees@);
        let mut occurence_rules = OccurrenceRules::new();
        let mut total: u64 = 0;
        let mut parse_trees = parse_trees;
        while parse_trees.len() > 0
            invariant
                occurence_rules.wf(),
                total as int == occ_total(occurence_rules@),
                total as int + corpus_rules(forest_view(parse_trees@)).len() == corpus_rules(
                    forest,
                ).len(),
                occ_fold(occurence_rules@, corpus_rules(forest_view(parse_trees@))) == occ_fold(
                    Seq::empty(),
                    corpus_rules(forest),
                ),
            decreases parse_trees@.len(),
        {
            let ghost rem0 = forest_view(parse_trees@);
            let parse_tree = parse_trees.remove(0);
            proof {
                assert(forest_view(parse_trees@) =~= rem0.drop_first());
                assert(rem0[0] == parse_tree@);
            }
            // start induction at the whole tree
            let select = |_initial: &str, tree: ParseTree| -> (sel: Option<ParseTree>)
                ensures
                    sel == Some(tree),
                { Some(tree) };
            let tree_rules_read = Self::read_rules(initial.as_str(), parse_tree, select);
            match tree_rules_read {
                Some(rules) => {
                    proof {
                        assert(rule_views(rules@) == tree_rules(rem0[0]));
                    }
                    let len = rules.len();
                    if u64::MAX - total < len as u64 {
                        return Err(InductionError::CountOverflow);
                    }
                    total = total + len as u64;
                    proof {
                        lemma_fold_concat(
                            occurence_rules@,
                            rule_views(rules@),
                            corpus_rules(rem0.drop_first()),
                        );
                    }
                    Self::count_rule_occurence(&mut occurence_rules, rules);
                },
                None => {
                    // the selection above always succeeds
                    return Err(InductionError::NoRules);
                },
            }
        }
        proof {
            assert(corpus_rules(forest_view(parse_trees@)) =~= Seq::<RuleView>::empty());
        }
        let rules = Self::normalise_rules(occurence_rules);
        Ok(Grammar { initial, rules })
    }

    /// Reads the rules implicit in `parse_tree`, starting from the subtree
    /// that the selection strategy `inital_subtree` picks; yields no rules
    /// exactly when the strategy finds no starting subtree.
    pub fn read_rules<F: Fn(&str, ParseTree) -> Option<ParseTree>>(
        initial: &str,
        parse_tree: ParseTree,
        inital_subtree: F,
    ) -> (r: Option<Vec<Rule>>)
        requires
            call_requires(inital_subtree, (initial, parse_tree)),
        ensures
            r matches Some(rules) ==> exists|sel: ParseTree|
                call_ensures(inital_subtree, (initial, parse_tree), Some(sel)) && rule_views(
                    rules@,
                ) == tree_rules(sel@),
            r is None ==> call_ensures(inital_subtree, (initial, parse_tree), None),
    {
        let ghost args = (initial, parse_tree);
        match inital_subtree(initial, parse_tree) {
            None => None,
            Some(subtree) => {
                let ghost sel = subtree;
                let mut rules: Vec<Rule> = Vec::new();
                extract_rules(subtree, &mut rules);
                proof {
                    assert(rule_views(rules@) =~= tree_rules(sel@));
                    assert(call_ensures(inital_subtree, args, Some(sel)));
                }
                Some(rules)
            },
        }
    }
}

/// Appending an entry adds its numerator to the head totals it belongs to.
proof fn lemma_prob_push(u: Seq<(RuleView, Probability)>, e: (RuleView, Probability), h: Seq<char>)
    ensures
        head_num_total(u.push(e), h) == head_num_total(u, h) + (if e.0.head == h {
            e.1.num as int
        } else {
            0
        }),
    decreases u.len(),
{
    if u.len() == 0 {
        assert(u.push(e).drop_first() =~= Seq::<(RuleView, Probability)>::empty());
        assert(head_num_total(u.push(e).drop_first(), h) == 0);
    } else {
        lemma_prob_push(u.drop_first(), e, h);
        assert(u.push(e).drop_first() =~= u.drop_first().push(e));
    }
}

/// A head group's numerator total is non-negative and no prefix of the
/// table exceeds the whole table's group total.
proof fn lemma_head_num_take(t: Seq<(RuleView, Probability)>, j: int, h: Seq<char>)
    requires
        0 <= j <= t.len(),
    ensures
        0 <= head_num_total(t.take(j), h) <= head_num_total(t, h),
    decreases t.len() - j,
{
    if j == 0 {
        assert(t.take(0) =~= Seq::<(RuleView, Probability)>::empty());
        lemma_head_num_nonneg(t, h);
    }
    if j == t.len() {
        assert(t.take(j) =~= t);
        lemma_head_num_nonneg(t.take(j), h);
    } else {
        assert(t.take(j + 1) =~= t.take(j).push(t[j]));
        lemma_prob_push(t.take(j), t[j], h);
        lemma_head_num_take(t, j + 1, h);
        lemma_head_num_nonneg(t.take(j), h);
    }
}

/// A head group's numerator total is non-negative.
proof fn lemma_head_num_nonneg(t: Seq<(RuleView, Probability)>, h: Seq<char>)
    ensures
        head_num_total(t, h) >= 0,
    decreases t.len(),
{
    if t.len() > 0 {
        lemma_head_num_nonneg(t.drop_first(), h);
    }
}

/// An entry's numerator never exceeds its head group's total.
proof fn lemma_head_num_at(t: Seq<(RuleView, Probability)>, i: int)
    requires
        0 <= i < t.len(),
    ensures
        head_num_total(t, t[i].0.head) >= t[i].1.num,
    decreases t.len(),
{
    if i == 0 {
        lemma_head_num_nonneg(t.drop_first(), t[0].0.head);
    } else {
        lemma_head_num_at(t.drop_first(), i - 1);
        lemma_head_num_nonneg(t.drop_first(), t[i].0.head);
    }
}

/// Whether `u` is `hay` itself or stands anywhere below it.
pub open spec fn occurs_in(hay: TreeShape, u: TreeShape) -> bool
    decreases hay,
{
    hay == u || (match hay {
        TreeShape::Branch { label, kids } => exists|j: int|
            0 <= j < kids.len() && occurs_in(#[trigger] kids[j], u),
        TreeShape::Leaf { .. } => false,
    })
}

/// Depth-first search for a subtree whose root label equals the target.
#[verifier::loop_isolation(false)]
fn find_matching(target: &Nonterminal, parse_tree: ParseTree) -> (r: Option<ParseTree>)
    ensures
        r matches Some(sub) ==> occurs_in(parse_tree@, sub@) && label_of(sub@) == target@,
        r is None ==> forall|u: TreeShape| occurs_in(parse_tree@, u) ==> label_of(u) != target@,
    decreases parse_tree,
{
    let ghost t0 = parse_tree;
    if parse_tree.root == *target {
        return Some(parse_tree);
    }
    match parse_tree.descendants {
        Descendants::Atom(_) => None,
        Descendants::Expressions(kids) => {
            let ghost kids0 = kids@;
            let ghost kv = subtree_views(kids0, 0);
            proof {
                lemma_subtree_views(kids0, 0);
            }
            let mut kids = kids;
            while kids.len() > 0
                invariant
                    kids@.len() <= kids0.len(),
                    kids@ == kids0.subrange(kids0.len() - kids.len(), kids0.len() as int),
                    forall|j: int, u: TreeShape|
                        0 <= j < kids0.len() - kids@.len() && #[trigger] occurs_in(kv[j], u)
                            ==> label_of(u) != target@,
                decreases kids@.len(),
            {
                let ghost q = kids0.len() - kids@.len();
                let k = kids.remove(0);
                proof {
                    assert(k == kids0[q]);
                    assert(kids@ =~= kids0.subrange(kids0.len() - kids.len(), kids0.len() as int));
                    assert(decreases_to!(t0 => t0.descendants));
                    assert(t0.descendants->Expressions_0@ == kids0);
                    assert(decreases_to!(t0.descendants => t0.descendants->Expressions_0));
                    assert(decreases_to!(t0.descendants->Expressions_0 => kids0));
                    assert(decreases_to!(kids0 => kids0[q]));
                    assert(decreases_to!(t0 => kids0[q]));
                }
                match find_matching(target, k) {
                    Some(sub) => {
                        proof {
                            assert(tree_view(k) == kv[q]);
                            assert(occurs_in(kv[q], sub@));
                            assert(tree_view(t0) == (TreeShape::Branch {
                                label: t0.root@,
                                kids: kv,
                            }));
                            assert(occurs_in(tree_view(t0)->Branch_kids[q], sub@));
                            assert(occurs_in(tree_view(t0), sub@));
                        }
                        return Some(sub);
                    },
                    None => {
                        proof {
                            assert(tree_view(k) == kv[q]);
                        }
                    },
                }
            }
            proof {
                assert forall|u: TreeShape| occurs_in(tree_view(t0), u) implies label_of(u)
                    != target@ by {
                    if u != tree_view(t0) {
                        let j = choose|j: int| 0 <= j < kv.len() && occurs_in(kv[j], u);
                        assert(occurs_in(kv[j], u));
                    }
                }
            }
            None
        },
    }
}

/// Finds the first subtree, in depth-first preorder, whose root label is
/// `initial`; `None` exactly when no subtree carries that label.
pub fn first_matching_subtree(initial: &str, parse_tree: ParseTree) -> (r: Option<ParseTree>)
    ensures
        r matches Some(sub) ==> occurs_in(parse_tree@, sub@) && label_of(sub@) == initial@,
        r is None ==> forall|u: TreeShape| occurs_in(parse_tree@, u) ==> label_of(u) != initial@,
{
    let target = initial.to_owned();
    find_matching(&target, parse_tree)
}

/// Whether the rule mentions `s` as a nonterminal: as its head or inside
/// a non-lexical body.
pub open spec fn rule_mentions_nt(r: RuleView, s: Seq<char>) -> bool {
    r.head == s || (match r.body {
        BodyView::NonLexical(syms) => syms.contains(s),
        BodyView::Lexical(_) => false,
    })
}

/// The nonterminals of a grammar: the start symbol, every rule head, and
/// every symbol of a non-lexical body.
pub open spec fn nonterminals_of(g: crate::GrammarView) -> Set<Seq<char>> {
    Set::new(
        |s: Seq<char>|
            s == g.initial || exists|i: int|
                0 <= i < g.rules.len() && rule_mentions_nt(#[trigger] g.rules[i].0, s),
    )
}

/// The terminals of a grammar: every word of a lexical body.
pub open spec fn terminals_of(g: crate::GrammarView) -> Set<Seq<char>> {
    Set::new(
        |s: Seq<char>|
            exists|i: int| 0 <= i < g.rules.len() && (#[trigger] g.rules[i]).0.body
                == BodyView::Lexical(s),
    )
}

/// The labels of `v`, as a set of character sequences.
pub open spec fn labels_set(v: Seq<String>) -> Set<Seq<char>> {
    Set::new(|s: Seq<char>| exists|i: int| 0 <= i < v.len() && (#[trigger] v[i])@ == s)
}

/// No two labels of `v` are equal.
pub open spec fn labels_distinct(v: Seq<String>) -> bool {
    forall|i: int, j: int| 0 <= i < j < v.len() ==> v[i]@ != v[j]@
}

/// Appends a copy of the label unless an equal one already stands there.
#[verifier::loop_isolation(false)]
fn push_unique(out: &mut Vec<String>, s: &String)
    requires
        labels_distinct(old(out)@),
    ensures
        labels_distinct(final(out)@),
        labels_set(final(out)@) == labels_set(old(out)@).insert(s@),
{
    let n = out.len();
    let mut i: usize = 0;
    while i < n
        invariant
            i <= n,
            *out == *old(out),
            forall|j: int| 0 <= j < i ==> out@[j]@ != s@,
        decreases n - i,
    {
        if out[i] == *s {
            proof {
                assert(out@[i as int]@ == s@);
                assert forall|x: Seq<char>|
                    labels_set(out@).contains(x) == labels_set(old(out)@).insert(s@).contains(
                        x,
                    ) by {
                    if x == s@ {
                        assert(labels_set(out@).contains(x));
                    }
                }
                assert(labels_set(out@) =~= labels_set(old(out)@).insert(s@));
            }
            return;
        }
        i = i + 1;
    }
    out.push(s.clone());
    proof {
        assert forall|j: int, k: int|
            0 <= j < k < out@.len() implies out@[j]@ != out@[k]@ by {
            if k < out@.len() - 1 {
                assert(old(out)@[j]@ != old(out)@[k]@);
            }
        }
        let m = old(out)@.len() as int;
        assert(out@[m]@ == s@);
        assert forall|x: Seq<char>|
            labels_set(out@).contains(x) == labels_set(old(out)@).insert(s@).contains(x) by {
            if labels_set(out@).contains(x) {
                let idx = choose|idx: int| 0 <= idx < out@.len() && out@[idx]@ == x;
                if idx < m {
                    assert(old(out)@[idx]@ == x);
                }
            }
            if labels_set(old(out)@).contains(x) {
                let idx = choose|idx: int| 0 <= idx < old(out)@.len() && old(out)@[idx]@ == x;
                assert(out@[idx]@ == x);
            }
        }
        assert(labels_set(out@) =~= labels_set(old(out)@).insert(s@));
    }
}

impl Grammar {
    /// The distinct nonterminals of the grammar: the start symbol, every
    /// rule head, and every symbol of a non-lexical body. The start
    /// symbol is always included, even when it heads no rule.
    #[verifier::loop_isolation(false)]
    pub fn nonterminals(&self) -> (r: Vec<Nonterminal>)
        ensures
            labels_distinct(r@),
            labels_set(r@) == nonterminals_of(self@),
    {
        let mut out: Vec<Nonterminal> = Vec::new();
        out.push(self.initial.clone());
        proof {
            assert(out@[0]@ == self@.initial);
            assert(labels_set(out@).contains(self@.initial));
            assert forall|s: Seq<char>|
                labels_set(out@).contains(s) implies nonterminals_of(self@).contains(s) by {}
        }
        let n = self.rules.len();
        let mut i: usize = 0;
        while i < n
            invariant
                i <= n,
                labels_distinct(out@),
                labels_set(out@).contains(self@.initial),
                forall|s: Seq<char>|
                    labels_set(out@).contains(s) ==> nonterminals_of(self@).contains(s),
                forall|k: int, s: Seq<char>|
                    0 <= k < i && #[trigger] rule_mentions_nt(self@.rules[k].0, s)
                        ==> labels_set(out@).contains(s),
            decreases n - i,
        {
            push_unique(&mut out, &self.rules[i].0.head);
            match &self.rules[i].0.body {
                Body::Lexical(_) => {},
                Body::NonLexical(syms) => {
                    let m = syms.len();
                    let mut j: usize = 0;
                    while j < m
                        invariant
                            j <= m,
                            labels_distinct(out@),
                            labels_set(out@).contains(self@.initial),
                            labels_set(out@).contains(self@.rules[i as int].0.head),
                            forall|s: Seq<char>|
                                labels_set(out@).contains(s) ==> nonterminals_of(
                                    self@,
                                ).contains(s),
                            forall|k: int, s: Seq<char>|
                                0 <= k < i && #[trigger] rule_mentions_nt(self@.rules[k].0, s)
                                    ==> labels_set(out@).contains(s),
                            forall|k: int|
                                0 <= k < j ==> labels_set(out@).contains(
                                    #[trigger] labels_view(syms@)[k],
                                ),
                        decreases m - j,
                    {
                        push_unique(&mut out, &syms[j]);
                        proof {
                            assert(self@.rules[i as int].0.body == BodyView::NonLexical(
                                labels_view(syms@),
                            ));
                            assert(labels_view(syms@).contains(labels_view(syms@)[j as int]));
                        }
                        j = j + 1;
                    }
                    proof {
                        assert forall|s: Seq<char>|
                            rule_mentions_nt(self@.rules[i as int].0, s) implies labels_set(
                            out@,
                        ).contains(s) by {
                            if self@.rules[i as int].0.head != s {
                                let k = choose|k: int|
                                    0 <= k < labels_view(syms@).len() && labels_view(syms@)[k]
                                        == s;
                                assert(labels_set(out@).contains(labels_view(syms@)[k]));
                            }
                        }
                    }
                },
            }
            i = i + 1;
        }
        proof {
            assert(labels_set(out@) =~= nonterminals_of(self@));
        }
        out
    }

    /// The distinct terminals of the grammar: exactly the words of the
    /// lexical rule bodies.
    #[verifier::loop_isolation(false)]
    pub fn terminals(&self) -> (r: Vec<Terminal>)
        ensures
            labels_distinct(r@),
            labels_set(r@) == terminals_of(self@),
    {
        let mut out: Vec<Terminal> = Vec::new();
        let n = self.rules.len();
        let mut i: usize = 0;
        while i < n
            invariant
                i <= n,
                labels_distinct(out@),
                forall|s: Seq<char>| labels_set(out@).contains(s) ==> terminals_of(self@).contains(s),
                forall|k: int|
                    0 <= k < i && (#[trigger] self@.rules[k]).0.body is Lexical ==> labels_set(
                        out@,
                    ).contains(self@.rules[k].0.body->Lexical_0),
            decreases n - i,
        {
            match &self.rules[i].0.body {
                Body::Lexical(word) => {
                    push_unique(&mut out, word);
                    proof {
                        assert(self@.rules[i as int].0.body == BodyView::Lexical(word@));
                    }
                },
                Body::NonLexical(_) => {},
            }
            i = i + 1;
        }
        proof {
            assert(labels_set(out@) =~= terminals_of(self@));
        }
        out
    }
}

/// A structural copy of a rule.
#[verifier::loop_isolation(false)]
fn clone_rule(r: &Rule) -> (c: Rule)
    ensures
        c@ == r@,
{
    let head = r.head.clone();
    match &r.body {
        Body::Lexical(word) => Rule { head, body: Body::Lexical(word.clone()) },
        Body::NonLexical(syms) => {
            let m = syms.len();
            let mut v: Vec<Nonterminal> = Vec::new();
            let mut j: usize = 0;
            while j < m
                invariant
                    j <= m,
                    v@.len() == j,
                    forall|k: int| 0 <= k < j ==> v@[k]@ == syms@[k]@,
                decreases m - j,
            {
                v.push(syms[j].clone());
                j = j + 1;
            }
            proof {
                assert(labels_view(v@) =~= labels_view(syms@));
            }
            Rule { head, body: Body::NonLexical(v) }
        },
    }
}

/// The lexical entries of a table, in order.
pub open spec fn lexical_entries(t: Seq<(RuleView, Probability)>) -> Seq<(RuleView, Probability)>
    decreases t.len(),
{
    if t.len() == 0 {
        Seq::empty()
    } else {
        (if t[0].0.body is Lexical {
            seq![t[0]]
        } else {
            Seq::empty()
        }) + lexical_entries(t.drop_first())
    }
}

/// The non-lexical entries of a table, in order.
pub open spec fn nonlexical_entries(t: Seq<(RuleView, Probability)>) -> Seq<
    (RuleView, Probability),
>
    decreases t.len(),
{
    if t.len() == 0 {
        Seq::empty()
    } else {
        (if t[0].0.body is NonLexical {
            seq![t[0]]
        } else {
            Seq::empty()
        }) + nonlexical_entries(t.drop_first())
    }
}

/// Appending an entry extends the lexical and non-lexical selections.
proof fn lemma_entries_push(u: Seq<(RuleView, Probability)>, e: (RuleView, Probability))
    ensures
        lexical_entries(u.push(e)) == lexical_entries(u) + (if e.0.body is Lexical {
            seq![e]
        } else {
            Seq::empty()
        }),
        nonlexical_entries(u.push(e)) == nonlexical_entries(u) + (if e.0.body is NonLexical {
            seq![e]
        } else {
            Seq::empty()
        }),
    decreases u.len(),
{
    if u.len() == 0 {
        assert(u.push(e)[0] == e);
        assert(u.push(e).drop_first() =~= Seq::<(RuleView, Probability)>::empty());
        assert(lexical_entries(u.push(e).drop_first()) == Seq::<(RuleView, Probability)>::empty());
        assert(nonlexical_entries(u.push(e).drop_first()) == Seq::<
            (RuleView, Probability),
        >::empty());
        assert(lexical_entries(u) == Seq::<(RuleView, Probability)>::empty());
        assert(nonlexical_entries(u) == Seq::<(RuleView, Probability)>::empty());
        assert(lexical_entries(u.push(e)) =~= lexical_entries(u) + (if e.0.body is Lexical {
            seq![e]
        } else {
            Seq::empty()
        }));
        assert(nonlexical_entries(u.push(e)) =~= nonlexical_entries(u) + (
        if e.0.body is NonLexical {
            seq![e]
        } else {
            Seq::empty()
        }));
    } else {
        lemma_entries_push(u.drop_first(), e);
        assert(u.push(e)[0] == u[0]);
        assert(u.push(e).drop_first() =~= u.drop_first().push(e));
        assert(lexical_entries(u.push(e).drop_first()) == lexical_entries(u.drop_first().push(e)));
        assert(nonlexical_entries(u.push(e).drop_first()) == nonlexical_entries(
            u.drop_first().push(e),
        ));
        assert(lexical_entries(u.push(e)) =~= lexical_entries(u) + (if e.0.body is Lexical {
            seq![e]
        } else {
            Seq::empty()
        }));
        assert(nonlexical_entries(u.push(e)) =~= nonlexical_entries(u) + (
        if e.0.body is NonLexical {
            seq![e]
        } else {
            Seq::empty()
        }));
    }
}

impl Grammar {
    /// The rules that rewrite a head directly to a word, with their
    /// probabilities, in table order.
    #[verifier::loop_isolation(false)]
    pub fn lexical_rules(&self) -> (r: Vec<(Rule, Probability)>)
        ensures
            table_view(r@) == lexical_entries(self@.rules),
    {
        let ghost t = self@.rules;
        let mut out: Vec<(Rule, Probability)> = Vec::new();
        let n = self.rules.len();
        let mut i: usize = 0;
        while i < n
            invariant
                i <= n,
                table_view(out@) == lexical_entries(t.take(i as int)),
            decreases n - i,
        {
            proof {
                assert(t.take(i as int + 1) =~= t.take(i as int).push(t[i as int]));
                lemma_entries_push(t.take(i as int), t[i as int]);
            }
            if self.rules[i].0.is_lexical_rule() {
                let c = clone_rule(&self.rules[i].0);
                out.push((c, self.rules[i].1));
            }
            proof {
                assert(table_view(out@) =~= lexical_entries(t.take(i as int + 1)));
            }
            i = i + 1;
        }
        proof {
            assert(t.take(n as int) =~= t);
        }
        out
    }

    /// The rules that rewrite a head to a sequence of nonterminals, with
    /// their probabilities, in table order.
    #[verifier::loop_isolation(false)]
    pub fn nonlexical_rules(&self) -> (r: Vec<(Rule, Probability)>)
        ensures
            table_view(r@) == nonlexical_entries(self@.rules),
    {
        let ghost t = self@.rules;
        let mut out: Vec<(Rule, Probability)> = Vec::new();
        let n = self.rules.len();
        let mut i: usize = 0;
        while i < n
            invariant
                i <= n,
                table_view(out@) == nonlexical_entries(t.take(i as int)),
            decreases n - i,
        {
            proof {
                assert(t.take(i as int + 1) =~= t.take(i as int).push(t[i as int]));
                lemma_entries_push(t.take(i as int), t[i as int]);
            }
            if !self.rules[i].0.is_lexical_rule() {
                let c = clone_rule(&self.rules[i].0);
                out.push((c, self.rules[i].1));
            }
            proof {
                assert(table_view(out@) =~= nonlexical_entries(t.take(i as int + 1)));
            }
            i = i + 1;
        }
        proof {
            assert(t.take(n as int) =~= t);
        }
        out
    }

    /// Re-derives every probability from the stored numerators, taken as
    /// relative weights. On a valid grammar, whose head groups already
    /// sum to one, this recomputes exactly the same table.
    #[verifier::loop_isolation(false)]
    pub fn normalise(&mut self)
        requires
            old(self).wf(),
        ensures
            final(self).wf(),
            final(self)@ == old(self)@,
    {
        let ghost t0 = self@.rules;
        let n = self.rules.len();
        // the numerator total of each entry's head group
        let mut dens: Vec<u64> = Vec::new();
        let mut i: usize = 0;
        while i < n
            invariant
                i <= n,
                *self == *old(self),
                dens@.len() == i,
                forall|k: int| 0 <= k < i ==> #[trigger] dens@[k] as int == head_num_total(
                    t0,
                    t0[k].0.head,
                ),
            decreases n - i,
        {
            let h = self.rules[i].0.head.clone();
            let mut sum: u64 = 0;
            let mut j: usize = 0;
            while j < n
                invariant
                    j <= n,
                    *self == *old(self),
                    h@ == t0[i as int].0.head,
                    sum as int == head_num_total(t0.take(j as int), h@),
                decreases n - j,
            {
                proof {
                    assert(t0.take(j as int + 1) =~= t0.take(j as int).push(t0[j as int]));
                    lemma_prob_push(t0.take(j as int), t0[j as int], h@);
                    lemma_head_num_take(t0, j as int + 1, h@);
                }
                if self.rules[j].0.head == h {
                    let c = self.rules[j].1.num;
                    sum = sum + c;
                }
                j = j + 1;
            }
            proof {
                assert(t0.take(n as int) =~= t0);
            }
            dens.push(sum);
            i = i + 1;
        }
        // write the recomputed probabilities back
        let mut i: usize = 0;
        while i < n
            invariant
                i <= n,
                self.initial == old(self).initial,
                self.rules@.len() == n,
                self@.rules == t0,
                dens@.len() == n,
                forall|k: int| 0 <= k < n ==> #[trigger] dens@[k] as int == head_num_total(
                    t0,
                    t0[k].0.head,
                ),
            decreases n - i,
        {
            let ghost pre = self.rules@;
            let num = self.rules[i].1.num;
            let d = dens[i];
            self.rules[i].1 = Probability { num, den: d };
            proof {
                assert(self.rules@[i as int].1 == pre[i as int].1);
                assert(self.rules@ =~= pre);
            }
            i = i + 1;
        }
    }
}

/// For every head symbol present in a valid grammar's table, the
/// probabilities of the rules with that head sum to exactly one: those
/// rules all share one denominator, which is at least one, and their
/// numerators sum to exactly that denominator.
pub proof fn lemma_probabilities_sum_to_one(g: &Grammar, h: Seq<char>)
    requires
        g.wf(),
        exists|i: int| 0 <= i < g@.rules.len() && (#[trigger] g@.rules[i]).0.head == h,
    ensures
        head_num_total(g@.rules, h) >= 1,
        forall|i: int|
            0 <= i < g@.rules.len() && (#[trigger] g@.rules[i]).0.head == h ==> g@.rules[i].1.den
                == head_num_total(g@.rules, h) && g@.rules[i].1.num >= 1,
{
    let i = choose|i: int| 0 <= i < g@.rules.len() && (#[trigger] g@.rules[i]).0.head == h;
    lemma_head_num_at(g@.rules, i);
}

/// The numerators of a probability table, as occurrence-style weights.
pub open spec fn weights_of(t: Seq<(RuleView, Probability)>) -> Seq<(RuleView, u64)> {
    Seq::new(t.len(), |i: int| (t[i].0, t[i].1.num))
}

/// Re-normalizing an already normalized table, with its probabilities
/// taken as relative weights, returns exactly the same table.
pub proof fn lemma_renormalise_idempotent(t: Seq<(RuleView, Probability)>)
    requires
        table_normalized(t),
    ensures
        renorm(weights_of(t)) == t,
{
    let w = weights_of(t);
    assert forall|i: int| 0 <= i < t.len() implies renorm(w)[i] == t[i] by {
        lemma_head_num_pointwise(t, w, t[i].0.head);
    }
    assert(renorm(w) =~= t);
}

/// The start symbol always belongs to the nonterminals, even when it
/// heads no rule.
pub proof fn lemma_nonterminals_include_start(g: &Grammar)
    ensures
        nonterminals_of(g@).contains(g@.initial),
{
}

} // verus!
