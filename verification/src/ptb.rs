//! Bracketed constituency trees and their parser.
//!
//! A tree is written as `(label body)` where the body is either a single
//! word or a non-empty sequence of bracketed subtrees. [`PTBParser::parse`]
//! turns one line of such text into a [`ParseTree`]; [`ParseTree::print`]
//! renders the tree back in canonical single-space-separated form.

use vstd::prelude::*;
use vstd::string::StrSliceExecFns;
use vstd::string::StringExecFns;

verus! {

broadcast use vstd::std_specs::vec::group_vec_axioms, vstd::seq::group_seq_axioms;

/// A labeled tree: a root label and either a single word (a leaf)
/// or an ordered, non-empty sequence of child trees.
#[derive(Debug, PartialEq)]
pub struct ParseTree {
    pub root: String,
    pub descendants: Descendants,
}

/// What stands below a tree's root label.
#[derive(Debug, PartialEq)]
pub enum Descendants {
    /// A single word: the node is a leaf.
    Atom(String),
    /// An ordered, non-empty sequence of child trees.
    Expressions(Vec<ParseTree>),
}

/// Mathematical model of a tree, with labels as character sequences.
pub enum TreeShape {
    Leaf { label: Seq<char>, word: Seq<char> },
    Branch { label: Seq<char>, kids: Seq<TreeShape> },
}

/// The models of the trees of `ts` from index `i` on, in order.
pub open spec fn subtree_views(ts: Seq<ParseTree>, i: int) -> Seq<TreeShape>
    decreases ts, ts.len() - i,
{
    if i < 0 || i >= ts.len() {
        Seq::empty()
    } else {
        seq![tree_view(ts[i])] + subtree_views(ts, i + 1)
    }
}

/// The model of a tree value.
pub open spec fn tree_view(t: ParseTree) -> TreeShape
    decreases t, 0int,
{
    match t.descendants {
        Descendants::Atom(word) => TreeShape::Leaf { label: t.root@, word: word@ },
        Descendants::Expressions(kids) => TreeShape::Branch {
            label: t.root@,
            kids: subtree_views(kids@, 0),
        },
    }
}

impl View for ParseTree {
    type V = TreeShape;

    open spec fn view(&self) -> TreeShape {
        tree_view(*self)
    }
}

/// Whitespace that the parser skips between tokens.
pub open spec fn wsp(c: char) -> bool {
    c == ' ' || c == '\t' || c == '\n' || c == '\r'
}

/// Characters that may stand inside a label or word token.
pub open spec fn token_char(c: char) -> bool {
    c != ' ' && c != '(' && c != ')'
}

/// A label the parser could have produced: non-empty, free of spaces and
/// parentheses, and not starting with a whitespace character.
pub open spec fn label_ok(s: Seq<char>) -> bool {
    &&& s.len() > 0
    &&& forall|i: int| 0 <= i < s.len() ==> token_char(s[i])
    &&& !wsp(s[0])
}

/// Well-formedness of every tree of `kids`.
pub open spec fn wf_kids(kids: Seq<TreeShape>) -> bool
    decreases kids,
{
    forall|j: int| 0 <= j < kids.len() ==> wf_tree(#[trigger] kids[j])
}

/// A well-formed tree: every label and word is a valid token and every
/// branch has at least one child.
pub open spec fn wf_tree(t: TreeShape) -> bool
    decreases t,
{
    match t {
        TreeShape::Leaf { label, word } => label_ok(label) && label_ok(word),
        TreeShape::Branch { label, kids } => label_ok(label) && kids.len() > 0 && wf_kids(kids),
    }
}

/// Canonical text of the trees of `kids` from index `i` on, joined by
/// single spaces.
pub open spec fn kids_text(kids: Seq<TreeShape>, i: int) -> Seq<char>
    decreases kids, kids.len() - i,
{
    if i < 0 || i >= kids.len() {
        Seq::empty()
    } else if i == kids.len() - 1 {
        tree_text(kids[i])
    } else {
        tree_text(kids[i]) + seq![' '] + kids_text(kids, i + 1)
    }
}

/// Canonical bracketed text of a tree: `(label body)` with single spaces.
pub open spec fn tree_text(t: TreeShape) -> Seq<char>
    decreases t, 0int,
{
    match t {
        TreeShape::Leaf { label, word } => seq!['('] + label + seq![' '] + word + seq![')'],
        TreeShape::Branch { label, kids } => seq!['('] + label + seq![' '] + kids_text(kids, 0)
            + seq![')'],
    }
}

/// The models of `subtree_views` are exactly the models of the elements.
pub proof fn lemma_subtree_views(ts: Seq<ParseTree>, i: int)
    requires
        0 <= i <= ts.len(),
    ensures
        subtree_views(ts, i).len() == ts.len() - i,
        forall|j: int|
            0 <= j < ts.len() - i ==> subtree_views(ts, i)[j] == tree_view(ts[i + j]),
    decreases ts.len() - i,
{
    if i < ts.len() {
        lemma_subtree_views(ts, i + 1);
    }
}

/// The classification a parse failure carries.
#[derive(Debug, Clone, Copy, PartialEq, Eq, Structural)]
pub enum ParseErrorKind {
    /// An opening parenthesis was required but absent.
    ExpectedOpen,
    /// A closing parenthesis was required but absent.
    ExpectedClose,
    /// A label or word token was required but absent.
    ExpectedToken,
    /// The input ended where more was required.
    UnexpectedEnd,
}

/// Outcome of parsing one bracketed expression.
pub enum ExprStep {
    Done { tree: TreeShape, next: int },
    Fail { kind: ParseErrorKind, at: int },
}

/// Outcome of parsing a non-empty sequence of bracketed expressions.
pub enum ListStep {
    Done { kids: Seq<TreeShape>, next: int },
    Fail { kind: ParseErrorKind, at: int },
}

/// The first index at or after `i` holding a non-whitespace character.
pub open spec fn skip_ws(s: Seq<char>, i: int) -> int
    decreases s.len() - i,
{
    if 0 <= i < s.len() && wsp(s[i]) {
        skip_ws(s, i + 1)
    } else {
        i
    }
}

/// The first index at or after `i` holding a character that cannot stand
/// inside a token.
pub open spec fn token_end(s: Seq<char>, i: int) -> int
    decreases s.len() - i,
{
    if 0 <= i < s.len() && token_char(s[i]) {
        token_end(s, i + 1)
    } else {
        i
    }
}

/// Parses one expression of `s` starting at `i`: `(`, a head token, then
/// either a word or a non-empty expression list, then `)`. Whitespace is
/// skipped between tokens and after the closing parenthesis.
pub open spec fn spec_expr(s: Seq<char>, i: int) -> ExprStep
    decreases s.len() - i, 0int,
{
    let j = skip_ws(s, i);
    if j >= s.len() {
        ExprStep::Fail { kind: ParseErrorKind::UnexpectedEnd, at: j }
    } else if s[j] != '(' {
        ExprStep::Fail { kind: ParseErrorKind::ExpectedOpen, at: j }
    } else {
        let k = skip_ws(s, j + 1);
        let e = token_end(s, k);
        if e == k {
            if k >= s.len() {
                ExprStep::Fail { kind: ParseErrorKind::UnexpectedEnd, at: k }
            } else {
                ExprStep::Fail { kind: ParseErrorKind::ExpectedToken, at: k }
            }
        } else {
            let head = s.subrange(k, e);
            let m = skip_ws(s, e);
            if m < s.len() && s[m] == '(' {
                if i < m {
                    match spec_list(s, m) {
                        ListStep::Done { kids, next } => {
                            let p = skip_ws(s, next);
                            if p < s.len() && s[p] == ')' {
                                ExprStep::Done {
                                    tree: TreeShape::Branch { label: head, kids },
                                    next: skip_ws(s, p + 1),
                                }
                            } else if p >= s.len() {
                                ExprStep::Fail { kind: ParseErrorKind::UnexpectedEnd, at: p }
                            } else {
                                ExprStep::Fail { kind: ParseErrorKind::ExpectedClose, at: p }
                            }
                        },
                        ListStep::Fail { kind, at } => ExprStep::Fail { kind, at },
                    }
                } else {
                    // never reached: the open parenthesis and the head token
                    // stand strictly between i and m
                    ExprStep::Fail { kind: ParseErrorKind::ExpectedOpen, at: m }
                }
            } else {
                let e2 = token_end(s, m);
                if e2 == m {
                    if m >= s.len() {
                        ExprStep::Fail { kind: ParseErrorKind::UnexpectedEnd, at: m }
                    } else {
                        ExprStep::Fail { kind: ParseErrorKind::ExpectedToken, at: m }
                    }
                } else {
                    let word = s.subrange(m, e2);
                    let p = skip_ws(s, e2);
                    if p < s.len() && s[p] == ')' {
                        ExprStep::Done {
                            tree: TreeShape::Leaf { label: head, word },
                            next: skip_ws(s, p + 1),
                        }
                    } else if p >= s.len() {
                        ExprStep::Fail { kind: ParseErrorKind::UnexpectedEnd, at: p }
                    } else {
                        ExprStep::Fail { kind: ParseErrorKind::ExpectedClose, at: p }
                    }
                }
            }
        }
    }
}

/// Parses as many expressions as possible from `i` on, requiring at least
/// one; stops before the first position where no further expression starts.
pub open spec fn spec_list(s: Seq<char>, i: int) -> ListStep
    decreases s.len() - i, 1int,
{
    match spec_expr(s, i) {
        ExprStep::Fail { kind, at } => ListStep::Fail { kind, at },
        ExprStep::Done { tree, next } => {
            if i < next && next <= s.len() {
                match spec_list(s, next) {
                    ListStep::Done { kids, next: fin } => ListStep::Done {
                        kids: seq![tree] + kids,
                        next: fin,
                    },
                    ListStep::Fail { .. } => ListStep::Done { kids: seq![tree], next },
                }
            } else {
                // never reached: a parsed expression always advances
                ListStep::Done { kids: seq![tree], next }
            }
        },
    }
}

/// Bounds and character facts of `skip_ws`.
pub proof fn lemma_skip_ws(s: Seq<char>, i: int)
    requires
        0 <= i <= s.len(),
    ensures
        i <= skip_ws(s, i) <= s.len(),
        forall|j: int| i <= j < skip_ws(s, i) ==> wsp(s[j]),
        skip_ws(s, i) == s.len() || !wsp(s[skip_ws(s, i)]),
    decreases s.len() - i,
{
    if i < s.len() && wsp(s[i]) {
        lemma_skip_ws(s, i + 1);
    }
}

/// Bounds and character facts of `token_end`.
pub proof fn lemma_token_end(s: Seq<char>, i: int)
    requires
        0 <= i <= s.len(),
    ensures
        i <= token_end(s, i) <= s.len(),
        forall|j: int| i <= j < token_end(s, i) ==> token_char(s[j]),
        token_end(s, i) == s.len() || !token_char(s[token_end(s, i)]),
    decreases s.len() - i,
{
    if i < s.len() && token_char(s[i]) {
        lemma_token_end(s, i + 1);
    }
}

/// A successful parse advances past `i` and stays within `s`; a failure
/// points at a position within `s`. A successful parse also yields a
/// well-formed tree.
pub proof fn lemma_expr_bounds(s: Seq<char>, i: int)
    requires
        0 <= i <= s.len(),
    ensures
        spec_expr(s, i) matches ExprStep::Done { tree, next } ==> i < next <= s.len()
            && wf_tree(tree),
        spec_expr(s, i) matches ExprStep::Fail { kind, at } ==> 0 <= at <= s.len(),
    decreases s.len() - i, 0int,
{
    lemma_skip_ws(s, i);
    let j = skip_ws(s, i);
    if j < s.len() && s[j] == '(' {
        lemma_skip_ws(s, j + 1);
        let k = skip_ws(s, j + 1);
        lemma_token_end(s, k);
        let e = token_end(s, k);
        if e != k {
            assert(label_ok(s.subrange(k, e)));
            lemma_skip_ws(s, e);
            let m = skip_ws(s, e);
            if m < s.len() && s[m] == '(' {
                lemma_list_bounds(s, m);
                match spec_list(s, m) {
                    ListStep::Done { kids, next } => {
                        lemma_skip_ws(s, next);
                        let p = skip_ws(s, next);
                        if p < s.len() && s[p] == ')' {
                            lemma_skip_ws(s, p + 1);
                        }
                    },
                    ListStep::Fail { .. } => {},
                }
            } else {
                lemma_token_end(s, m);
                let e2 = token_end(s, m);
                if e2 != m {
                    assert(label_ok(s.subrange(m, e2)));
                    lemma_skip_ws(s, e2);
                    let p = skip_ws(s, e2);
                    if p < s.len() && s[p] == ')' {
                        lemma_skip_ws(s, p + 1);
                    }
                }
            }
        }
    }
}

/// Counterpart of `lemma_expr_bounds` for expression lists.
pub proof fn lemma_list_bounds(s: Seq<char>, i: int)
    requires
        0 <= i <= s.len(),
    ensures
        spec_list(s, i) matches ListStep::Done { kids, next } ==> i < next <= s.len()
            && kids.len() >= 1 && wf_kids(kids),
        spec_list(s, i) matches ListStep::Fail { kind, at } ==> 0 <= at <= s.len(),
    decreases s.len() - i, 1int,
{
    lemma_expr_bounds(s, i);
    match spec_expr(s, i) {
        ExprStep::Done { tree, next } => {
            lemma_list_bounds(s, next);
        },
        ExprStep::Fail { .. } => {},
    }
}

/// `skip_ws` runs exactly to the end of a known whitespace region.
proof fn lemma_skip_ws_region(s: Seq<char>, a: int, b: int)
    requires
        0 <= a <= b <= s.len(),
        forall|j: int| a <= j < b ==> wsp(s[j]),
        b == s.len() || !wsp(s[b]),
    ensures
        skip_ws(s, a) == b,
    decreases b - a,
{
    if a < b {
        lemma_skip_ws_region(s, a + 1, b);
    }
}

/// `token_end` runs exactly to the end of a known token region.
proof fn lemma_token_region(s: Seq<char>, a: int, b: int)
    requires
        0 <= a <= b <= s.len(),
        forall|j: int| a <= j < b ==> token_char(s[j]),
        b == s.len() || !token_char(s[b]),
    ensures
        token_end(s, a) == b,
    decreases b - a,
{
    if a < b {
        lemma_token_region(s, a + 1, b);
    }
}

/// The canonical text of a tree is non-trivial and starts with `(`.
proof fn lemma_text_shape(t: TreeShape)
    ensures
        tree_text(t).len() >= 2,
        tree_text(t)[0] == '(',
{
    match t {
        TreeShape::Leaf { label, word } => {},
        TreeShape::Branch { label, kids } => {},
    }
}

/// Parsing the canonical text of a well-formed tree, embedded in `s` at
/// position `i`, succeeds, rebuilds exactly that tree, and stops right
/// after the text, past any trailing whitespace.
#[verifier::rlimit(60)]
pub proof fn lemma_parse_text(s: Seq<char>, i: int, t: TreeShape)
    requires
        wf_tree(t),
        0 <= i,
        i + tree_text(t).len() <= s.len(),
        s.subrange(i, i + tree_text(t).len() as int) == tree_text(t),
    ensures
        spec_expr(s, i) == (ExprStep::Done {
            tree: t,
            next: skip_ws(s, i + tree_text(t).len() as int),
        }),
    decreases t, 1int,
{
    match t {
        TreeShape::Leaf { label, word } => {
            lemma_parse_text_leaf(s, i, t);
        },
        TreeShape::Branch { label, kids } => {
            lemma_parse_text_branch(s, i, t);
        },
    }
}

/// The leaf case of `lemma_parse_text`.
#[verifier::rlimit(80)]
proof fn lemma_parse_text_leaf(s: Seq<char>, i: int, t: TreeShape)
    requires
        wf_tree(t),
        t is Leaf,
        0 <= i,
        i + tree_text(t).len() <= s.len(),
        s.subrange(i, i + tree_text(t).len() as int) == tree_text(t),
    ensures
        spec_expr(s, i) == (ExprStep::Done {
            tree: t,
            next: skip_ws(s, i + tree_text(t).len() as int),
        }),
{
    let text = tree_text(t);
    let tl: int = text.len() as int;
    assert forall|x: int| i <= x < i + tl implies s[x] == text[x - i] by {
        assert(text[x - i] == s.subrange(i, i + tl)[x - i]);
    }
    let label = t->Leaf_label;
    let word = t->Leaf_word;
    let ll: int = label.len() as int;
    let wl: int = word.len() as int;
    assert(label_ok(label) && label_ok(word));
    assert(tl == 3 + ll + wl);
    assert(text[0] == '(');
    assert(s[i] == '(');
    assert forall|j: int| i + 1 <= j < i + 1 + ll implies s[j] == label[j - (i + 1)] by {
        assert(text[j - i] == label[j - i - 1]);
    }
    assert(text[1 + ll] == ' ');
    assert(s[i + 1 + ll] == ' ');
    assert forall|j: int| i + 2 + ll <= j < i + 2 + ll + wl implies s[j] == word[j - (i + 2
        + ll)] by {
        assert(text[j - i] == word[j - i - 2 - ll]);
    }
    assert(text[2 + ll + wl] == ')');
    assert(s[i + 2 + ll + wl] == ')');
    lemma_skip_ws_region(s, i, i);
    lemma_skip_ws_region(s, i + 1, i + 1);
    lemma_token_region(s, i + 1, i + 1 + ll);
    assert(s.subrange(i + 1, i + 1 + ll) =~= label);
    lemma_skip_ws_region(s, i + 1 + ll, i + 2 + ll);
    lemma_token_region(s, i + 2 + ll, i + 2 + ll + wl);
    assert(s.subrange(i + 2 + ll, i + 2 + ll + wl) =~= word);
    lemma_skip_ws_region(s, i + 2 + ll + wl, i + 2 + ll + wl);
    assert(spec_expr(s, i) == (ExprStep::Done { tree: t, next: skip_ws(s, i + tl) }));
}

/// The branch case of `lemma_parse_text`.
#[verifier::rlimit(80)]
proof fn lemma_parse_text_branch(s: Seq<char>, i: int, t: TreeShape)
    requires
        wf_tree(t),
        t is Branch,
        0 <= i,
        i + tree_text(t).len() <= s.len(),
        s.subrange(i, i + tree_text(t).len() as int) == tree_text(t),
    ensures
        spec_expr(s, i) == (ExprStep::Done {
            tree: t,
            next: skip_ws(s, i + tree_text(t).len() as int),
        }),
    decreases t, 0int,
{
    let text = tree_text(t);
    let tl: int = text.len() as int;
    assert forall|x: int| i <= x < i + tl implies s[x] == text[x - i] by {
        assert(text[x - i] == s.subrange(i, i + tl)[x - i]);
    }
    let label = t->Branch_label;
    let kids = t->Branch_kids;
    let ll: int = label.len() as int;
    let kt = kids_text(kids, 0);
    let kl: int = kt.len() as int;
    assert(label_ok(label));
    assert(tl == 3 + ll + kl);
    assert(text[0] == '(');
    assert(s[i] == '(');
    assert forall|j: int| i + 1 <= j < i + 1 + ll implies s[j] == label[j - (i + 1)] by {
        assert(text[j - i] == label[j - i - 1]);
    }
    assert(text[1 + ll] == ' ');
    assert(s[i + 1 + ll] == ' ');
    assert forall|j: int| i + 2 + ll <= j < i + 2 + ll + kl implies s[j] == kt[j - (i + 2
        + ll)] by {
        assert(text[j - i] == kt[j - i - 2 - ll]);
    }
    assert(text[2 + ll + kl] == ')');
    assert(s[i + 2 + ll + kl] == ')');
    lemma_text_shape(kids[0]);
    assert(kt[0] == '(');
    assert(s[i + 2 + ll] == '(');
    lemma_skip_ws_region(s, i, i);
    lemma_skip_ws_region(s, i + 1, i + 1);
    lemma_token_region(s, i + 1, i + 1 + ll);
    assert(s.subrange(i + 1, i + 1 + ll) =~= label);
    lemma_skip_ws_region(s, i + 1 + ll, i + 2 + ll);
    let b = i + 2 + ll + kl;
    assert(s.subrange(i + 2 + ll, b) =~= kt);
    lemma_parse_list(s, i + 2 + ll, kids, 0);
    assert(kids.subrange(0, kids.len() as int) =~= kids);
    lemma_skip_ws_region(s, b, b);
    assert(spec_expr(s, i) == (ExprStep::Done { tree: t, next: skip_ws(s, i + tl) }));
}

/// Parsing the canonical space-joined text of `kids[q..]`, embedded in
/// `s` at `i` and followed by `)` or the end of `s`, yields exactly those
/// trees and stops at the boundary.
pub proof fn lemma_parse_list(s: Seq<char>, i: int, kids: Seq<TreeShape>, q: int)
    requires
        wf_kids(kids),
        0 <= q < kids.len(),
        0 <= i,
        i + kids_text(kids, q).len() <= s.len(),
        s.subrange(i, i + kids_text(kids, q).len() as int) == kids_text(kids, q),
        i + kids_text(kids, q).len() == s.len() || s[i + kids_text(kids, q).len() as int] == ')',
    ensures
        spec_list(s, i) == (ListStep::Done {
            kids: kids.subrange(q, kids.len() as int),
            next: i + kids_text(kids, q).len() as int,
        }),
    decreases kids, kids.len() - q,
{
    let kt = kids_text(kids, q);
    let kl: int = kt.len() as int;
    let b = i + kl;
    assert forall|x: int| i <= x < b implies s[x] == kt[x - i] by {
        assert(kt[x - i] == s.subrange(i, b)[x - i]);
    }
    lemma_text_shape(kids[q]);
    if q == kids.len() - 1 {
        assert(kt == tree_text(kids[q]));
        lemma_parse_text(s, i, kids[q]);
        lemma_skip_ws_region(s, b, b);
        assert(spec_expr(s, i) == (ExprStep::Done { tree: kids[q], next: b }));
        assert(spec_expr(s, b) is Fail);
        assert(spec_list(s, b) is Fail);
        assert(seq![kids[q]] =~= kids.subrange(q, kids.len() as int));
        assert(spec_list(s, i) == (ListStep::Done {
            kids: kids.subrange(q, kids.len() as int),
            next: b,
        }));
    } else {
        let t0 = tree_text(kids[q]);
        let t0l: int = t0.len() as int;
        let rest = kids_text(kids, q + 1);
        let rl: int = rest.len() as int;
        assert(kt == t0 + seq![' '] + rest);
        assert(kl == t0l + 1 + rl);
        assert forall|j: int| i <= j < i + t0l implies s[j] == t0[j - i] by {
            assert(kt[j - i] == t0[j - i]);
        }
        assert(s.subrange(i, i + t0l) =~= t0);
        lemma_parse_text(s, i, kids[q]);
        assert(kt[t0l] == ' ');
        assert(s[i + t0l] == ' ');
        lemma_text_shape(kids[q + 1]);
        if q + 1 == kids.len() - 1 {
            assert(rest == tree_text(kids[q + 1]));
        } else {
            assert(rest == tree_text(kids[q + 1]) + seq![' '] + kids_text(kids, q + 2));
        }
        assert(rest[0] == '(');
        assert(kt[t0l + 1] == rest[0]);
        assert(s[i + t0l + 1] == '(');
        lemma_skip_ws_region(s, i + t0l, i + t0l + 1);
        assert(spec_expr(s, i) == (ExprStep::Done { tree: kids[q], next: i + t0l + 1 }));
        let i2 = i + t0l + 1;
        assert forall|j: int| i2 <= j < i2 + rl implies s[j] == rest[j - i2] by {
            assert(kt[j - i] == rest[j - i2]);
        }
        assert(s.subrange(i2, i2 + rl) =~= rest);
        lemma_parse_list(s, i2, kids, q + 1);
        assert(seq![kids[q]] + kids.subrange(q + 1, kids.len() as int) =~= kids.subrange(
            q,
            kids.len() as int,
        ));
        assert(spec_list(s, i) == (ListStep::Done {
            kids: kids.subrange(q, kids.len() as int),
            next: b,
        }));
    }
}

/// Number of occurrences of `c` among the characters of `s`.
pub open spec fn char_count(s: Seq<char>, c: char) -> int
    decreases s.len(),
{
    if s.len() == 0 {
        0
    } else {
        (if s[0] == c {
            1int
        } else {
            0
        }) + char_count(s.drop_first(), c)
    }
}

/// Counting characters distributes over concatenation.
proof fn lemma_char_count_concat(a: Seq<char>, b: Seq<char>, c: char)
    ensures
        char_count(a + b, c) == char_count(a, c) + char_count(b, c),
    decreases a.len(),
{
    if a.len() == 0 {
        assert(a + b =~= b);
    } else {
        assert((a + b).drop_first() =~= a.drop_first() + b);
        assert((a + b)[0] == a[0]);
        lemma_char_count_concat(a.drop_first(), b, c);
    }
}

/// Counting characters splits at any position of a region.
proof fn lemma_char_count_split(s: Seq<char>, i: int, m: int, j: int, c: char)
    requires
        0 <= i <= m <= j <= s.len(),
    ensures
        char_count(s.subrange(i, j), c) == char_count(s.subrange(i, m), c) + char_count(
            s.subrange(m, j),
            c,
        ),
{
    assert(s.subrange(i, j) =~= s.subrange(i, m) + s.subrange(m, j));
    lemma_char_count_concat(s.subrange(i, m), s.subrange(m, j), c);
}

/// A count of characters is never negative.
proof fn lemma_char_count_nonneg(s: Seq<char>, c: char)
    ensures
        char_count(s, c) >= 0,
    decreases s.len(),
{
    if s.len() > 0 {
        lemma_char_count_nonneg(s.drop_first(), c);
    }
}

/// A region free of `c` counts zero.
proof fn lemma_char_count_absent(s: Seq<char>, c: char)
    requires
        forall|j: int| 0 <= j < s.len() ==> s[j] != c,
    ensures
        char_count(s, c) == 0,
    decreases s.len(),
{
    if s.len() > 0 {
        lemma_char_count_absent(s.drop_first(), c);
    }
}

/// A region of one character counts that character once.
proof fn lemma_char_count_single(s: Seq<char>, j: int, c: char)
    requires
        0 <= j < s.len(),
    ensures
        char_count(s.subrange(j, j + 1), c) == (if s[j] == c {
            1int
        } else {
            0
        }),
{
    let u = s.subrange(j, j + 1);
    assert(u[0] == s[j]);
    assert(u.drop_first() =~= Seq::<char>::empty());
    assert(char_count(u.drop_first(), c) == 0);
}

/// Skipped whitespace holds no parentheses.
proof fn lemma_ws_region_no_parens(s: Seq<char>, a: int, b: int)
    requires
        0 <= a <= b <= s.len(),
        forall|j: int| a <= j < b ==> wsp(s[j]),
    ensures
        char_count(s.subrange(a, b), '(') == 0,
        char_count(s.subrange(a, b), ')') == 0,
{
    let u = s.subrange(a, b);
    assert forall|j: int| 0 <= j < u.len() implies u[j] != '(' && u[j] != ')' by {
        assert(u[j] == s[a + j]);
        assert(wsp(s[a + j]));
    }
    lemma_char_count_absent(u, '(');
    lemma_char_count_absent(u, ')');
}

/// A token holds no parentheses.
proof fn lemma_token_region_no_parens(s: Seq<char>, a: int, b: int)
    requires
        0 <= a <= b <= s.len(),
        forall|j: int| a <= j < b ==> token_char(s[j]),
    ensures
        char_count(s.subrange(a, b), '(') == 0,
        char_count(s.subrange(a, b), ')') == 0,
{
    let u = s.subrange(a, b);
    assert forall|j: int| 0 <= j < u.len() implies u[j] != '(' && u[j] != ')' by {
        assert(u[j] == s[a + j]);
        assert(token_char(s[a + j]));
    }
    lemma_char_count_absent(u, '(');
    lemma_char_count_absent(u, ')');
}

/// A successful parse consumes exactly as many opening as closing
/// parentheses, and at least one of each.
pub proof fn lemma_parse_balanced(s: Seq<char>, i: int)
    requires
        0 <= i <= s.len(),
    ensures
        spec_expr(s, i) matches ExprStep::Done { tree, next } ==> char_count(
            s.subrange(i, next),
            '(',
        ) == char_count(s.subrange(i, next), ')') && char_count(s.subrange(i, next), '(') >= 1,
    decreases s.len() - i, 0int,
{
    lemma_skip_ws(s, i);
    let j = skip_ws(s, i);
    if j < s.len() && s[j] == '(' {
        lemma_skip_ws(s, j + 1);
        let k = skip_ws(s, j + 1);
        lemma_token_end(s, k);
        let e = token_end(s, k);
        if e != k {
            lemma_skip_ws(s, e);
            let m = skip_ws(s, e);
            if m < s.len() && s[m] == '(' {
                lemma_list_bounds(s, m);
                lemma_list_balanced(s, m);
                match spec_list(s, m) {
                    ListStep::Done { kids, next: lnext } => {
                        lemma_skip_ws(s, lnext);
                        let p = skip_ws(s, lnext);
                        if p < s.len() && s[p] == ')' {
                            lemma_skip_ws(s, p + 1);
                            let fin = skip_ws(s, p + 1);
                            lemma_balanced_chunks(s, i, j, k, e, m, lnext, p, fin);
                        }
                    },
                    ListStep::Fail { .. } => {},
                }
            } else {
                lemma_token_end(s, m);
                let e2 = token_end(s, m);
                if e2 != m {
                    lemma_skip_ws(s, e2);
                    let p = skip_ws(s, e2);
                    if p < s.len() && s[p] == ')' {
                        lemma_skip_ws(s, p + 1);
                        let fin = skip_ws(s, p + 1);
                        lemma_token_region_no_parens(s, m, e2);
                        lemma_balanced_chunks(s, i, j, k, e, m, e2, p, fin);
                    }
                }
            }
        }
    }
}

/// Adds up the chunks of one parsed expression: leading whitespace, `(`,
/// whitespace, head token, whitespace, a balanced body region, then `)`
/// and trailing whitespace.
proof fn lemma_balanced_chunks(
    s: Seq<char>,
    i: int,
    j: int,
    k: int,
    e: int,
    m: int,
    bend: int,
    p: int,
    fin: int,
)
    requires
        0 <= i <= j < s.len(),
        s[j] == '(',
        j + 1 <= k <= e <= m <= bend <= p < s.len(),
        s[p] == ')',
        p + 1 <= fin <= s.len(),
        forall|x: int| i <= x < j ==> wsp(s[x]),
        forall|x: int| j + 1 <= x < k ==> wsp(s[x]),
        forall|x: int| k <= x < e ==> token_char(s[x]),
        forall|x: int| e <= x < m ==> wsp(s[x]),
        char_count(s.subrange(m, bend), '(') == char_count(s.subrange(m, bend), ')'),
        forall|x: int| bend <= x < p ==> wsp(s[x]),
        forall|x: int| p + 1 <= x < fin ==> wsp(s[x]),
    ensures
        char_count(s.subrange(i, fin), '(') == char_count(s.subrange(i, fin), ')'),
        char_count(s.subrange(i, fin), '(') >= 1,
{
    let body = char_count(s.subrange(m, bend), '(');
    lemma_char_count_nonneg(s.subrange(m, bend), '(');
    lemma_ws_region_no_parens(s, i, j);
    lemma_char_count_single(s, j, '(');
    lemma_char_count_single(s, j, ')');
    lemma_ws_region_no_parens(s, j + 1, k);
    lemma_token_region_no_parens(s, k, e);
    lemma_ws_region_no_parens(s, e, m);
    lemma_ws_region_no_parens(s, bend, p);
    lemma_char_count_single(s, p, '(');
    lemma_char_count_single(s, p, ')');
    lemma_ws_region_no_parens(s, p + 1, fin);
    lemma_char_count_split(s, i, j, fin, '(');
    lemma_char_count_split(s, j, j + 1, fin, '(');
    lemma_char_count_split(s, j + 1, k, fin, '(');
    lemma_char_count_split(s, k, e, fin, '(');
    lemma_char_count_split(s, e, m, fin, '(');
    lemma_char_count_split(s, m, bend, fin, '(');
    lemma_char_count_split(s, bend, p, fin, '(');
    lemma_char_count_split(s, p, p + 1, fin, '(');
    lemma_char_count_split(s, i, j, fin, ')');
    lemma_char_count_split(s, j, j + 1, fin, ')');
    lemma_char_count_split(s, j + 1, k, fin, ')');
    lemma_char_count_split(s, k, e, fin, ')');
    lemma_char_count_split(s, e, m, fin, ')');
    lemma_char_count_split(s, m, bend, fin, ')');
    lemma_char_count_split(s, bend, p, fin, ')');
    lemma_char_count_split(s, p, p + 1, fin, ')');
    assert(char_count(s.subrange(i, fin), '(') == 1 + body);
    assert(char_count(s.subrange(i, fin), ')') == 1 + body);
}

/// Counterpart of `lemma_parse_balanced` for expression lists.
proof fn lemma_list_balanced(s: Seq<char>, i: int)
    requires
        0 <= i <= s.len(),
    ensures
        spec_list(s, i) matches ListStep::Done { kids, next } ==> char_count(
            s.subrange(i, next),
            '(',
        ) == char_count(s.subrange(i, next), ')') && char_count(s.subrange(i, next), '(') >= 1,
    decreases s.len() - i, 1int,
{
    lemma_expr_bounds(s, i);
    lemma_parse_balanced(s, i);
    match spec_expr(s, i) {
        ExprStep::Done { tree, next } => {
            lemma_list_bounds(s, next);
            lemma_list_balanced(s, next);
            match spec_list(s, next) {
                ListStep::Done { kids, next: fin } => {
                    lemma_char_count_split(s, i, next, fin, '(');
                    lemma_char_count_split(s, i, next, fin, ')');
                },
                ListStep::Fail { .. } => {},
            }
        },
        ExprStep::Fail { .. } => {},
    }
}

/// A line whose every non-empty prefix holds unequal numbers of opening
/// and closing parentheses cannot parse: the parser accepts only input
/// that begins, possibly after whitespace, with a balanced expression.
pub proof fn lemma_unbalanced_rejected(s: Seq<char>)
    requires
        forall|j: int|
            1 <= j <= s.len() ==> char_count(#[trigger] s.take(j), '(') != char_count(
                s.take(j),
                ')',
            ),
    ensures
        spec_expr(s, 0) is Fail,
{
    lemma_expr_bounds(s, 0);
    lemma_parse_balanced(s, 0);
    if let ExprStep::Done { tree, next } = spec_expr(s, 0) {
        assert(s.take(next) =~= s.subrange(0, next));
        assert(char_count(s.take(next), '(') == char_count(s.take(next), ')'));
        assert(char_count(s.take(next), '(') >= 1);
        assert(s.take(next).len() >= 1) by {
            if next == 0 {
                lemma_char_count_absent(s.take(0), '(');
            }
        }
        assert(false);
    }
}

/// Round trip: parsing the canonical text of any well-formed tree
/// rebuilds exactly that tree and consumes the whole text. Hence a tree
/// parsed from canonically-spaced input prints back to that input.
pub proof fn lemma_round_trip(t: TreeShape)
    requires
        wf_tree(t),
    ensures
        spec_expr(tree_text(t), 0) == (ExprStep::Done {
            tree: t,
            next: tree_text(t).len() as int,
        }),
{
    let s = tree_text(t);
    assert(s.subrange(0, s.len() as int) =~= s);
    lemma_parse_text(s, 0, t);
    lemma_skip_ws_region(s, s.len() as int, s.len() as int);
}

/// A tree parsed from canonically-spaced input prints back to exactly
/// that input: whenever the line is the canonical text of a well-formed
/// tree, the tree the parser returns renders to the original line.
pub proof fn lemma_reprint_reproduces_input(s: Seq<char>, u: TreeShape, t: TreeShape, next: int)
    requires
        wf_tree(u),
        s == tree_text(u),
        spec_expr(s, 0) == (ExprStep::Done { tree: t, next }),
    ensures
        tree_text(t) == s,
        t == u,
{
    lemma_round_trip(u);
}

/// Advances past whitespace.
#[verifier::loop_isolation(false)]
fn skip_ws_exec(s: &str, i: usize) -> (r: usize)
    requires
        i <= s@.len(),
    ensures
        r == skip_ws(s@, i as int),
        i <= r <= s@.len(),
{
    let n = s.unicode_len();
    let mut j: usize = i;
    let mut stop: bool = false;
    while !stop && j < n
        invariant
            i <= j <= n,
            skip_ws(s@, i as int) == skip_ws(s@, j as int),
            stop ==> !wsp(s@[j as int]),
        decreases n - j, if stop { 0int } else { 1int },
    {
        let c = s.get_char(j);
        if c == ' ' || c == '\t' || c == '\n' || c == '\r' {
            j = j + 1;
        } else {
            stop = true;
        }
    }
    j
}

/// Advances past token characters.
#[verifier::loop_isolation(false)]
fn token_end_exec(s: &str, i: usize) -> (r: usize)
    requires
        i <= s@.len(),
    ensures
        r == token_end(s@, i as int),
        i <= r <= s@.len(),
{
    let n = s.unicode_len();
    let mut j: usize = i;
    let mut stop: bool = false;
    while !stop && j < n
        invariant
            i <= j <= n,
            token_end(s@, i as int) == token_end(s@, j as int),
            stop ==> !token_char(s@[j as int]),
        decreases n - j, if stop { 0int } else { 1int },
    {
        let c = s.get_char(j);
        if c != ' ' && c != '(' && c != ')' {
            j = j + 1;
        } else {
            stop = true;
        }
    }
    j
}

/// Parses one expression of `s` from `i` on, exactly as `spec_expr` says.
fn parse_expr(s: &str, i: usize) -> (r: Result<(ParseTree, usize), (ParseErrorKind, usize)>)
    requires
        i <= s@.len(),
    ensures
        r matches Ok(pair) ==> spec_expr(s@, i as int) == (ExprStep::Done {
            tree: pair.0@,
            next: pair.1 as int,
        }) && i < pair.1 <= s@.len(),
        r matches Err(err) ==> spec_expr(s@, i as int) == (ExprStep::Fail {
            kind: err.0,
            at: err.1 as int,
        }) && err.1 <= s@.len(),
    decreases s@.len() - i, 0int,
{
    let n = s.unicode_len();
    let j = skip_ws_exec(s, i);
    if j >= n {
        return Err((ParseErrorKind::UnexpectedEnd, j));
    }
    if s.get_char(j) != '(' {
        return Err((ParseErrorKind::ExpectedOpen, j));
    }
    let k = skip_ws_exec(s, j + 1);
    let e = token_end_exec(s, k);
    if e == k {
        if k >= n {
            return Err((ParseErrorKind::UnexpectedEnd, k));
        }
        return Err((ParseErrorKind::ExpectedToken, k));
    }
    let head = s.substring_char(k, e).to_owned();
    let m = skip_ws_exec(s, e);
    if m < n && s.get_char(m) == '(' {
        match parse_list(s, m) {
            Ok((kids, next)) => {
                let p = skip_ws_exec(s, next);
                if p < n && s.get_char(p) == ')' {
                    let fin = skip_ws_exec(s, p + 1);
                    let t = ParseTree { root: head, descendants: Descendants::Expressions(kids) };
                    return Ok((t, fin));
                }
                if p >= n {
                    return Err((ParseErrorKind::UnexpectedEnd, p));
                }
                return Err((ParseErrorKind::ExpectedClose, p));
            },
            Err(err) => {
                return Err(err);
            },
        }
    }
    let e2 = token_end_exec(s, m);
    if e2 == m {
        if m >= n {
            return Err((ParseErrorKind::UnexpectedEnd, m));
        }
        return Err((ParseErrorKind::ExpectedToken, m));
    }
    let word = s.substring_char(m, e2).to_owned();
    let p = skip_ws_exec(s, e2);
    if p < n && s.get_char(p) == ')' {
        let fin = skip_ws_exec(s, p + 1);
        let t = ParseTree { root: head, descendants: Descendants::Atom(word) };
        return Ok((t, fin));
    }
    if p >= n {
        return Err((ParseErrorKind::UnexpectedEnd, p));
    }
    Err((ParseErrorKind::ExpectedClose, p))
}

/// Parses a non-empty expression list from `i` on, exactly as `spec_list`
/// says.
fn parse_list(s: &str, i: usize) -> (r: Result<(Vec<ParseTree>, usize), (ParseErrorKind, usize)>)
    requires
        i <= s@.len(),
    ensures
        r matches Ok(pair) ==> spec_list(s@, i as int) == (ListStep::Done {
            kids: subtree_views(pair.0@, 0),
            next: pair.1 as int,
        }) && i < pair.1 <= s@.len(),
        r matches Err(err) ==> spec_list(s@, i as int) == (ListStep::Fail {
            kind: err.0,
            at: err.1 as int,
        }) && err.1 <= s@.len(),
    decreases s@.len() - i, 1int,
{
    match parse_expr(s, i) {
        Err(err) => Err(err),
        Ok((t, next)) => {
            match parse_list(s, next) {
                Ok((rest, fin)) => {
                    let ghost rv = rest@;
                    let mut kids = rest;
                    kids.insert(0, t);
                    proof {
                        lemma_subtree_views(kids@, 0);
                        lemma_subtree_views(rv, 0);
                        assert(subtree_views(kids@, 0) =~= seq![tree_view(t)] + subtree_views(
                            rv,
                            0,
                        ));
                    }
                    Ok((kids, fin))
                },
                Err(_) => {
                    let mut kids = Vec::new();
                    kids.push(t);
                    proof {
                        lemma_subtree_views(kids@, 0);
                        assert(subtree_views(kids@, 0) =~= seq![tree_view(t)]);
                    }
                    Ok((kids, next))
                },
            }
        },
    }
}

/// A parse failure: the remaining unconsumed input and its classification.
#[derive(Debug, PartialEq, Eq)]
pub struct ParseError {
    pub input: String,
    pub kind: ParseErrorKind,
}

/// The bracket parser.
pub struct PTBParser;

impl PTBParser {
    /// Parses one line of bracketed text into a tree.
    ///
    /// The tree returned is exactly what `spec_expr` reads off the first
    /// well-formed expression of the line; content after that expression
    /// is ignored. An empty line, unbalanced parentheses before the first
    /// expression is complete, or a missing token all yield a `ParseError`
    /// carrying the remaining input and a classification.
    pub fn parse(s: &str) -> (r: Result<ParseTree, ParseError>)
        ensures
            r matches Ok(tree) ==> (spec_expr(s@, 0) matches ExprStep::Done { tree: tv, .. }
                && tv == tree@ && wf_tree(tree@)),
            r matches Err(err) ==> (spec_expr(s@, 0) matches ExprStep::Fail { kind, at }
                && err.kind == kind && err.input@ == s@.subrange(at, s@.len() as int)),
            s@.len() == 0 ==> r is Err,
    {
        proof {
            lemma_expr_bounds(s@, 0);
        }
        match parse_expr(s, 0) {
            Ok((tree, _next)) => Ok(tree),
            Err((kind, at)) => {
                let rest = s.substring_char(at, s.unicode_len()).to_owned();
                Err(ParseError { input: rest, kind })
            },
        }
    }
}

impl ParseTree {
    /// Renders the tree in canonical bracketed form: `(label body)` with
    /// single spaces between tokens.
    pub fn print(&self) -> (r: String)
        ensures
            r@ == tree_text(self@),
    {
        let mut out = String::new();
        self.print_into(&mut out);
        out
    }

    #[verifier::loop_isolation(false)]
    fn print_into(&self, out: &mut String)
        ensures
            final(out)@ == old(out)@ + tree_text(tree_view(*self)),
        decreases *self,
    {
        proof {
            reveal_strlit("(");
            reveal_strlit(" ");
            reveal_strlit(")");
        }
        let ghost base0 = out@;
        out.append("(");
        out.append(self.root.as_str());
        out.append(" ");
        match &self.descendants {
            Descendants::Atom(word) => {
                out.append(word.as_str());
                out.append(")");
                proof {
                    assert(out@ =~= base0 + tree_text(tree_view(*self)));
                }
            },
            Descendants::Expressions(kids) => {
                let ghost kv = subtree_views(kids@, 0);
                proof {
                    lemma_subtree_views(kids@, 0);
                }
                let ghost base = out@;
                let mut i: usize = 0;
                while i < kids.len()
                    invariant
                        i <= kids.len(),
                        kv == subtree_views(kids@, 0),
                        kv.len() == kids.len(),
                        forall|j: int| 0 <= j < kids.len() ==> kv[j] == tree_view(kids@[j]),
                        out@ + kids_text(kv, i as int) == base + kids_text(kv, 0),
                    decreases kids.len() - i,
                {
                    let ghost pre = out@;
                    proof {
                        assert(*kids == self.descendants->Expressions_0);
                        assert(decreases_to!(*self => self.descendants));
                        assert(decreases_to!(self.descendants => self.descendants->Expressions_0));
                        assert(decreases_to!(*kids => kids@));
                        assert(decreases_to!(kids@ => kids@[i as int]));
                        assert(decreases_to!(*self => kids@[i as int]));
                    }
                    kids[i].print_into(out);
                    if i + 1 < kids.len() {
                        out.append(" ");
                        proof {
                            reveal_strlit(" ");
                            assert(" "@ =~= seq![' ']);
                            assert(out@ + kids_text(kv, i + 1) =~= base + kids_text(kv, 0));
                        }
                    } else {
                        proof {
                            assert(kids_text(kv, i + 1) =~= Seq::<char>::empty());
                            assert(out@ + kids_text(kv, i + 1) =~= base + kids_text(kv, 0));
                        }
                    }
                    i = i + 1;
                }
                out.append(")");
                proof {
                    assert(out@ + kids_text(kv, kids.len() as int) =~= base + kids_text(kv, 0)
                        + ")"@);
                    assert(out@ =~= base0 + tree_text(tree_view(*self)));
                }
            },
        }
    }
}

} // verus!
