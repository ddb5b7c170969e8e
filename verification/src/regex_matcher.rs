//! Matcher: walks the AST against a text using a frontier of live cursor
//! positions.
//!
//! The frontier is a set of indices into the text's character sequence, each
//! one a partial match still alive.  Walking a node turns the frontier into
//! the set of positions reachable after consuming that node, and reports
//! whether at least one position survived.  The executable matcher keeps the
//! frontier as a strictly sorted `Vec<usize>` and is specified against
//! [`adv`], the same walk over a mathematical `Set<int>`.

use vstd::prelude::*;
use crate::regex_lexer::is_digit_char;
use crate::regex_lexer::is_word_char;
use crate::regex_parser::Node;
use crate::regex_parser::NodeView;
use crate::regex_parser::ast_of;
use crate::regex_parser::asts_of;
use crate::regex_parser::lemma_asts_of;

verus! {

/// A recognized-but-not-implemented AST shape was reached at match time
/// (a negated class holding something other than literals).
#[derive(Debug, Clone, Copy, PartialEq, Eq)]
pub enum MatchError {
    UnsupportedConstruct,
}

/// The character test a consuming node performs on the character under a
/// frontier position.
pub enum CharTest {
    /// Exactly this character (a literal).
    IsChar(char),
    /// Any ASCII decimal digit (`\d`).
    IsDigit,
    /// Any ASCII letter, digit or underscore (`\w`).
    IsWord,
    /// Any character at all (`.`).
    Any,
    /// Any character not in the set (a negated class).
    NotIn(Set<char>),
}

/// Whether a character passes a test.
pub open spec fn test_sat(t: CharTest, c: char) -> bool {
    match t {
        CharTest::IsChar(x) => c == x,
        CharTest::IsDigit => is_digit_char(c),
        CharTest::IsWord => is_word_char(c),
        CharTest::Any => true,
        CharTest::NotIn(ex) => !ex.contains(c),
    }
}

/// Position `p` of frontier `f` sits on a character passing `t`.
pub open spec fn steps_on(text: Seq<char>, f: Set<int>, t: CharTest, p: int) -> bool {
    f.contains(p) && 0 <= p < text.len() && test_sat(t, text[p])
}

/// Consuming one accepted character takes position `p` of `f` to `q`.
pub open spec fn steps_to(text: Seq<char>, f: Set<int>, t: CharTest, p: int, q: int) -> bool {
    steps_on(text, f, t, p) && q == p + 1
}

/// Positions reachable from `f` by consuming one character passing `t`.
pub open spec fn step_set(text: Seq<char>, f: Set<int>, t: CharTest) -> Set<int> {
    Set::new(|q: int| exists|p: int| #[trigger] steps_to(text, f, t, p, q))
}

/// At least one position of `f` sits on a character passing `t`.
pub open spec fn step_any(text: Seq<char>, f: Set<int>, t: CharTest) -> bool {
    exists|p: int| #[trigger] steps_on(text, f, t, p)
}

/// Every node of the sequence is a literal.
pub open spec fn all_literals(nodes: Seq<NodeView>) -> bool {
    forall|i: int| 0 <= i < nodes.len() ==> #[trigger] nodes[i] is Literal
}

/// The characters a negated class excludes.
pub open spec fn excluded_chars(nodes: Seq<NodeView>) -> Set<char> {
    Set::new(|c: char| exists|i: int| 0 <= i < nodes.len() && #[trigger] nodes[i] == NodeView::Literal(c))
}

/// `m` is the least element of `f`.
pub open spec fn is_min_of(f: Set<int>, m: int) -> bool {
    f.contains(m) && forall|q: int| #[trigger] f.contains(q) ==> m <= q
}

/// The least element of `f`, or 0 for an empty frontier.
pub open spec fn min_pos(f: Set<int>) -> int {
    if f.is_empty() {
        0
    } else {
        choose|m: int| is_min_of(f, m)
    }
}

/// Walk `n` from frontier `f`: the new frontier and whether at least one
/// position survived.  This is the mathematical meaning of the matcher.
pub open spec fn adv(n: NodeView, text: Seq<char>, f: Set<int>) -> Result<
    (Set<int>, bool),
    MatchError,
>
    decreases n, 0int,
{
    match n {
        NodeView::Literal(c) => Ok(
            (
                step_set(text, f, CharTest::IsChar(c)),
                step_any(text, f, CharTest::IsChar(c)),
            ),
        ),
        NodeView::Digit => Ok(
            (step_set(text, f, CharTest::IsDigit), step_any(text, f, CharTest::IsDigit)),
        ),
        NodeView::Alphanum => Ok(
            (step_set(text, f, CharTest::IsWord), step_any(text, f, CharTest::IsWord)),
        ),
        NodeView::Wildcard => Ok(
            (step_set(text, f, CharTest::Any), step_any(text, f, CharTest::Any)),
        ),
        NodeView::StartAnchor => Ok(
            (
                if f.contains(0) {
                    set![0int]
                } else {
                    Set::<int>::empty()
                },
                f.contains(0),
            ),
        ),
        NodeView::EndAnchor => Ok(
            (
                if f.contains(text.len() as int) {
                    set![text.len() as int]
                } else {
                    Set::<int>::empty()
                },
                f.contains(text.len() as int),
            ),
        ),
        NodeView::Not { nodes } => {
            if all_literals(nodes) {
                Ok(
                    (
                        step_set(text, f, CharTest::NotIn(excluded_chars(nodes))),
                        step_any(text, f, CharTest::NotIn(excluded_chars(nodes))),
                    ),
                )
            } else {
                Err(MatchError::UnsupportedConstruct)
            }
        },
        NodeView::Or { nodes } => adv_alts(nodes, text, f, 0, Set::<int>::empty(), false),
        NodeView::Group { nodes, group_ref: _ } => adv_seq(nodes, text, f, 0),
        NodeView::Quantifier { node, min, max } => {
            let acc0 = if min == 0 {
                f
            } else {
                Set::<int>::empty()
            };
            let lower: nat = if min == 0 {
                1nat
            } else {
                min
            };
            let bound: nat = match max {
                Some(m) => m,
                None => {
                    let rem = text.len() - min_pos(f);
                    if rem >= 0 {
                        (rem + 1) as nat
                    } else {
                        0nat
                    }
                },
            };
            adv_reps(*node, text, f, acc0, min == 0, 0, lower, bound)
        },
    }
}

/// Try each alternative of an `Or` from the same frontier, left to right,
/// uniting the surviving positions of the alternatives that matched.
pub open spec fn adv_alts(
    alts: Seq<NodeView>,
    text: Seq<char>,
    base: Set<int>,
    i: int,
    acc: Set<int>,
    any: bool,
) -> Result<(Set<int>, bool), MatchError>
    decreases alts, alts.len() - i,
{
    if i < 0 || i >= alts.len() {
        Ok((acc, any))
    } else {
        match adv(alts[i], text, base) {
            Err(e) => Err(e),
            Ok((s1, b)) => adv_alts(
                alts,
                text,
                base,
                i + 1,
                if b {
                    acc.union(s1)
                } else {
                    acc
                },
                any || b,
            ),
        }
    }
}

/// Thread one frontier through the children of a `Group`, in order,
/// stopping at the first child that fails.
pub open spec fn adv_seq(children: Seq<NodeView>, text: Seq<char>, f: Set<int>, i: int) -> Result<
    (Set<int>, bool),
    MatchError,
>
    decreases children, children.len() - i,
{
    if i < 0 || i >= children.len() {
        Ok((f, true))
    } else {
        match adv(children[i], text, f) {
            Err(e) => Err(e),
            Ok((s1, b)) => if b {
                adv_seq(children, text, s1, i + 1)
            } else {
                Ok((s1, false))
            },
        }
    }
}

/// Repeat `child` from `cur` until it fails or `remaining` runs out,
/// uniting the frontiers of every repetition count from `lower` on.
/// `nb` counts the repetitions already made, `acc` and `any` carry what
/// they reached.
pub open spec fn adv_reps(
    child: NodeView,
    text: Seq<char>,
    cur: Set<int>,
    acc: Set<int>,
    any: bool,
    nb: nat,
    lower: nat,
    remaining: nat,
) -> Result<(Set<int>, bool), MatchError>
    decreases child, remaining,
{
    if remaining == 0 {
        Ok((acc, any))
    } else {
        match adv(child, text, cur) {
            Err(e) => Err(e),
            Ok((s1, b)) => if !b {
                Ok((acc, any))
            } else if nb + 1 >= lower {
                adv_reps(child, text, s1, acc.union(s1), true, nb + 1, lower, (remaining - 1) as nat)
            } else {
                adv_reps(child, text, s1, acc, any, nb + 1, lower, (remaining - 1) as nat)
            },
        }
    }
}

/// The frontier a whole-pattern match starts from: every offset of the
/// text, including the offset just past its end.
pub open spec fn seed(len: int) -> Set<int> {
    Set::new(|p: int| 0 <= p <= len)
}

/// The verdict of an unanchored search of `n` in `text`.
pub open spec fn sp_is_match(n: NodeView, text: Seq<char>) -> Result<bool, MatchError> {
    match adv(n, text, seed(text.len() as int)) {
        Ok((s, b)) => Ok(b),
        Err(e) => Err(e),
    }
}

/// The positions of a frontier vector, as a set.
pub open spec fn pos_set(s: Seq<usize>) -> Set<int> {
    Set::new(|q: int| exists|i: int| 0 <= i < s.len() && (#[trigger] s[i]) as int == q)
}

/// The frontier vector is strictly increasing (so each position occurs once).
pub open spec fn strictly_sorted(s: Seq<usize>) -> bool {
    forall|i: int, j: int| 0 <= i < j < s.len() ==> s[i] < s[j]
}

/// Appending a position inserts it into the position set.
pub proof fn lemma_pos_set_push(s: Seq<usize>, v: usize)
    ensures
        pos_set(s.push(v)) =~= pos_set(s).insert(v as int),
{
    assert forall|q: int| pos_set(s.push(v)).contains(q) implies pos_set(s).insert(
        v as int,
    ).contains(q) by {
        let i = choose|i: int| 0 <= i < s.push(v).len() && (#[trigger] s.push(v)[i]) as int == q;
        if i < s.len() {
            assert(s[i] as int == q);
        }
    }
    assert forall|q: int| pos_set(s).insert(v as int).contains(q) implies pos_set(
        s.push(v),
    ).contains(q) by {
        if q == v as int {
            assert(s.push(v)[s.len() as int] as int == q);
        } else {
            let i = choose|i: int| 0 <= i < s.len() && (#[trigger] s[i]) as int == q;
            assert(s.push(v)[i] as int == q);
        }
    }
}

/// A node's view is a literal exactly when the node is one.
pub proof fn lemma_ast_literal(n: Node)
    ensures
        (ast_of(n) is Literal) <==> (n is Literal),
        n is Literal ==> ast_of(n) == NodeView::Literal(n->Literal_0),
{
    match n {
        Node::Or { nodes } => {},
        Node::Not { nodes } => {},
        Node::Literal(c) => {},
        Node::Digit => {},
        Node::Alphanum => {},
        Node::Wildcard => {},
        Node::StartAnchor => {},
        Node::EndAnchor => {},
        Node::Group { nodes, group_ref } => {},
        Node::Quantifier { node, min, max } => {},
    }
}

/// A character class test, one for each consuming node shape.
enum CharClass {
    /// Exactly this character.
    Is(char),
    /// Any ASCII decimal digit.
    AnyDigit,
    /// Any ASCII letter, digit or underscore.
    AnyWord,
    /// Any character at all.
    AnyChar,
    /// Any character not among these.
    NoneOf(Vec<char>),
}

/// The test a class performs, as the specification sees it.
spec fn class_view(cls: CharClass) -> CharTest {
    match cls {
        CharClass::Is(x) => CharTest::IsChar(x),
        CharClass::AnyDigit => CharTest::IsDigit,
        CharClass::AnyWord => CharTest::IsWord,
        CharClass::AnyChar => CharTest::Any,
        CharClass::NoneOf(v) => CharTest::NotIn(Set::new(|c: char| v@.contains(c))),
    }
}

/// Whether `c` belongs to the class.
fn char_in_class(cls: &CharClass, c: char) -> (r: bool)
    ensures
        r == test_sat(class_view(*cls), c),
{
    match cls {
        CharClass::Is(x) => *x == c,
        CharClass::AnyDigit => {
            let u = c as u32;
            48 <= u && u <= 57
        },
        CharClass::AnyWord => {
            let u = c as u32;
            (48 <= u && u <= 57) || (65 <= u && u <= 90) || (97 <= u && u <= 122) || c == '_'
        },
        CharClass::AnyChar => true,
        CharClass::NoneOf(v) => {
            let mut k: usize = 0;
            let mut found = false;
            while k < v.len()
                invariant
                    0 <= k <= v@.len(),
                    found == exists|t: int| 0 <= t < k && v@[t] == c,
                decreases v@.len() - k,
            {
                if v[k] == c {
                    found = true;
                }
                k = k + 1;
            }
            !found
        },
    }
}




/// An exact copy of a frontier vector.
fn copy_positions(v: &Vec<usize>) -> (r: Vec<usize>)
    ensures
        r@ == v@,
{
    let mut r: Vec<usize> = Vec::new();
    let mut k: usize = 0;
    while k < v.len()
        invariant
            0 <= k <= v@.len(),
            r@ == v@.subrange(0, k as int),
        decreases v@.len() - k,
    {
        r.push(v[k]);
        k = k + 1;
        proof {
            assert(r@ =~= v@.subrange(0, k as int));
        }
    }
    proof {
        assert(r@ =~= v@);
    }
    r
}

/// The union of two strictly sorted frontier vectors, strictly sorted.
fn union_sorted(a: &Vec<usize>, b: &Vec<usize>) -> (r: Vec<usize>)
    requires
        strictly_sorted(a@),
        strictly_sorted(b@),
    ensures
        strictly_sorted(r@),
        pos_set(r@) == pos_set(a@).union(pos_set(b@)),
{
    let mut r: Vec<usize> = Vec::new();
    let mut i: usize = 0;
    let mut j: usize = 0;
    while i < a.len() || j < b.len()
        invariant
            0 <= i <= a@.len(),
            0 <= j <= b@.len(),
            strictly_sorted(a@),
            strictly_sorted(b@),
            strictly_sorted(r@),
            forall|q: int|
                #[trigger] pos_set(r@).contains(q) <==> (pos_set(
                    a@.subrange(0, i as int),
                ).contains(q) || pos_set(b@.subrange(0, j as int)).contains(q)),
            r@.len() > 0 && i < a@.len() ==> r@[r@.len() - 1] < a@[i as int],
            r@.len() > 0 && j < b@.len() ==> r@[r@.len() - 1] < b@[j as int],
        decreases a@.len() - i + b@.len() - j,
    {
        let ghost r_old = r@;
        let ghost i_old = i as int;
        let ghost j_old = j as int;
        if i < a.len() && (j >= b.len() || a[i] <= b[j]) {
            let v = a[i];
            let both = j < b.len() && b[j] == v;
            r.push(v);
            i = i + 1;
            if both {
                j = j + 1;
            }
            proof {
                lemma_pos_set_push(r_old, v);
                assert(a@.subrange(0, i as int) =~= a@.subrange(0, i_old).push(a@[i_old]));
                lemma_pos_set_push(a@.subrange(0, i_old), a@[i_old]);
                if both {
                    assert(b@.subrange(0, j as int) =~= b@.subrange(0, j_old).push(b@[j_old]));
                    lemma_pos_set_push(b@.subrange(0, j_old), b@[j_old]);
                }
            }
        } else {
            let v = b[j];
            r.push(v);
            j = j + 1;
            proof {
                lemma_pos_set_push(r_old, v);
                assert(b@.subrange(0, j as int) =~= b@.subrange(0, j_old).push(b@[j_old]));
                lemma_pos_set_push(b@.subrange(0, j_old), b@[j_old]);
            }
        }
    }
    proof {
        assert(a@.subrange(0, a@.len() as int) =~= a@);
        assert(b@.subrange(0, b@.len() as int) =~= b@);
        assert(pos_set(r@) =~= pos_set(a@).union(pos_set(b@)));
    }
    r
}

/// Tries to match an input text against a compiled pattern, walking the
/// whole AST and keeping a frontier of candidate cursor positions.
#[derive(Debug, Clone)]
pub struct Matcher {
    positions: Vec<usize>,
}

impl View for Matcher {
    type V = Set<int>;

    /// The frontier, as a set of positions into the text.
    closed spec fn view(&self) -> Set<int> {
        pos_set(self.positions@)
    }
}

impl Matcher {
    /// The frontier is strictly sorted and stays within a text of `len`
    /// characters (a position equal to `len` is a thread that has consumed
    /// the whole remaining input).
    pub closed spec fn wf(&self, len: int) -> bool {
        &&& strictly_sorted(self.positions@)
        &&& forall|q: int| #[trigger] self@.contains(q) ==> 0 <= q <= len
    }

    /// A new matcher tries to match starting at every offset of the text,
    /// the offset just past its end included: an unanchored search.
    pub fn new(len_char: usize) -> (r: Self)
        requires
            len_char < usize::MAX,
        ensures
            r.wf(len_char as int),
            r@ == seed(len_char as int),
    {
        let mut positions: Vec<usize> = Vec::new();
        let mut pos: usize = 0;
        while pos <= len_char
            invariant
                len_char < usize::MAX,
                0 <= pos <= len_char + 1,
                positions@.len() == pos,
                forall|i: int| 0 <= i < pos ==> (#[trigger] positions@[i]) as int == i,
            decreases len_char + 1 - pos,
        {
            positions.push(pos);
            pos = pos + 1;
        }
        let r = Matcher { positions };
        proof {
            assert forall|q: int| r@.contains(q) implies 0 <= q <= len_char by {}
            assert forall|q: int| seed(len_char as int).contains(q) implies r@.contains(q) by {
                assert(r.positions@[q] as int == q);
            }
            assert(r@ =~= seed(len_char as int));
        }
        r
    }

    /// Advance every frontier position sitting on a character the class
    /// accepts; report whether any did.
    fn step_class(&mut self, chars: &[char], cls: &CharClass) -> (r: bool)
        requires
            strictly_sorted(old(self).positions@),
        ensures
            strictly_sorted(final(self).positions@),
            final(self)@ == step_set(chars@, old(self)@, class_view(*cls)),
            r == step_any(chars@, old(self)@, class_view(*cls)),
            forall|q: int| #[trigger] final(self)@.contains(q) ==> 1 <= q <= chars@.len(),
    {
        let ghost a = self.positions@;
        let ghost text = chars@;
        let ghost test = class_view(*cls);
        let mut out: Vec<usize> = Vec::new();
        let mut any = false;
        let mut idx: usize = 0;
        while idx < self.positions.len()
            invariant
                self == old(self),
                strictly_sorted(a),
                a == self.positions@,
                text == chars@,
                test == class_view(*cls),
                0 <= idx <= a.len(),
                strictly_sorted(out@),
                out@.len() > 0 && idx < a.len() ==> out@[out@.len() - 1] < a[idx as int] + 1,
                pos_set(out@) == step_set(text, pos_set(a.subrange(0, idx as int)), test),
                any == step_any(text, pos_set(a.subrange(0, idx as int)), test),
                forall|q: int| #[trigger] pos_set(out@).contains(q) ==> 1 <= q <= text.len(),
            decreases a.len() - idx,
        {
            let ghost out_old = out@;
            let ghost idx_old = idx as int;
            let ghost prefix_old = pos_set(a.subrange(0, idx_old));
            let p = self.positions[idx];
            if p < chars.len() {
                let c = chars[p];
                if char_in_class(cls, c) {
                    out.push(p + 1);
                    any = true;
                    proof {
                        lemma_pos_set_push(out_old, (p + 1) as usize);
                    }
                }
            }
            idx = idx + 1;
            proof {
                assert(a.subrange(0, idx as int) =~= a.subrange(0, idx_old).push(a[idx_old]));
                lemma_pos_set_push(a.subrange(0, idx_old), a[idx_old]);
                let prefix_new = pos_set(a.subrange(0, idx as int));
                assert(prefix_new == prefix_old.insert(p as int));
                if p < chars@.len() && test_sat(test, text[p as int]) {
                    assert(out@ == out_old.push((p + 1) as usize));
                    assert forall|q: int| pos_set(out@).contains(q) implies step_set(
                        text,
                        prefix_new,
                        test,
                    ).contains(q) by {
                        if q == p + 1 {
                            assert(steps_to(text, prefix_new, test, p as int, q));
                        } else {
                            assert(pos_set(out_old).contains(q));
                            assert(step_set(text, prefix_old, test).contains(q));
                            let w = choose|w: int| #[trigger] steps_to(text, prefix_old, test, w, q);
                            assert(steps_to(text, prefix_new, test, w, q));
                        }
                    }
                    assert forall|q: int| step_set(text, prefix_new, test).contains(q) implies
                        pos_set(out@).contains(q) by {
                        let w = choose|w: int| #[trigger] steps_to(text, prefix_new, test, w, q);
                        if w == p as int {
                            assert(pos_set(out@).contains(p + 1));
                        } else {
                            assert(steps_to(text, prefix_old, test, w, q));
                            assert(step_set(text, prefix_old, test).contains(q));
                            assert(pos_set(out_old).contains(q));
                            assert(pos_set(out@).contains(q));
                        }
                    }
                    assert(pos_set(out@) =~= step_set(text, prefix_new, test));
                    assert(steps_on(text, prefix_new, test, p as int));
                    assert(any == step_any(text, prefix_new, test));
                } else {
                    assert(out@ == out_old);
                    assert forall|q: int| step_set(text, prefix_new, test).contains(q) implies
                        step_set(text, prefix_old, test).contains(q) by {
                        let w = choose|w: int| #[trigger] steps_to(text, prefix_new, test, w, q);
                        assert(w != p as int);
                        assert(steps_to(text, prefix_old, test, w, q));
                    }
                    assert forall|q: int| step_set(text, prefix_old, test).contains(q) implies
                        step_set(text, prefix_new, test).contains(q) by {
                        let w = choose|w: int| #[trigger] steps_to(text, prefix_old, test, w, q);
                        assert(steps_to(text, prefix_new, test, w, q));
                    }
                    assert(pos_set(out@) =~= step_set(text, prefix_new, test));
                    assert(step_any(text, prefix_new, test) == step_any(text, prefix_old, test))
                        by {
                        if step_any(text, prefix_new, test) {
                            let w = choose|w: int| #[trigger] steps_on(text, prefix_new, test, w);
                            assert(w != p as int);
                            assert(steps_on(text, prefix_old, test, w));
                        }
                        if step_any(text, prefix_old, test) {
                            let w = choose|w: int| #[trigger] steps_on(text, prefix_old, test, w);
                            assert(steps_on(text, prefix_new, test, w));
                        }
                    }
                }
            }
        }
        proof {
            assert(a.subrange(0, a.len() as int) =~= a);
        }
        self.positions = out;
        any
    }

    /// Walk `node_to_match` against `chars`: the frontier becomes the set of
    /// positions reachable after consuming the node, and the result says
    /// whether at least one candidate survived.  The behaviour, frontier and
    /// verdict alike, is exactly [`adv`] on the node's view.
    #[verifier::rlimit(50)]
    pub fn matches(&mut self, node_to_match: &Node, chars: &[char]) -> (r: Result<
        bool,
        MatchError,
    >)
        requires
            old(self).wf(chars@.len() as int),
            chars@.len() < usize::MAX,
        ensures
            final(self).wf(chars@.len() as int),
            match adv(ast_of(*node_to_match), chars@, old(self)@) {
                Ok((s1, b)) => r == Ok::<bool, MatchError>(b) && final(self)@ == s1,
                Err(e) => r == Err::<bool, MatchError>(e),
            },
        decreases *node_to_match,
    {
        let ghost text = chars@;
        let ghost len = chars@.len() as int;
        let ghost f0 = self@;
        match node_to_match {
            Node::Literal(c) => {
                let b = self.step_class(chars, &CharClass::Is(*c));
                Ok(b)
            },
            Node::Digit => {
                let b = self.step_class(chars, &CharClass::AnyDigit);
                Ok(b)
            },
            Node::Alphanum => {
                let b = self.step_class(chars, &CharClass::AnyWord);
                Ok(b)
            },
            Node::Wildcard => {
                let b = self.step_class(chars, &CharClass::AnyChar);
                Ok(b)
            },
            Node::StartAnchor => {
                let has0 = self.positions.len() > 0 && self.positions[0] == 0;
                proof {
                    if f0.contains(0) {
                        let i = choose|i: int|
                            0 <= i < self.positions@.len() && (#[trigger] self.positions@[i])
                                as int == 0;
                        if i > 0 {
                            assert(self.positions@[0] < self.positions@[i]);
                        }
                        assert(has0);
                    }
                    if has0 {
                        assert(self.positions@[0] as int == 0);
                        assert(f0.contains(0));
                    }
                }
                if has0 {
                    let mut v: Vec<usize> = Vec::new();
                    v.push(0);
                    self.positions = v;
                    proof {
                        assert(self.positions@[0] as int == 0);
                        assert(self@ =~= set![0int]);
                    }
                } else {
                    self.positions = Vec::new();
                    proof {
                        assert(self@ =~= Set::<int>::empty());
                    }
                }
                Ok(has0)
            },
            Node::EndAnchor => {
                let n = self.positions.len();
                let hasl = n > 0 && self.positions[n - 1] == chars.len();
                proof {
                    if f0.contains(len) {
                        let i = choose|i: int|
                            0 <= i < self.positions@.len() && (#[trigger] self.positions@[i])
                                as int == len;
                        if i < n - 1 {
                            assert(self.positions@[i] < self.positions@[n - 1]);
                            assert(f0.contains(self.positions@[n - 1] as int));
                        }
                        assert(hasl);
                    }
                    if hasl {
                        assert(self.positions@[n - 1] as int == len);
                        assert(f0.contains(len));
                    }
                }
                if hasl {
                    let mut v: Vec<usize> = Vec::new();
                    v.push(chars.len());
                    self.positions = v;
                    proof {
                        assert(self.positions@[0] as int == len);
                        assert(self@ =~= set![len]);
                    }
                } else {
                    self.positions = Vec::new();
                    proof {
                        assert(self@ =~= Set::<int>::empty());
                    }
                }
                Ok(hasl)
            },
            Node::Not { nodes } => {
                let ghost views = asts_of(nodes@);
                proof {
                    lemma_asts_of(nodes@);
                }
                let mut excluded: Vec<char> = Vec::new();
                let mut k: usize = 0;
                while k < nodes.len()
                    invariant
                        self == old(self),
                        old(self).wf(chars@.len() as int),
                        ast_of(*node_to_match) == (NodeView::Not { nodes: views }),
                        views == asts_of(nodes@),
                        views.len() == nodes@.len(),
                        forall|t: int|
                            0 <= t < nodes@.len() ==> #[trigger] views[t] == ast_of(nodes@[t]),
                        0 <= k <= nodes@.len(),
                        excluded@.len() == k,
                        forall|t: int|
                            0 <= t < k ==> (#[trigger] nodes@[t]) is Literal && excluded@[t]
                                == nodes@[t]->Literal_0,
                    decreases nodes@.len() - k,
                {
                    match &nodes[k] {
                        Node::Literal(x) => {
                            excluded.push(*x);
                        },
                        _ => {
                            proof {
                                lemma_ast_literal(nodes@[k as int]);
                                assert(!(views[k as int] is Literal));
                                assert(!all_literals(views));
                            }
                            return Err(MatchError::UnsupportedConstruct);
                        },
                    }
                    k = k + 1;
                }
                proof {
                    assert forall|t: int| 0 <= t < views.len() implies (#[trigger] views[t])
                        is Literal by {
                        lemma_ast_literal(nodes@[t]);
                    }
                    assert(all_literals(views));
                    assert forall|c: char| excluded_chars(views).contains(c) implies
                        excluded@.contains(c) by {
                        let i = choose|i: int|
                            0 <= i < views.len() && #[trigger] views[i] == NodeView::Literal(c);
                        lemma_ast_literal(nodes@[i]);
                        assert(excluded@[i] == c);
                    }
                    assert forall|c: char| excluded@.contains(c) implies excluded_chars(
                        views,
                    ).contains(c) by {
                        let i = choose|i: int| 0 <= i < excluded@.len() && excluded@[i] == c;
                        lemma_ast_literal(nodes@[i]);
                        assert(views[i] == NodeView::Literal(c));
                    }
                    assert(Set::new(|c: char| excluded@.contains(c)) =~= excluded_chars(views));
                }
                let b = self.step_class(chars, &CharClass::NoneOf(excluded));
                Ok(b)
            },
            Node::Or { nodes } => {
                let ghost views = asts_of(nodes@);
                proof {
                    lemma_asts_of(nodes@);
                }
                let mut acc: Vec<usize> = Vec::new();
                proof {
                    assert(pos_set(acc@) =~= Set::<int>::empty());
                }
                let mut any = false;
                let mut k: usize = 0;
                while k < nodes.len()
                    invariant
                        self == old(self),
                        old(self).wf(chars@.len() as int),
                        chars@.len() < usize::MAX,
                        text == chars@,
                        len == chars@.len() as int,
                        f0 == self@,
                        node_to_match is Or,
                        node_to_match->Or_nodes@ == nodes@,
                        adv(ast_of(*node_to_match), text, f0) == adv_alts(
                            views,
                            text,
                            f0,
                            0,
                            Set::<int>::empty(),
                            false,
                        ),
                        views == asts_of(nodes@),
                        views.len() == nodes@.len(),
                        forall|t: int|
                            0 <= t < nodes@.len() ==> #[trigger] views[t] == ast_of(nodes@[t]),
                        0 <= k <= nodes@.len(),
                        strictly_sorted(acc@),
                        forall|q: int| #[trigger] pos_set(acc@).contains(q) ==> 0 <= q <= len,
                        adv_alts(views, text, f0, k as int, pos_set(acc@), any) == adv_alts(
                            views,
                            text,
                            f0,
                            0,
                            Set::<int>::empty(),
                            false,
                        ),
                    decreases nodes@.len() - k,
                {
                    let ghost acc_old = pos_set(acc@);
                    let ghost any_old = any;
                    let mut m = Matcher { positions: copy_positions(&self.positions) };
                    proof {
                        assert(m@ == f0);
                        assert(m.wf(len));
                        let vecn = node_to_match->Or_nodes;
                        assert(decreases_to!(*node_to_match => vecn));
                        assert(decreases_to!(vecn => vecn@));
                        assert(decreases_to!(vecn@ => vecn@[k as int]));
                        assert(vecn@[k as int] == nodes@[k as int]);
                        assert(decreases_to!(*node_to_match => nodes@[k as int]));
                    }
                    let b = match m.matches(&nodes[k], chars) {
                        Ok(b) => b,
                        Err(e) => {
                            return Err(e);
                        },
                    };
                    if b {
                        let merged = union_sorted(&acc, &m.positions);
                        acc = merged;
                        any = true;
                    }
                    proof {
                        if b {
                            assert(pos_set(acc@) == acc_old.union(m@));
                        }
                    }
                    k = k + 1;
                }
                self.positions = acc;
                Ok(any)
            },
            Node::Group { nodes, group_ref: _ } => {
                let ghost views = asts_of(nodes@);
                proof {
                    lemma_asts_of(nodes@);
                }
                let mut k: usize = 0;
                while k < nodes.len()
                    invariant
                        chars@.len() < usize::MAX,
                        text == chars@,
                        len == chars@.len() as int,
                        f0 == old(self)@,
                        node_to_match is Group,
                        node_to_match->Group_nodes@ == nodes@,
                        adv(ast_of(*node_to_match), text, f0) == adv_seq(views, text, f0, 0),
                        views == asts_of(nodes@),
                        views.len() == nodes@.len(),
                        forall|t: int|
                            0 <= t < nodes@.len() ==> #[trigger] views[t] == ast_of(nodes@[t]),
                        0 <= k <= nodes@.len(),
                        self.wf(len),
                        adv_seq(views, text, self@, k as int) == adv_seq(views, text, f0, 0),
                    decreases nodes@.len() - k,
                {
                    let ghost fcur = self@;
                    proof {
                        let vecn = node_to_match->Group_nodes;
                        assert(decreases_to!(*node_to_match => vecn));
                        assert(decreases_to!(vecn => vecn@));
                        assert(decreases_to!(vecn@ => vecn@[k as int]));
                        assert(vecn@[k as int] == nodes@[k as int]);
                        assert(decreases_to!(*node_to_match => nodes@[k as int]));
                    }
                    let b = match self.matches(&nodes[k], chars) {
                        Ok(b) => b,
                        Err(e) => {
                            return Err(e);
                        },
                    };
                    if !b {
                        return Ok(false);
                    }
                    k = k + 1;
                }
                Ok(true)
            },
            Node::Quantifier { node, min, max } => {
                let ghost childv = ast_of(**node);
                let ghost lower_s: nat = if *min == 0 {
                    1nat
                } else {
                    *min as nat
                };
                let mut acc: Vec<usize>;
                let mut any: bool;
                let mut lower: usize = *min;
                if *min == 0 {
                    acc = copy_positions(&self.positions);
                    any = true;
                    lower = 1;
                } else {
                    acc = Vec::new();
                    any = false;
                }
                let ghost acc0s = pos_set(acc@);
                let has_cap: bool;
                let cap: usize;
                match max {
                    Some(mx) => {
                        has_cap = true;
                        cap = *mx;
                    },
                    None => {
                        has_cap = false;
                        if self.positions.len() > 0 {
                            let first = self.positions[0];
                            proof {
                                assert(f0.contains(first as int));
                            }
                            cap = chars.len() - first;
                        } else {
                            cap = chars.len();
                        }
                    },
                }
                let ghost bound0: nat = if has_cap {
                    cap as nat
                } else {
                    (cap + 1) as nat
                };
                proof {
                    if !has_cap {
                        if self.positions@.len() > 0 {
                            let first = self.positions@[0];
                            assert(is_min_of(f0, first as int)) by {
                                assert forall|q: int| f0.contains(q) implies first as int <= q by {
                                    let i = choose|i: int|
                                        0 <= i < self.positions@.len() && (
                                        #[trigger] self.positions@[i]) as int == q;
                                    if i > 0 {
                                        assert(self.positions@[0] < self.positions@[i]);
                                    }
                                }
                            }
                            assert(!f0.is_empty());
                            let m0 = min_pos(f0);
                            assert(is_min_of(f0, m0));
                            assert(m0 == first as int);
                        } else {
                            assert(f0.is_empty()) by {
                                if !f0.is_empty() {
                                    let q = choose|q: int| f0.contains(q);
                                    assert(f0.contains(q));
                                }
                            }
                            assert(min_pos(f0) == 0);
                        }
                        assert(bound0 == (text.len() - min_pos(f0) + 1) as nat);
                    }
                }
                let ghost target = adv_reps(
                    childv,
                    text,
                    f0,
                    acc0s,
                    *min == 0,
                    0nat,
                    lower_s,
                    bound0,
                );
                proof {
                    if *min == 0 {
                        assert(acc0s == f0);
                    } else {
                        assert(acc0s =~= Set::<int>::empty());
                    }
                    assert(adv(ast_of(*node_to_match), text, f0) == target);
                }
                let mut nb: usize = 0;
                let mut m = Matcher { positions: copy_positions(&self.positions) };
                proof {
                    assert(m@ == f0);
                    assert(m.wf(len));
                }
                loop
                    invariant_except_break
                        adv_reps(
                            childv,
                            text,
                            m@,
                            pos_set(acc@),
                            any,
                            nb as nat,
                            lower_s,
                            (bound0 - nb) as nat,
                        ) == target,
                    invariant
                        chars@.len() < usize::MAX,
                        text == chars@,
                        len == chars@.len() as int,
                        self == old(self),
                        old(self).wf(chars@.len() as int),
                        f0 == old(self)@,
                        node_to_match is Quantifier,
                        node_to_match->Quantifier_node == *node,
                        adv(ast_of(*node_to_match), text, f0) == target,
                        childv == ast_of(**node),
                        m.wf(len),
                        strictly_sorted(acc@),
                        forall|q: int| #[trigger] pos_set(acc@).contains(q) ==> 0 <= q <= len,
                        lower as nat == lower_s,
                        (if has_cap {
                            cap as nat
                        } else {
                            (cap + 1) as nat
                        }) == bound0,
                        cap <= usize::MAX - 1 || has_cap,
                        nb as nat <= bound0,
                    ensures
                        strictly_sorted(acc@),
                        forall|q: int| #[trigger] pos_set(acc@).contains(q) ==> 0 <= q <= len,
                        Ok::<(Set<int>, bool), MatchError>((pos_set(acc@), any)) == target,
                    decreases bound0 - nb,
                {
                    let cont = if has_cap {
                        nb < cap
                    } else {
                        nb <= cap
                    };
                    proof {
                        assert(cont <==> (nb as nat) < bound0);
                    }
                    if !cont {
                        proof {
                            assert((bound0 - nb) as nat == 0nat);
                            assert(Ok::<(Set<int>, bool), MatchError>((pos_set(acc@), any))
                                == target);
                        }
                        break ;
                    }
                    let ghost m_old = m@;
                    let ghost acc_old = pos_set(acc@);
                    let ghost any_old = any;
                    proof {
                        assert(decreases_to!(*node_to_match => node_to_match->Quantifier_node));
                    }
                    let b = match m.matches(node, chars) {
                        Ok(b) => b,
                        Err(e) => {
                            proof {
                                assert((bound0 - nb) as nat >= 1);
                            }
                            return Err(e);
                        },
                    };
                    if b {
                        nb = nb + 1;
                        if nb >= lower {
                            any = true;
                            let merged = union_sorted(&acc, &m.positions);
                            acc = merged;
                        }
                    } else {
                        proof {
                            assert(adv(childv, text, m_old) == Ok::<(Set<int>, bool), MatchError>(
                                (m@, false),
                            ));
                            assert(Ok::<(Set<int>, bool), MatchError>((pos_set(acc@), any))
                                == target);
                        }
                        break ;
                    }
                }
                self.positions = acc;
                Ok(any)
            },
        }
    }
}

} // verus!
