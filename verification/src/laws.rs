//! Laws of the engine, stated and proved once for every input.

use vstd::prelude::*;
use crate::compile_post;
use crate::regex_matcher::CharTest;
use crate::regex_matcher::MatchError;
use crate::regex_matcher::adv;
use crate::regex_matcher::adv_seq;
use crate::regex_matcher::all_literals;
use crate::regex_matcher::excluded_chars;
use crate::regex_matcher::seed;
use crate::regex_matcher::sp_is_match;
use crate::regex_matcher::step_any;
use crate::regex_matcher::steps_on;
use crate::regex_parser::CompileError;
use crate::regex_parser::Node;
use crate::regex_parser::NodeView;
use crate::regex_parser::ast_of;
use crate::regex_lexer::RegexToken;
use crate::regex_lexer::spec_token_at;
use crate::regex_parser::cl;
use crate::regex_parser::lemma_tok_next;
use crate::regex_parser::opt_nat;
use crate::regex_parser::sp_advance;
use crate::regex_parser::sp_bracket;
use crate::regex_parser::sp_bracket_items;
use crate::regex_parser::sp_build;
use crate::regex_parser::sp_compile;
use crate::regex_parser::sp_step;

verus! {

/// Compiling the same pattern twice yields structurally equal results: the
/// same error, or ASTs with the same deep view.
pub proof fn lemma_compile_deterministic(
    s: Seq<char>,
    r1: Result<Node, CompileError>,
    r2: Result<Node, CompileError>,
)
    requires
        compile_post(s, r1),
        compile_post(s, r2),
    ensures
        r1 is Ok <==> r2 is Ok,
        r1 is Ok ==> ast_of(r1->Ok_0) == ast_of(r2->Ok_0),
        r1 is Err ==> r1 == r2,
{
}

/// Matching the same tree against the same text twice yields the same
/// verdict.
pub proof fn lemma_match_deterministic(
    n: NodeView,
    text: Seq<char>,
    r1: Result<bool, MatchError>,
    r2: Result<bool, MatchError>,
)
    requires
        r1 == sp_is_match(n, text),
        r2 == sp_is_match(n, text),
    ensures
        r1 == r2,
{
}

/// A start-anchored pattern matches exactly as the rest of the pattern does
/// from offset 0 alone: the anchor collapses the unanchored frontier,
/// discarding every other candidate start.
pub proof fn lemma_start_anchor(children: Seq<NodeView>, gr: int, text: Seq<char>)
    requires
        children.len() > 0,
        children[0] is StartAnchor,
    ensures
        adv(NodeView::Group { nodes: children, group_ref: gr }, text, seed(text.len() as int))
            == adv_seq(children, text, set![0int], 1),
{
    let sd = seed(text.len() as int);
    assert(sd.contains(0));
    assert(adv(children[0], text, sd) == Ok::<(Set<int>, bool), MatchError>((set![0int], true)));
}

/// A negated class matches exactly when some character of the text is none
/// of the listed literals.
pub proof fn lemma_negated_class(lits: Seq<NodeView>, gr: int, text: Seq<char>)
    requires
        all_literals(lits),
    ensures
        sp_is_match(
            NodeView::Group { nodes: seq![NodeView::Not { nodes: lits }], group_ref: gr },
            text,
        ) == Ok::<bool, MatchError>(
            exists|p: int|
                0 <= p < text.len() && !excluded_chars(lits).contains(#[trigger] text[p]),
        ),
{
    let sd = seed(text.len() as int);
    let t = CharTest::NotIn(excluded_chars(lits));
    let children = seq![NodeView::Not { nodes: lits }];
    assert(children[0] == (NodeView::Not { nodes: lits }));
    let b = step_any(text, sd, t);
    if b {
        let p = choose|p: int| #[trigger] steps_on(text, sd, t, p);
        assert(0 <= p < text.len() && !excluded_chars(lits).contains(text[p]));
    }
    if exists|p: int| 0 <= p < text.len() && !excluded_chars(lits).contains(#[trigger] text[p]) {
        let p = choose|p: int|
            0 <= p < text.len() && !excluded_chars(lits).contains(#[trigger] text[p]);
        assert(sd.contains(p));
        assert(steps_on(text, sd, t, p));
    }
    assert(b == (exists|p: int|
        0 <= p < text.len() && !excluded_chars(lits).contains(#[trigger] text[p])));
    let s1 = crate::regex_matcher::step_set(text, sd, t);
    assert(adv(children[0], text, sd) == Ok::<(Set<int>, bool), MatchError>((s1, b)));
    assert(children.len() == 1);
    if b {
        assert(adv_seq(children, text, s1, 1) == Ok::<(Set<int>, bool), MatchError>((s1, true)));
    }
    assert(adv_seq(children, text, sd, 0) == Ok::<(Set<int>, bool), MatchError>((s1, b)));
}

/// The node sequence spells the word `w`: one literal per character.
pub open spec fn spells(lits: Seq<NodeView>, w: Seq<char>) -> bool {
    lits.len() == w.len() && (forall|i: int|
        0 <= i < w.len() ==> #[trigger] lits[i] == NodeView::Literal(w[i]))
}

/// The word `w` occurs in `text` beginning at offset `p`.
pub open spec fn occurs_at(text: Seq<char>, w: Seq<char>, p: int) -> bool {
    0 <= p && p + w.len() <= text.len() && (forall|j: int|
        0 <= j < w.len() ==> text[p + j] == #[trigger] w[j])
}

/// The word `w` occurs somewhere in `text`.
pub open spec fn is_substring(text: Seq<char>, w: Seq<char>) -> bool {
    exists|p: int| #[trigger] occurs_at(text, w, p)
}

/// The suffix `w[i..]` occurs in `text` beginning at offset `p`.
pub open spec fn tail_occurs(text: Seq<char>, w: Seq<char>, i: int, p: int) -> bool {
    0 <= p && p + (w.len() - i) <= text.len() && (forall|j: int|
        i <= j < w.len() ==> text[p + (j - i)] == #[trigger] w[j])
}

/// Position `p` of frontier `f` begins a full match of the suffix `w[i..]`.
pub open spec fn chain_hit(text: Seq<char>, w: Seq<char>, i: int, f: Set<int>, p: int) -> bool {
    f.contains(p) && tail_occurs(text, w, i, p)
}

/// Where the frontier ends up after a literal chain consumes `w[i..]`.
pub open spec fn chain_set(text: Seq<char>, w: Seq<char>, i: int, f: Set<int>) -> Set<int> {
    Set::new(
        |q: int|
            exists|p: int| #[trigger] chain_hit(text, w, i, f, p) && q == p + (w.len() - i),
    )
}

/// Some position of `f` begins a full match of the suffix `w[i..]`.
pub open spec fn chain_any(text: Seq<char>, w: Seq<char>, i: int, f: Set<int>) -> bool {
    exists|p: int| #[trigger] chain_hit(text, w, i, f, p)
}

/// Walking a literal chain from frontier `f` succeeds exactly on the
/// positions where the spelled word occurs, and moves each just past it.
pub proof fn lemma_lits_chain(lits: Seq<NodeView>, text: Seq<char>, w: Seq<char>, i: int, f: Set<int>)
    requires
        spells(lits, w),
        0 <= i <= w.len(),
        forall|q: int| #[trigger] f.contains(q) ==> 0 <= q <= text.len(),
    ensures
        adv_seq(lits, text, f, i) == Ok::<(Set<int>, bool), MatchError>(
            (
                chain_set(text, w, i, f),
                if i == w.len() {
                    true
                } else {
                    chain_any(text, w, i, f)
                },
            ),
        ),
    decreases w.len() - i,
{
    if i == w.len() {
        assert forall|q: int| f.contains(q) implies chain_set(text, w, i, f).contains(q) by {
            assert(chain_hit(text, w, i, f, q));
        }
        assert forall|q: int| chain_set(text, w, i, f).contains(q) implies f.contains(q) by {
            let p = choose|p: int| #[trigger] chain_hit(text, w, i, f, p) && q == p + (w.len() - i);
        }
        assert(chain_set(text, w, i, f) =~= f);
    } else {
        let t = CharTest::IsChar(w[i]);
        assert(lits[i] == NodeView::Literal(w[i]));
        let b1 = step_any(text, f, t);
        let f1 = crate::regex_matcher::step_set(text, f, t);
        assert(adv(lits[i], text, f) == Ok::<(Set<int>, bool), MatchError>((f1, b1)));
        if !b1 {
            // no position even matches the first character of the suffix
            assert forall|q: int| !chain_set(text, w, i, f).contains(q) by {
                if chain_set(text, w, i, f).contains(q) {
                    let p = choose|p: int|
                        #[trigger] chain_hit(text, w, i, f, p) && q == p + (w.len() - i);
                    assert(text[p + (i - i)] == w[i]);
                    assert(crate::regex_matcher::steps_on(text, f, t, p));
                }
            }
            assert(!chain_any(text, w, i, f)) by {
                if chain_any(text, w, i, f) {
                    let p = choose|p: int| #[trigger] chain_hit(text, w, i, f, p);
                    assert(text[p + (i - i)] == w[i]);
                    assert(crate::regex_matcher::steps_on(text, f, t, p));
                }
            }
            assert forall|q: int| !f1.contains(q) by {
                if f1.contains(q) {
                    let p = choose|p: int| #[trigger] crate::regex_matcher::steps_to(text, f, t, p, q);
                }
            }
            assert(f1 =~= chain_set(text, w, i, f));
        } else {
            assert forall|q: int| #[trigger] f1.contains(q) implies 0 <= q <= text.len() by {
                let p = choose|p: int| #[trigger] crate::regex_matcher::steps_to(text, f, t, p, q);
            }
            lemma_lits_chain(lits, text, w, i + 1, f1);
            // the frontier after one literal carries exactly the suffix hits
            assert forall|q: int| chain_set(text, w, i + 1, f1).contains(q) implies chain_set(
                text,
                w,
                i,
                f,
            ).contains(q) by {
                let p1 = choose|p1: int|
                    #[trigger] chain_hit(text, w, i + 1, f1, p1) && q == p1 + (w.len() - i - 1);
                let p = choose|p: int| #[trigger] crate::regex_matcher::steps_to(text, f, t, p, p1);
                assert forall|j: int| i <= j < w.len() implies text[p + (j - i)] == #[trigger] w[j] by {
                    if j > i {
                        assert(text[p1 + (j - (i + 1))] == w[j]);
                    }
                }
                assert(chain_hit(text, w, i, f, p));
                assert(q == p + (w.len() - i));
            }
            assert forall|q: int| chain_set(text, w, i, f).contains(q) implies chain_set(
                text,
                w,
                i + 1,
                f1,
            ).contains(q) by {
                let p = choose|p: int|
                    #[trigger] chain_hit(text, w, i, f, p) && q == p + (w.len() - i);
                assert(text[p + (i - i)] == w[i]);
                assert(crate::regex_matcher::steps_to(text, f, t, p, p + 1));
                assert(f1.contains(p + 1));
                assert forall|j: int| i + 1 <= j < w.len() implies text[(p + 1) + (j - (i + 1))]
                    == #[trigger] w[j] by {
                    assert(text[p + (j - i)] == w[j]);
                }
                assert(chain_hit(text, w, i + 1, f1, p + 1));
                assert(q == (p + 1) + (w.len() - (i + 1)));
            }
            assert(chain_set(text, w, i + 1, f1) =~= chain_set(text, w, i, f));
            if i + 1 == w.len() {
                // one character left: a hit at this step is a full suffix hit
                let p0 = choose|p: int| #[trigger] crate::regex_matcher::steps_on(text, f, t, p);
                assert(chain_hit(text, w, i, f, p0));
                assert(chain_any(text, w, i, f));
            } else {
                assert(chain_any(text, w, i + 1, f1) == chain_any(text, w, i, f)) by {
                    if chain_any(text, w, i + 1, f1) {
                        let p1 = choose|p1: int| #[trigger] chain_hit(text, w, i + 1, f1, p1);
                        let p = choose|p: int|
                            #[trigger] crate::regex_matcher::steps_to(text, f, t, p, p1);
                        assert forall|j: int| i <= j < w.len() implies text[p + (j - i)]
                            == #[trigger] w[j] by {
                            if j > i {
                                assert(text[p1 + (j - (i + 1))] == w[j]);
                            }
                        }
                        assert(chain_hit(text, w, i, f, p));
                    }
                    if chain_any(text, w, i, f) {
                        let p = choose|p: int| #[trigger] chain_hit(text, w, i, f, p);
                        assert(text[p + (i - i)] == w[i]);
                        assert(crate::regex_matcher::steps_to(text, f, t, p, p + 1));
                        assert(f1.contains(p + 1));
                        assert forall|j: int| i + 1 <= j < w.len() implies text[(p + 1) + (j - (i
                            + 1))] == #[trigger] w[j] by {
                            assert(text[p + (j - i)] == w[j]);
                        }
                        assert(chain_hit(text, w, i + 1, f1, p + 1));
                    }
                }
            }
        }
    }
}

/// An alternation of two literal words matches exactly when one of the
/// words occurs in the text as a substring.
pub proof fn lemma_alternation_union(
    lu: Seq<NodeView>,
    lv: Seq<NodeView>,
    u: Seq<char>,
    v: Seq<char>,
    gu: int,
    gv: int,
    gr: int,
    text: Seq<char>,
)
    requires
        spells(lu, u),
        spells(lv, v),
    ensures
        sp_is_match(
            NodeView::Group {
                nodes: seq![
                    NodeView::Or {
                        nodes: seq![
                            NodeView::Group { nodes: lu, group_ref: gu },
                            NodeView::Group { nodes: lv, group_ref: gv },
                        ],
                    },
                ],
                group_ref: gr,
            },
            text,
        ) == Ok::<bool, MatchError>(is_substring(text, u) || is_substring(text, v)),
{
    let sd = seed(text.len() as int);
    let alt_u = NodeView::Group { nodes: lu, group_ref: gu };
    let alt_v = NodeView::Group { nodes: lv, group_ref: gv };
    let alts = seq![alt_u, alt_v];
    let orv = NodeView::Or { nodes: alts };
    let children = seq![orv];
    lemma_word_group(lu, u, gu, text);
    lemma_word_group(lv, v, gv, text);
    let su = chain_set(text, u, 0, sd);
    let sv = chain_set(text, v, 0, sd);
    let bu = is_substring(text, u);
    let bv = is_substring(text, v);
    assert(alts[0] == alt_u);
    assert(alts[1] == alt_v);
    let acc1 = if bu {
        Set::<int>::empty().union(su)
    } else {
        Set::<int>::empty()
    };
    let acc2 = if bv {
        acc1.union(sv)
    } else {
        acc1
    };
    assert(crate::regex_matcher::adv_alts(alts, text, sd, 2, acc2, bu || bv) == Ok::<
        (Set<int>, bool),
        MatchError,
    >((acc2, bu || bv)));
    assert(crate::regex_matcher::adv_alts(alts, text, sd, 1, acc1, bu) == Ok::<
        (Set<int>, bool),
        MatchError,
    >((acc2, bu || bv)));
    assert(crate::regex_matcher::adv_alts(alts, text, sd, 0, Set::<int>::empty(), false) == Ok::<
        (Set<int>, bool),
        MatchError,
    >((acc2, bu || bv)));
    assert(adv(orv, text, sd) == Ok::<(Set<int>, bool), MatchError>((acc2, bu || bv)));
    assert(children[0] == orv);
    if bu || bv {
        assert(adv_seq(children, text, acc2, 1) == Ok::<(Set<int>, bool), MatchError>(
            (acc2, true),
        ));
    }
    assert(adv_seq(children, text, sd, 0) == Ok::<(Set<int>, bool), MatchError>(
        (acc2, bu || bv),
    ));
}

/// The frontier `{j, …, k}`: what is left of an unanchored search of a
/// uniform run after `j` characters were consumed everywhere.
pub open spec fn run_frontier(j: int, k: int) -> Set<int> {
    Set::new(|p: int| j <= p <= k)
}

/// One literal step on a uniform run shifts the whole frontier by one, and
/// fails only once every candidate has consumed the run.
pub proof fn lemma_run_step(c: char, text: Seq<char>, k: int, j: int)
    requires
        text.len() == k,
        forall|i: int| 0 <= i < k ==> text[i] == c,
        0 <= j <= k,
    ensures
        j < k ==> adv(NodeView::Literal(c), text, run_frontier(j, k)) == Ok::<
            (Set<int>, bool),
            MatchError,
        >((run_frontier(j + 1, k), true)),
        j == k ==> adv(NodeView::Literal(c), text, run_frontier(j, k)) == Ok::<
            (Set<int>, bool),
            MatchError,
        >((Set::<int>::empty(), false)),
{
    let t = CharTest::IsChar(c);
    let f = run_frontier(j, k);
    if j < k {
        assert(steps_on(text, f, t, j));
        assert forall|q: int| crate::regex_matcher::step_set(text, f, t).contains(q) implies
            run_frontier(j + 1, k).contains(q) by {
            let p = choose|p: int| #[trigger] crate::regex_matcher::steps_to(text, f, t, p, q);
        }
        assert forall|q: int| run_frontier(j + 1, k).contains(q) implies
            crate::regex_matcher::step_set(text, f, t).contains(q) by {
            assert(crate::regex_matcher::steps_to(text, f, t, q - 1, q));
        }
        assert(crate::regex_matcher::step_set(text, f, t) =~= run_frontier(j + 1, k));
    } else {
        assert(!step_any(text, f, t)) by {
            if step_any(text, f, t) {
                let p = choose|p: int| #[trigger] steps_on(text, f, t, p);
            }
        }
        assert forall|q: int| !crate::regex_matcher::step_set(text, f, t).contains(q) by {
            if crate::regex_matcher::step_set(text, f, t).contains(q) {
                let p = choose|p: int| #[trigger] crate::regex_matcher::steps_to(text, f, t, p, q);
            }
        }
        assert(crate::regex_matcher::step_set(text, f, t) =~= Set::<int>::empty());
    }
}

/// Repetitions of a literal over a uniform run: the verdict is owed exactly
/// when the repetitions that fit (`min(k - j, remaining)`) reach `lower`.
pub proof fn lemma_reps_run(
    c: char,
    text: Seq<char>,
    k: int,
    j: int,
    acc: Set<int>,
    any: bool,
    nb: nat,
    lower: nat,
    remaining: nat,
)
    requires
        text.len() == k,
        forall|i: int| 0 <= i < k ==> text[i] == c,
        0 <= j <= k,
    ensures
        ({
            let add = if k - j <= remaining {
                k - j
            } else {
                remaining as int
            };
            crate::regex_matcher::adv_reps(
                NodeView::Literal(c),
                text,
                run_frontier(j, k),
                acc,
                any,
                nb,
                lower,
                remaining,
            ) is Ok && crate::regex_matcher::adv_reps(
                NodeView::Literal(c),
                text,
                run_frontier(j, k),
                acc,
                any,
                nb,
                lower,
                remaining,
            )->Ok_0.1 == (any || (add >= 1 && nb + add >= lower))
        }),
    decreases remaining,
{
    lemma_run_step(c, text, k, j);
    if remaining > 0 && j < k {
        if nb + 1 >= lower {
            lemma_reps_run(
                c,
                text,
                k,
                j + 1,
                acc.union(run_frontier(j + 1, k)),
                true,
                nb + 1,
                lower,
                (remaining - 1) as nat,
            );
        } else {
            lemma_reps_run(c, text, k, j + 1, acc, any, nb + 1, lower, (remaining - 1) as nat);
        }
    }
}

/// Quantifier bounds: over a text that is a run of `k` repetitions of the
/// quantified character, `x{m,n}` matches exactly on runs long enough to
/// reach `m` (an `m` of 0 always matches; an upper bound below `m` never
/// does, so it is excluded).
pub proof fn lemma_quantifier_bounds(
    c: char,
    m: nat,
    mx: Option<nat>,
    gr: int,
    k: nat,
    text: Seq<char>,
)
    requires
        text.len() == k,
        forall|i: int| 0 <= i < k ==> text[i] == c,
        match mx {
            Some(n) => m <= n,
            None => true,
        },
    ensures
        sp_is_match(
            NodeView::Group {
                nodes: seq![
                    NodeView::Quantifier {
                        node: Box::new(NodeView::Literal(c)),
                        min: m,
                        max: mx,
                    },
                ],
                group_ref: gr,
            },
            text,
        ) == Ok::<bool, MatchError>(m == 0 || k >= m),
{
    let sd = seed(k as int);
    assert(sd =~= run_frontier(0, k as int));
    let qv = NodeView::Quantifier { node: Box::new(NodeView::Literal(c)), min: m, max: mx };
    let children = seq![qv];
    assert(children[0] == qv);
    // the effective bound of an unbounded repetition starts from the least
    // candidate, which is offset 0
    assert(crate::regex_matcher::is_min_of(sd, 0)) by {
        assert(sd.contains(0));
    }
    assert(!sd.is_empty()) by {
        assert(sd.contains(0));
    }
    let m0 = crate::regex_matcher::min_pos(sd);
    assert(crate::regex_matcher::is_min_of(sd, m0));
    assert(m0 == 0);
    let lower: nat = if m == 0 {
        1nat
    } else {
        m
    };
    let bound: nat = match mx {
        Some(n) => n,
        None => (k + 1) as nat,
    };
    lemma_reps_run(c, text, k as int, 0, if m == 0 { sd } else { Set::<int>::empty() }, m == 0, 0nat, lower, bound);
    let rr = crate::regex_matcher::adv_reps(
        NodeView::Literal(c),
        text,
        run_frontier(0, k as int),
        if m == 0 {
            sd
        } else {
            Set::<int>::empty()
        },
        m == 0,
        0nat,
        lower,
        bound,
    );
    let b = rr->Ok_0.1;
    assert(adv(qv, text, sd) == Ok::<(Set<int>, bool), MatchError>((rr->Ok_0.0, b)));
    assert(b == (m == 0 || k >= m));
    if b {
        assert(crate::regex_matcher::adv_seq(children, text, rr->Ok_0.0, 1) == Ok::<
            (Set<int>, bool),
            MatchError,
        >((rr->Ok_0.0, true)));
    }
    assert(crate::regex_matcher::adv_seq(children, text, sd, 0) == Ok::<
        (Set<int>, bool),
        MatchError,
    >((rr->Ok_0.0, b)));
}

/// A group spelling one literal word matches from the unanchored frontier
/// exactly when the word occurs in the text.
pub proof fn lemma_word_group(lits: Seq<NodeView>, w: Seq<char>, gw: int, text: Seq<char>)
    requires
        spells(lits, w),
    ensures
        adv(
            NodeView::Group { nodes: lits, group_ref: gw },
            text,
            seed(text.len() as int),
        ) == Ok::<(Set<int>, bool), MatchError>(
            (chain_set(text, w, 0, seed(text.len() as int)), is_substring(text, w)),
        ),
{
    let sd = seed(text.len() as int);
    lemma_lits_chain(lits, text, w, 0, sd);
    assert forall|p: int| #[trigger] tail_occurs(text, w, 0, p) implies occurs_at(text, w, p) by {
        assert forall|j: int| 0 <= j < w.len() implies text[p + j] == #[trigger] w[j] by {
            assert(text[p + (j - 0)] == w[j]);
        }
    }
    assert forall|p: int| #[trigger] occurs_at(text, w, p) implies tail_occurs(text, w, 0, p) by {
        assert forall|j: int| 0 <= j < w.len() implies text[p + (j - 0)] == #[trigger] w[j] by {
            assert(text[p + j] == w[j]);
        }
    }
    if w.len() == 0 {
        assert(occurs_at(text, w, 0));
        assert(is_substring(text, w));
    } else {
        assert(chain_any(text, w, 0, sd) == is_substring(text, w)) by {
            if chain_any(text, w, 0, sd) {
                let p = choose|p: int| #[trigger] chain_hit(text, w, 0, sd, p);
                assert(occurs_at(text, w, p));
            }
            if is_substring(text, w) {
                let p = choose|p: int| #[trigger] occurs_at(text, w, p);
                assert(sd.contains(p));
                assert(chain_hit(text, w, 0, sd, p));
            }
        }
    }
}

/// No node of the tree is a negated class holding a non-literal: the one
/// shape the matcher refuses.
pub open spec fn no_bad_not(n: NodeView) -> bool
    decreases n,
{
    match n {
        NodeView::Not { nodes } => all_literals(nodes),
        NodeView::Or { nodes } => all_good(nodes),
        NodeView::Group { nodes, group_ref } => all_good(nodes),
        NodeView::Quantifier { node, min, max } => no_bad_not(*node),
        _ => true,
    }
}

/// Every node of the sequence is free of refused shapes.
pub open spec fn all_good(nodes: Seq<NodeView>) -> bool
    decreases nodes,
{
    if nodes.len() == 0 {
        true
    } else {
        no_bad_not(nodes[0]) && all_good(nodes.subrange(1, nodes.len() as int))
    }
}

/// `all_good` holds exactly when each node is good.
pub proof fn lemma_all_good(nodes: Seq<NodeView>)
    ensures
        all_good(nodes) <==> (forall|i: int| 0 <= i < nodes.len() ==> no_bad_not(#[trigger] nodes[i])),
    decreases nodes.len(),
{
    if nodes.len() > 0 {
        let rest = nodes.subrange(1, nodes.len() as int);
        lemma_all_good(rest);
        if all_good(nodes) {
            assert forall|i: int| 0 <= i < nodes.len() implies no_bad_not(#[trigger] nodes[i]) by {
                if i > 0 {
                    assert(no_bad_not(rest[i - 1]));
                }
            }
        }
        if forall|i: int| 0 <= i < nodes.len() ==> no_bad_not(#[trigger] nodes[i]) {
            assert forall|i: int| 0 <= i < rest.len() implies no_bad_not(#[trigger] rest[i]) by {
                assert(rest[i] == nodes[i + 1]);
            }
        }
    }
}

/// The frontier lies within the text (the offset just past the end
/// included).
pub open spec fn in_range(f: Set<int>, len: int) -> bool {
    forall|q: int| #[trigger] f.contains(q) ==> 0 <= q <= len
}

/// Walking a well-formed tree never errs, keeps the frontier within the
/// text, empties it on failure, and keeps it inhabited on success.
pub proof fn lemma_basic(n: NodeView, text: Seq<char>, f: Set<int>)
    requires
        no_bad_not(n),
    ensures
        adv(n, text, f) is Ok,
        ({
            let (s, b) = adv(n, text, f)->Ok_0;
            &&& (!b ==> s.is_empty())
            &&& ((b && !f.is_empty()) ==> !s.is_empty())
            &&& (in_range(f, text.len() as int) ==> in_range(s, text.len() as int))
        }),
    decreases n, 0int, 0int,
{
    let len = text.len() as int;
    match n {
        NodeView::Literal(c) => {
            lemma_basic_class(text, f, CharTest::IsChar(c));
        },
        NodeView::Digit => {
            lemma_basic_class(text, f, CharTest::IsDigit);
        },
        NodeView::Alphanum => {
            lemma_basic_class(text, f, CharTest::IsWord);
        },
        NodeView::Wildcard => {
            lemma_basic_class(text, f, CharTest::Any);
        },
        NodeView::StartAnchor => {
            if f.contains(0) {
                assert(!set![0int].is_empty()) by {
                    assert(set![0int].contains(0));
                }
            }
        },
        NodeView::EndAnchor => {
            if f.contains(len) {
                assert(!set![len].is_empty()) by {
                    assert(set![len].contains(len));
                }
                assert(f.contains(len) ==> (in_range(f, len) ==> 0 <= len <= len));
                assert forall|q: int| set![len].contains(q) implies q == len by {}
            }
        },
        NodeView::Not { nodes } => {
            lemma_basic_class(text, f, CharTest::NotIn(excluded_chars(nodes)));
        },
        NodeView::Or { nodes } => {
            lemma_all_good(nodes);
            lemma_basic_alts(nodes, text, f, 0, Set::<int>::empty(), false);
        },
        NodeView::Group { nodes, group_ref } => {
            lemma_all_good(nodes);
            lemma_basic_seq(nodes, text, f, 0);
        },
        NodeView::Quantifier { node, min, max } => {
            let acc0 = if min == 0 {
                f
            } else {
                Set::<int>::empty()
            };
            let lower: nat = if min == 0 {
                1nat
            } else {
                min
            };
            let bound: nat = match max {
                Some(m) => m,
                None => {
                    let rem = text.len() - crate::regex_matcher::min_pos(f);
                    if rem >= 0 {
                        (rem + 1) as nat
                    } else {
                        0nat
                    }
                },
            };
            lemma_basic_reps(*node, text, f, acc0, min == 0, 0nat, lower, bound);
            if min == 0 && !f.is_empty() {
                let q0 = choose|q: int| f.contains(q);
                assert(acc0.contains(q0));
            }
        },
    }
}

/// `lemma_basic` for one consuming step.
pub proof fn lemma_basic_class(text: Seq<char>, f: Set<int>, t: CharTest)
    ensures
        !step_any(text, f, t) ==> crate::regex_matcher::step_set(text, f, t).is_empty(),
        step_any(text, f, t) ==> !crate::regex_matcher::step_set(text, f, t).is_empty(),
        in_range(f, text.len() as int) ==> in_range(
            crate::regex_matcher::step_set(text, f, t),
            text.len() as int,
        ),
{
    let s = crate::regex_matcher::step_set(text, f, t);
    if step_any(text, f, t) {
        let p = choose|p: int| #[trigger] steps_on(text, f, t, p);
        assert(crate::regex_matcher::steps_to(text, f, t, p, p + 1));
        assert(s.contains(p + 1));
    } else {
        assert forall|q: int| !s.contains(q) by {
            if s.contains(q) {
                let p = choose|p: int| #[trigger] crate::regex_matcher::steps_to(text, f, t, p, q);
                assert(steps_on(text, f, t, p));
            }
        }
        assert(s =~= Set::<int>::empty());
    }
    assert forall|q: int| #[trigger] s.contains(q) implies 1 <= q <= text.len() by {
        let p = choose|p: int| #[trigger] crate::regex_matcher::steps_to(text, f, t, p, q);
    }
}

/// `lemma_basic` for the alternatives of an `Or`.
pub proof fn lemma_basic_alts(
    alts: Seq<NodeView>,
    text: Seq<char>,
    base: Set<int>,
    i: int,
    acc: Set<int>,
    any: bool,
)
    requires
        forall|t: int| 0 <= t < alts.len() ==> no_bad_not(#[trigger] alts[t]),
    ensures
        crate::regex_matcher::adv_alts(alts, text, base, i, acc, any) is Ok,
        any ==> crate::regex_matcher::adv_alts(alts, text, base, i, acc, any)->Ok_0.1,
        !crate::regex_matcher::adv_alts(alts, text, base, i, acc, any)->Ok_0.1
            ==> crate::regex_matcher::adv_alts(alts, text, base, i, acc, any)->Ok_0.0 == acc,
        (crate::regex_matcher::adv_alts(alts, text, base, i, acc, any)->Ok_0.1 && !any
            && !base.is_empty()) ==> !crate::regex_matcher::adv_alts(
            alts,
            text,
            base,
            i,
            acc,
            any,
        )->Ok_0.0.is_empty(),
        (in_range(acc, text.len() as int) && in_range(base, text.len() as int)) ==> in_range(
            crate::regex_matcher::adv_alts(alts, text, base, i, acc, any)->Ok_0.0,
            text.len() as int,
        ),
        !acc.is_empty() ==> !crate::regex_matcher::adv_alts(
            alts,
            text,
            base,
            i,
            acc,
            any,
        )->Ok_0.0.is_empty(),
    decreases alts, 0int, alts.len() - i,
{
    if 0 <= i < alts.len() {
        lemma_basic(alts[i], text, base);
        let (s1, b1) = adv(alts[i], text, base)->Ok_0;
        let acc2 = if b1 {
            acc.union(s1)
        } else {
            acc
        };
        proof_range_union(acc, s1, text.len() as int);
        lemma_basic_alts(alts, text, base, i + 1, acc2, any || b1);
        if b1 && !base.is_empty() {
            let q0 = choose|q: int| s1.contains(q);
            assert(acc2.contains(q0));
            assert(!acc2.is_empty());
        }
        if !acc.is_empty() {
            let q0 = choose|q: int| acc.contains(q);
            assert(acc2.contains(q0));
        }
    }
}

/// A union of in-range frontiers is in range.
pub proof fn proof_range_union(a: Set<int>, b: Set<int>, len: int)
    ensures
        (in_range(a, len) && in_range(b, len)) ==> in_range(a.union(b), len),
{
    if in_range(a, len) && in_range(b, len) {
        assert forall|q: int| #[trigger] a.union(b).contains(q) implies 0 <= q <= len by {
            assert(a.contains(q) || b.contains(q));
        }
    }
}

/// `lemma_basic` for the children of a `Group`.
pub proof fn lemma_basic_seq(children: Seq<NodeView>, text: Seq<char>, f: Set<int>, i: int)
    requires
        forall|t: int| 0 <= t < children.len() ==> no_bad_not(#[trigger] children[t]),
    ensures
        adv_seq(children, text, f, i) is Ok,
        ({
            let (s, b) = adv_seq(children, text, f, i)->Ok_0;
            &&& (!b ==> s.is_empty())
            &&& ((b && !f.is_empty()) ==> !s.is_empty())
            &&& (in_range(f, text.len() as int) ==> in_range(s, text.len() as int))
        }),
    decreases children, 0int, children.len() - i,
{
    if 0 <= i < children.len() {
        lemma_basic(children[i], text, f);
        let (s1, b1) = adv(children[i], text, f)->Ok_0;
        if b1 {
            lemma_basic_seq(children, text, s1, i + 1);
        }
    }
}

/// `lemma_basic` for the repetitions of a quantifier: additionally, what
/// was already accumulated is kept.
pub proof fn lemma_basic_reps(
    child: NodeView,
    text: Seq<char>,
    cur: Set<int>,
    acc: Set<int>,
    any: bool,
    nb: nat,
    lower: nat,
    remaining: nat,
)
    requires
        no_bad_not(child),
    ensures
        crate::regex_matcher::adv_reps(child, text, cur, acc, any, nb, lower, remaining) is Ok,
        ({
            let (s, b) = crate::regex_matcher::adv_reps(
                child,
                text,
                cur,
                acc,
                any,
                nb,
                lower,
                remaining,
            )->Ok_0;
            &&& (!b ==> s == acc)
            &&& (any ==> b)
            &&& ((b && !any && !cur.is_empty()) ==> !s.is_empty())
            &&& ((in_range(acc, text.len() as int) && in_range(cur, text.len() as int))
                ==> in_range(s, text.len() as int))
            &&& (!acc.is_empty() ==> !s.is_empty())
            &&& (forall|q: int| #[trigger] acc.contains(q) ==> s.contains(q))
        }),
    decreases child, 0int, remaining,
{
    if remaining > 0 {
        lemma_basic(child, text, cur);
        let (s1, b1) = adv(child, text, cur)->Ok_0;
        if b1 {
            let nb2 = nb + 1;
            if nb2 >= lower {
                proof_range_union(acc, s1, text.len() as int);
                lemma_basic_reps(child, text, s1, acc.union(s1), true, nb2, lower, (remaining - 1) as nat);
                assert forall|q: int| #[trigger] acc.contains(q) implies acc.union(s1).contains(
                    q,
                ) by {}
                if !cur.is_empty() {
                    let q0 = choose|q: int| s1.contains(q);
                    assert(acc.union(s1).contains(q0));
                }
                if !acc.is_empty() {
                    let q0 = choose|q: int| acc.contains(q);
                    assert(acc.union(s1).contains(q0));
                }
            } else {
                lemma_basic_reps(child, text, s1, acc, any, nb2, lower, (remaining - 1) as nat);
            }
        }
    }
}


/// A nonempty frontier of nonnegative positions has a least element, and
/// `min_pos` finds it.
pub proof fn lemma_min_exists(f: Set<int>, q0: int)
    requires
        f.contains(q0),
        forall|q: int| #[trigger] f.contains(q) ==> 0 <= q,
    ensures
        !f.is_empty(),
        crate::regex_matcher::is_min_of(f, crate::regex_matcher::min_pos(f)),
    decreases q0,
{
    assert(!f.is_empty()) by {
        if f.is_empty() {
            assert(!f.contains(q0));
        }
    }
    if crate::regex_matcher::is_min_of(f, q0) {
        assert(crate::regex_matcher::is_min_of(
            f,
            choose|m: int| crate::regex_matcher::is_min_of(f, m),
        ));
    } else {
        let q1 = choose|q: int| #[trigger] f.contains(q) && q < q0;
        lemma_min_exists(f, q1);
    }
}

/// One consuming step is monotone in the frontier.
pub proof fn lemma_mono_class(text: Seq<char>, f: Set<int>, g: Set<int>, t: CharTest)
    requires
        forall|q: int| #[trigger] f.contains(q) ==> g.contains(q),
    ensures
        step_any(text, f, t) ==> step_any(text, g, t),
        forall|q: int|
            #[trigger] crate::regex_matcher::step_set(text, f, t).contains(q)
                ==> crate::regex_matcher::step_set(text, g, t).contains(q),
{
    if step_any(text, f, t) {
        let p = choose|p: int| #[trigger] steps_on(text, f, t, p);
        assert(steps_on(text, g, t, p));
    }
    assert forall|q: int| crate::regex_matcher::step_set(text, f, t).contains(q) implies
        crate::regex_matcher::step_set(text, g, t).contains(q) by {
        let p = choose|p: int| #[trigger] crate::regex_matcher::steps_to(text, f, t, p, q);
        assert(crate::regex_matcher::steps_to(text, g, t, p, q));
    }
}

/// Growing the frontier only grows what a walk reaches: every position the
/// smaller frontier reaches is still reached, and a verdict once true stays
/// true.  (An empty frontier is excluded: the effective bound of an
/// unbounded repetition is computed from the least live position, which an
/// empty frontier does not have.)
pub proof fn lemma_mono(n: NodeView, text: Seq<char>, f: Set<int>, g: Set<int>)
    requires
        no_bad_not(n),
        !f.is_empty(),
        forall|q: int| #[trigger] f.contains(q) ==> g.contains(q),
        in_range(g, text.len() as int),
    ensures
        adv(n, text, f) is Ok,
        adv(n, text, g) is Ok,
        adv(n, text, f)->Ok_0.1 ==> adv(n, text, g)->Ok_0.1,
        forall|q: int|
            #[trigger] adv(n, text, f)->Ok_0.0.contains(q) ==> adv(n, text, g)->Ok_0.0.contains(q),
    decreases n, 0int, 0int,
{
    let len = text.len() as int;
    lemma_basic(n, text, f);
    lemma_basic(n, text, g);
    match n {
        NodeView::Literal(c) => {
            lemma_mono_class(text, f, g, CharTest::IsChar(c));
        },
        NodeView::Digit => {
            lemma_mono_class(text, f, g, CharTest::IsDigit);
        },
        NodeView::Alphanum => {
            lemma_mono_class(text, f, g, CharTest::IsWord);
        },
        NodeView::Wildcard => {
            lemma_mono_class(text, f, g, CharTest::Any);
        },
        NodeView::StartAnchor => {},
        NodeView::EndAnchor => {},
        NodeView::Not { nodes } => {
            lemma_mono_class(text, f, g, CharTest::NotIn(excluded_chars(nodes)));
        },
        NodeView::Or { nodes } => {
            lemma_all_good(nodes);
            lemma_mono_alts(
                nodes,
                text,
                f,
                g,
                0,
                Set::<int>::empty(),
                Set::<int>::empty(),
                false,
                false,
            );
        },
        NodeView::Group { nodes, group_ref } => {
            lemma_all_good(nodes);
            lemma_mono_seq(nodes, text, f, g, 0);
        },
        NodeView::Quantifier { node, min, max } => {
            let qf = choose|q: int| f.contains(q);
            assert(g.contains(qf));
            lemma_min_exists(f, qf);
            lemma_min_exists(g, qf);
            let mf = crate::regex_matcher::min_pos(f);
            let mg = crate::regex_matcher::min_pos(g);
            assert(mg <= mf) by {
                assert(g.contains(mf));
            }
            assert(0 <= mg && mf <= len) by {
                assert(f.contains(mf));
                assert(g.contains(mf));
            }
            let bound_f: nat = match max {
                Some(m) => m,
                None => ((text.len() - mf) + 1) as nat,
            };
            let bound_g: nat = match max {
                Some(m) => m,
                None => ((text.len() - mg) + 1) as nat,
            };
            let acc0f = if min == 0 {
                f
            } else {
                Set::<int>::empty()
            };
            let acc0g = if min == 0 {
                g
            } else {
                Set::<int>::empty()
            };
            let lower: nat = if min == 0 {
                1nat
            } else {
                min
            };
            lemma_mono_reps(
                *node,
                text,
                f,
                g,
                acc0f,
                acc0g,
                min == 0,
                min == 0,
                0nat,
                lower,
                bound_f,
                bound_g,
            );
        },
    }
}

/// `lemma_mono` for the alternatives of an `Or`.
pub proof fn lemma_mono_alts(
    alts: Seq<NodeView>,
    text: Seq<char>,
    f: Set<int>,
    g: Set<int>,
    i: int,
    acc1: Set<int>,
    acc2: Set<int>,
    any1: bool,
    any2: bool,
)
    requires
        forall|t: int| 0 <= t < alts.len() ==> no_bad_not(#[trigger] alts[t]),
        !f.is_empty(),
        forall|q: int| #[trigger] f.contains(q) ==> g.contains(q),
        in_range(g, text.len() as int),
        forall|q: int| #[trigger] acc1.contains(q) ==> acc2.contains(q),
        any1 ==> any2,
    ensures
        crate::regex_matcher::adv_alts(alts, text, f, i, acc1, any1) is Ok,
        crate::regex_matcher::adv_alts(alts, text, g, i, acc2, any2) is Ok,
        crate::regex_matcher::adv_alts(alts, text, f, i, acc1, any1)->Ok_0.1
            ==> crate::regex_matcher::adv_alts(alts, text, g, i, acc2, any2)->Ok_0.1,
        forall|q: int|
            #[trigger] crate::regex_matcher::adv_alts(alts, text, f, i, acc1, any1)->Ok_0.0.contains(
                q,
            ) ==> crate::regex_matcher::adv_alts(alts, text, g, i, acc2, any2)->Ok_0.0.contains(q),
    decreases alts, 0int, alts.len() - i,
{
    lemma_basic_alts(alts, text, f, i, acc1, any1);
    lemma_basic_alts(alts, text, g, i, acc2, any2);
    if 0 <= i < alts.len() {
        lemma_mono(alts[i], text, f, g);
        let (s1, b1) = adv(alts[i], text, f)->Ok_0;
        let (s2, b2) = adv(alts[i], text, g)->Ok_0;
        let acc1n = if b1 {
            acc1.union(s1)
        } else {
            acc1
        };
        let acc2n = if b2 {
            acc2.union(s2)
        } else {
            acc2
        };
        assert forall|q: int| #[trigger] acc1n.contains(q) implies acc2n.contains(q) by {
            if b1 && acc1.union(s1).contains(q) {
                assert(acc1.contains(q) || s1.contains(q));
            }
        }
        lemma_mono_alts(alts, text, f, g, i + 1, acc1n, acc2n, any1 || b1, any2 || b2);
    }
}

/// `lemma_mono` for the children of a `Group`.
pub proof fn lemma_mono_seq(children: Seq<NodeView>, text: Seq<char>, f: Set<int>, g: Set<int>, i: int)
    requires
        forall|t: int| 0 <= t < children.len() ==> no_bad_not(#[trigger] children[t]),
        !f.is_empty(),
        forall|q: int| #[trigger] f.contains(q) ==> g.contains(q),
        in_range(g, text.len() as int),
    ensures
        adv_seq(children, text, f, i) is Ok,
        adv_seq(children, text, g, i) is Ok,
        adv_seq(children, text, f, i)->Ok_0.1 ==> adv_seq(children, text, g, i)->Ok_0.1,
        forall|q: int|
            #[trigger] adv_seq(children, text, f, i)->Ok_0.0.contains(q) ==> adv_seq(
                children,
                text,
                g,
                i,
            )->Ok_0.0.contains(q),
    decreases children, 0int, children.len() - i,
{
    lemma_basic_seq(children, text, f, i);
    lemma_basic_seq(children, text, g, i);
    if 0 <= i < children.len() {
        lemma_mono(children[i], text, f, g);
        lemma_basic(children[i], text, f);
        lemma_basic(children[i], text, g);
        let (s1, b1) = adv(children[i], text, f)->Ok_0;
        let (s2, b2) = adv(children[i], text, g)->Ok_0;
        if b1 {
            lemma_mono_seq(children, text, s1, s2, i + 1);
        }
    }
}

/// `lemma_mono` for the repetitions of a quantifier.  The smaller run may
/// also have the smaller budget: whatever it reaches, the larger run
/// reaches too.
pub proof fn lemma_mono_reps(
    child: NodeView,
    text: Seq<char>,
    cur1: Set<int>,
    cur2: Set<int>,
    acc1: Set<int>,
    acc2: Set<int>,
    any1: bool,
    any2: bool,
    nb: nat,
    lower: nat,
    rem1: nat,
    rem2: nat,
)
    requires
        no_bad_not(child),
        !cur1.is_empty(),
        forall|q: int| #[trigger] cur1.contains(q) ==> cur2.contains(q),
        in_range(cur2, text.len() as int),
        forall|q: int| #[trigger] acc1.contains(q) ==> acc2.contains(q),
        any1 ==> any2,
        rem1 <= rem2,
    ensures
        crate::regex_matcher::adv_reps(child, text, cur1, acc1, any1, nb, lower, rem1) is Ok,
        crate::regex_matcher::adv_reps(child, text, cur2, acc2, any2, nb, lower, rem2) is Ok,
        crate::regex_matcher::adv_reps(child, text, cur1, acc1, any1, nb, lower, rem1)->Ok_0.1
            ==> crate::regex_matcher::adv_reps(child, text, cur2, acc2, any2, nb, lower, rem2)->Ok_0.1,
        forall|q: int|
            #[trigger] crate::regex_matcher::adv_reps(
                child,
                text,
                cur1,
                acc1,
                any1,
                nb,
                lower,
                rem1,
            )->Ok_0.0.contains(q) ==> crate::regex_matcher::adv_reps(
                child,
                text,
                cur2,
                acc2,
                any2,
                nb,
                lower,
                rem2,
            )->Ok_0.0.contains(q),
    decreases child, 0int, rem2,
{
    lemma_basic_reps(child, text, cur1, acc1, any1, nb, lower, rem1);
    lemma_basic_reps(child, text, cur2, acc2, any2, nb, lower, rem2);
    lemma_basic(child, text, cur1);
    lemma_basic(child, text, cur2);
    let (s1, b1) = adv(child, text, cur1)->Ok_0;
    let (s2, b2) = adv(child, text, cur2)->Ok_0;
    if rem1 == 0 || !b1 {
        // the smaller run stops here with (acc1, any1); whatever the larger
        // run does, it keeps acc2 and its verdict once true
    } else {
        lemma_mono(child, text, cur1, cur2);
        let nb2 = nb + 1;
        if nb2 >= lower {
            assert forall|q: int| #[trigger] acc1.union(s1).contains(q) implies acc2.union(
                s2,
            ).contains(q) by {
                assert(acc1.contains(q) || s1.contains(q));
            }
            lemma_mono_reps(
                child,
                text,
                s1,
                s2,
                acc1.union(s1),
                acc2.union(s2),
                true,
                true,
                nb2,
                lower,
                (rem1 - 1) as nat,
                (rem2 - 1) as nat,
            );
        } else {
            lemma_mono_reps(
                child,
                text,
                s1,
                s2,
                acc1,
                acc2,
                any1,
                any2,
                nb2,
                lower,
                (rem1 - 1) as nat,
                (rem2 - 1) as nat,
            );
        }
    }
}


/// The frontier shifted `d` places to the right.
pub open spec fn shifted(f: Set<int>, d: int) -> Set<int> {
    Set::new(|q: int| f.contains(q - d))
}

/// No start anchor stands anywhere in the tree.  A start anchor names
/// offset 0, the one thing embedding moves.
pub open spec fn no_start_anchor(n: NodeView) -> bool
    decreases n,
{
    match n {
        NodeView::StartAnchor => false,
        NodeView::Or { nodes } => all_shiftable(nodes),
        NodeView::Group { nodes, group_ref } => all_shiftable(nodes),
        NodeView::Quantifier { node, min, max } => no_start_anchor(*node),
        _ => true,
    }
}

/// Every node of the sequence is free of start anchors.
pub open spec fn all_shiftable(nodes: Seq<NodeView>) -> bool
    decreases nodes,
{
    if nodes.len() == 0 {
        true
    } else {
        no_start_anchor(nodes[0]) && all_shiftable(nodes.subrange(1, nodes.len() as int))
    }
}

/// `all_shiftable` holds exactly when each node is free of start anchors.
pub proof fn lemma_all_shiftable(nodes: Seq<NodeView>)
    ensures
        all_shiftable(nodes) <==> (forall|i: int|
            0 <= i < nodes.len() ==> no_start_anchor(#[trigger] nodes[i])),
    decreases nodes.len(),
{
    if nodes.len() > 0 {
        let rest = nodes.subrange(1, nodes.len() as int);
        lemma_all_shiftable(rest);
        if all_shiftable(nodes) {
            assert forall|i: int| 0 <= i < nodes.len() implies no_start_anchor(
                #[trigger] nodes[i],
            ) by {
                if i > 0 {
                    assert(no_start_anchor(rest[i - 1]));
                }
            }
        }
        if forall|i: int| 0 <= i < nodes.len() ==> no_start_anchor(#[trigger] nodes[i]) {
            assert forall|i: int| 0 <= i < rest.len() implies no_start_anchor(
                #[trigger] rest[i],
            ) by {
                assert(rest[i] == nodes[i + 1]);
            }
        }
    }
}

/// Shifting distributes over union.
pub proof fn lemma_shifted_union(a: Set<int>, b: Set<int>, d: int)
    ensures
        shifted(a.union(b), d) =~= shifted(a, d).union(shifted(b, d)),
{
}

/// One consuming step commutes with embedding: on the embedded text, the
/// shifted frontier steps to the shifted result.
pub proof fn lemma_shift_class(text: Seq<char>, pre: Seq<char>, f: Set<int>, ct: CharTest)
    requires
        in_range(f, text.len() as int),
    ensures
        step_any(pre + text, shifted(f, pre.len() as int), ct) == step_any(text, f, ct),
        crate::regex_matcher::step_set(pre + text, shifted(f, pre.len() as int), ct) == shifted(
            crate::regex_matcher::step_set(text, f, ct),
            pre.len() as int,
        ),
{
    let d = pre.len() as int;
    let text2 = pre + text;
    let shf = shifted(f, d);
    assert forall|p: int| #[trigger] steps_on(text, f, ct, p) implies steps_on(
        text2,
        shf,
        ct,
        p + d,
    ) by {
        assert(shf.contains(p + d));
        assert(text2[p + d] == text[p]);
    }
    assert forall|p2: int| #[trigger] steps_on(text2, shf, ct, p2) implies steps_on(
        text,
        f,
        ct,
        p2 - d,
    ) by {
        assert(f.contains(p2 - d));
        assert(0 <= p2 - d <= text.len());
        assert(p2 - d < text.len());
        assert(text2[p2] == text[p2 - d]);
    }
    if step_any(text, f, ct) {
        let p = choose|p: int| #[trigger] steps_on(text, f, ct, p);
        assert(steps_on(text2, shf, ct, p + d));
    }
    if step_any(text2, shf, ct) {
        let p2 = choose|p2: int| #[trigger] steps_on(text2, shf, ct, p2);
        assert(steps_on(text, f, ct, p2 - d));
    }
    assert forall|q: int| crate::regex_matcher::step_set(text2, shf, ct).contains(q) implies
        shifted(crate::regex_matcher::step_set(text, f, ct), d).contains(q) by {
        let p2 = choose|p2: int| #[trigger] crate::regex_matcher::steps_to(text2, shf, ct, p2, q);
        assert(steps_on(text, f, ct, p2 - d));
        assert(crate::regex_matcher::steps_to(text, f, ct, p2 - d, q - d));
    }
    assert forall|q: int| shifted(crate::regex_matcher::step_set(text, f, ct), d).contains(q)
        implies crate::regex_matcher::step_set(text2, shf, ct).contains(q) by {
        let p = choose|p: int| #[trigger] crate::regex_matcher::steps_to(text, f, ct, p, q - d);
        assert(steps_on(text2, shf, ct, p + d));
        assert(crate::regex_matcher::steps_to(text2, shf, ct, p + d, q));
    }
    assert(crate::regex_matcher::step_set(text2, shf, ct) =~= shifted(
        crate::regex_matcher::step_set(text, f, ct),
        d,
    ));
}

/// A walk commutes with embedding: on the embedded text, the shifted
/// frontier reaches exactly the shifted positions, with the same verdict.
pub proof fn lemma_shift(n: NodeView, text: Seq<char>, pre: Seq<char>, f: Set<int>)
    requires
        no_bad_not(n),
        no_start_anchor(n),
        !f.is_empty(),
        in_range(f, text.len() as int),
    ensures
        adv(n, text, f) is Ok,
        adv(n, pre + text, shifted(f, pre.len() as int)) is Ok,
        adv(n, pre + text, shifted(f, pre.len() as int))->Ok_0.1 == adv(n, text, f)->Ok_0.1,
        adv(n, pre + text, shifted(f, pre.len() as int))->Ok_0.0 == shifted(
            adv(n, text, f)->Ok_0.0,
            pre.len() as int,
        ),
    decreases n, 0int, 0int,
{
    let d = pre.len() as int;
    let text2 = pre + text;
    let shf = shifted(f, d);
    lemma_basic(n, text, f);
    lemma_basic(n, text2, shf);
    match n {
        NodeView::Literal(c) => {
            lemma_shift_class(text, pre, f, CharTest::IsChar(c));
        },
        NodeView::Digit => {
            lemma_shift_class(text, pre, f, CharTest::IsDigit);
        },
        NodeView::Alphanum => {
            lemma_shift_class(text, pre, f, CharTest::IsWord);
        },
        NodeView::Wildcard => {
            lemma_shift_class(text, pre, f, CharTest::Any);
        },
        NodeView::StartAnchor => {},
        NodeView::EndAnchor => {
            let l1 = text.len() as int;
            let l2 = text2.len() as int;
            assert(l2 == l1 + d);
            assert(shf.contains(l2) == f.contains(l1));
            if f.contains(l1) {
                assert(set![l2] =~= shifted(set![l1], d));
            } else {
                assert(Set::<int>::empty() =~= shifted(Set::<int>::empty(), d));
            }
        },
        NodeView::Not { nodes } => {
            lemma_shift_class(text, pre, f, CharTest::NotIn(excluded_chars(nodes)));
        },
        NodeView::Or { nodes } => {
            lemma_all_good(nodes);
            lemma_all_shiftable(nodes);
            assert(Set::<int>::empty() =~= shifted(Set::<int>::empty(), d));
            lemma_shift_alts(nodes, text, pre, f, 0, Set::<int>::empty(), false);
        },
        NodeView::Group { nodes, group_ref } => {
            lemma_all_good(nodes);
            lemma_all_shiftable(nodes);
            lemma_shift_seq(nodes, text, pre, f, 0);
        },
        NodeView::Quantifier { node, min, max } => {
            let qf = choose|q: int| f.contains(q);
            lemma_min_exists(f, qf);
            assert(shf.contains(qf + d));
            assert forall|q: int| #[trigger] shf.contains(q) implies 0 <= q by {
                assert(f.contains(q - d));
            }
            lemma_min_exists(shf, qf + d);
            let mf = crate::regex_matcher::min_pos(f);
            let m2 = crate::regex_matcher::min_pos(shf);
            assert(m2 == mf + d) by {
                assert(shf.contains(mf + d));
                assert(f.contains(m2 - d));
                assert(mf <= m2 - d);
                assert(m2 <= mf + d);
            }
            assert(f.contains(mf));
            assert(0 <= mf <= text.len());
            let bound1: nat = match max {
                Some(m) => m,
                None => ((text.len() - mf) + 1) as nat,
            };
            assert(match max {
                Some(m) => true,
                None => ((text2.len() - m2) + 1) as nat == bound1,
            });
            let acc0 = if min == 0 {
                f
            } else {
                Set::<int>::empty()
            };
            assert(min != 0 ==> (shifted(acc0, d) =~= Set::<int>::empty()));
            lemma_shift_reps(
                *node,
                text,
                pre,
                f,
                acc0,
                min == 0,
                0nat,
                if min == 0 {
                    1nat
                } else {
                    min
                },
                bound1,
            );
        },
    }
}

/// `lemma_shift` for the alternatives of an `Or`.
pub proof fn lemma_shift_alts(
    alts: Seq<NodeView>,
    text: Seq<char>,
    pre: Seq<char>,
    base: Set<int>,
    i: int,
    acc: Set<int>,
    any: bool,
)
    requires
        forall|t: int| 0 <= t < alts.len() ==> no_bad_not(#[trigger] alts[t]),
        forall|t: int| 0 <= t < alts.len() ==> no_start_anchor(#[trigger] alts[t]),
        !base.is_empty(),
        in_range(base, text.len() as int),
    ensures
        crate::regex_matcher::adv_alts(alts, text, base, i, acc, any) is Ok,
        crate::regex_matcher::adv_alts(
            alts,
            pre + text,
            shifted(base, pre.len() as int),
            i,
            shifted(acc, pre.len() as int),
            any,
        ) is Ok,
        crate::regex_matcher::adv_alts(
            alts,
            pre + text,
            shifted(base, pre.len() as int),
            i,
            shifted(acc, pre.len() as int),
            any,
        )->Ok_0.1 == crate::regex_matcher::adv_alts(alts, text, base, i, acc, any)->Ok_0.1,
        crate::regex_matcher::adv_alts(
            alts,
            pre + text,
            shifted(base, pre.len() as int),
            i,
            shifted(acc, pre.len() as int),
            any,
        )->Ok_0.0 == shifted(
            crate::regex_matcher::adv_alts(alts, text, base, i, acc, any)->Ok_0.0,
            pre.len() as int,
        ),
    decreases alts, 0int, alts.len() - i,
{
    let d = pre.len() as int;
    let text2 = pre + text;
    lemma_basic_alts(alts, text, base, i, acc, any);
    lemma_basic_alts(alts, text2, shifted(base, d), i, shifted(acc, d), any);
    if 0 <= i < alts.len() {
        lemma_shift(alts[i], text, pre, base);
        let (s1, b1) = adv(alts[i], text, base)->Ok_0;
        let acc2 = if b1 {
            acc.union(s1)
        } else {
            acc
        };
        if b1 {
            lemma_shifted_union(acc, s1, d);
            assert(shifted(acc, d).union(shifted(s1, d)) =~= shifted(acc2, d));
        }
        lemma_shift_alts(alts, text, pre, base, i + 1, acc2, any || b1);
    }
}

/// `lemma_shift` for the children of a `Group`.
pub proof fn lemma_shift_seq(
    children: Seq<NodeView>,
    text: Seq<char>,
    pre: Seq<char>,
    f: Set<int>,
    i: int,
)
    requires
        forall|t: int| 0 <= t < children.len() ==> no_bad_not(#[trigger] children[t]),
        forall|t: int| 0 <= t < children.len() ==> no_start_anchor(#[trigger] children[t]),
        !f.is_empty(),
        in_range(f, text.len() as int),
    ensures
        adv_seq(children, text, f, i) is Ok,
        adv_seq(children, pre + text, shifted(f, pre.len() as int), i) is Ok,
        adv_seq(children, pre + text, shifted(f, pre.len() as int), i)->Ok_0.1 == adv_seq(
            children,
            text,
            f,
            i,
        )->Ok_0.1,
        adv_seq(children, pre + text, shifted(f, pre.len() as int), i)->Ok_0.0 == shifted(
            adv_seq(children, text, f, i)->Ok_0.0,
            pre.len() as int,
        ),
    decreases children, 0int, children.len() - i,
{
    let d = pre.len() as int;
    let text2 = pre + text;
    lemma_basic_seq(children, text, f, i);
    lemma_basic_seq(children, text2, shifted(f, d), i);
    if 0 <= i < children.len() {
        lemma_shift(children[i], text, pre, f);
        lemma_basic(children[i], text, f);
        let (s1, b1) = adv(children[i], text, f)->Ok_0;
        if b1 {
            lemma_shift_seq(children, text, pre, s1, i + 1);
        } else {
            assert(s1.is_empty());
            assert(shifted(s1, d) =~= Set::<int>::empty());
            assert(shifted(s1, d).is_empty());
        }
    }
}

/// `lemma_shift` for the repetitions of a quantifier.
pub proof fn lemma_shift_reps(
    child: NodeView,
    text: Seq<char>,
    pre: Seq<char>,
    cur: Set<int>,
    acc: Set<int>,
    any: bool,
    nb: nat,
    lower: nat,
    remaining: nat,
)
    requires
        no_bad_not(child),
        no_start_anchor(child),
        !cur.is_empty(),
        in_range(cur, text.len() as int),
    ensures
        crate::regex_matcher::adv_reps(child, text, cur, acc, any, nb, lower, remaining) is Ok,
        crate::regex_matcher::adv_reps(
            child,
            pre + text,
            shifted(cur, pre.len() as int),
            shifted(acc, pre.len() as int),
            any,
            nb,
            lower,
            remaining,
        ) is Ok,
        crate::regex_matcher::adv_reps(
            child,
            pre + text,
            shifted(cur, pre.len() as int),
            shifted(acc, pre.len() as int),
            any,
            nb,
            lower,
            remaining,
        )->Ok_0.1 == crate::regex_matcher::adv_reps(
            child,
            text,
            cur,
            acc,
            any,
            nb,
            lower,
            remaining,
        )->Ok_0.1,
        crate::regex_matcher::adv_reps(
            child,
            pre + text,
            shifted(cur, pre.len() as int),
            shifted(acc, pre.len() as int),
            any,
            nb,
            lower,
            remaining,
        )->Ok_0.0 == shifted(
            crate::regex_matcher::adv_reps(child, text, cur, acc, any, nb, lower, remaining)->Ok_0.0,
            pre.len() as int,
        ),
    decreases child, 0int, remaining,
{
    let d = pre.len() as int;
    let text2 = pre + text;
    lemma_basic_reps(child, text, cur, acc, any, nb, lower, remaining);
    lemma_basic_reps(child, text2, shifted(cur, d), shifted(acc, d), any, nb, lower, remaining);
    if remaining > 0 {
        lemma_shift(child, text, pre, cur);
        lemma_basic(child, text, cur);
        let (s1, b1) = adv(child, text, cur)->Ok_0;
        if b1 {
            let nb2 = nb + 1;
            if nb2 >= lower {
                lemma_shifted_union(acc, s1, d);
                assert(shifted(acc, d).union(shifted(s1, d)) =~= shifted(acc.union(s1), d));
                lemma_shift_reps(
                    child,
                    text,
                    pre,
                    s1,
                    acc.union(s1),
                    true,
                    nb2,
                    lower,
                    (remaining - 1) as nat,
                );
            } else {
                lemma_shift_reps(child, text, pre, s1, acc, any, nb2, lower, (remaining - 1) as nat);
            }
        }
    }
}

/// Unanchored search survives embedding: a pattern with no start anchor
/// that matches a text still matches when anything is prepended.
pub proof fn lemma_embedding(n: NodeView, pre: Seq<char>, text: Seq<char>)
    requires
        no_bad_not(n),
        no_start_anchor(n),
        sp_is_match(n, text) == Ok::<bool, MatchError>(true),
    ensures
        sp_is_match(n, pre + text) == Ok::<bool, MatchError>(true),
{
    let d = pre.len() as int;
    let text2 = pre + text;
    let sd1 = seed(text.len() as int);
    assert(sd1.contains(0));
    assert(!sd1.is_empty());
    lemma_basic(n, text, sd1);
    lemma_shift(n, text, pre, sd1);
    let sd2 = seed(text2.len() as int);
    assert(shifted(sd1, d).contains(d));
    assert(!shifted(sd1, d).is_empty());
    assert forall|q: int| #[trigger] shifted(sd1, d).contains(q) implies sd2.contains(q) by {
        assert(sd1.contains(q - d));
    }
    lemma_mono(n, text2, shifted(sd1, d), sd2);
}


/// A bracket expression parses to a class of literals only.
pub proof fn lemma_bracket_items_good(s: Seq<char>, p: int, negated: bool, acc: Seq<NodeView>)
    requires
        all_literals(acc),
    ensures
        match sp_bracket_items(s, p, negated, acc) {
            Ok((nv, pr)) => no_bad_not(nv),
            Err(e) => true,
        },
    decreases s.len() - p, 0int,
{
    if 0 <= p <= s.len() {
        match spec_token_at(s, p) {
            Err(e) => {},
            Ok((tk, q)) => match tk {
                RegexToken::Literal(c) => {
                    if p < s.len() {
                        match sp_advance(s, p) {
                            Err(e) => {},
                            Ok(p1) => {
                                let acc2 = acc.push(NodeView::Literal(c));
                                assert forall|i: int| 0 <= i < acc2.len() implies (
                                #[trigger] acc2[i]) is Literal by {
                                    if i < acc.len() {
                                        assert(acc[i] is Literal);
                                    }
                                }
                                lemma_bracket_items_good(s, cl(s, p + 1, p1), negated, acc2);
                            },
                        }
                    }
                },
                RegexToken::RBracket => {
                    lemma_all_good(acc);
                    assert forall|i: int| 0 <= i < acc.len() implies no_bad_not(
                        #[trigger] acc[i],
                    ) by {
                        assert(acc[i] is Literal);
                    }
                },
                _ => {},
            },
        }
    }
}

/// What a whole bracket expression parses to is well formed.
pub proof fn lemma_bracket_good(s: Seq<char>, p: int)
    ensures
        match sp_bracket(s, p) {
            Ok((nv, pr)) => no_bad_not(nv),
            Err(e) => true,
        },
    decreases s.len() - p, 1int,
{
    if 0 <= p <= s.len() {
        match spec_token_at(s, p) {
            Err(e) => {},
            Ok((tk, q)) => {
                if tk is StartAnchor {
                    match sp_advance(s, p) {
                        Err(e) => {},
                        Ok(p1) => {
                            lemma_bracket_items_good(s, cl(s, p + 1, p1), true, Seq::empty());
                        },
                    }
                } else {
                    lemma_bracket_items_good(s, p, false, Seq::empty());
                }
            },
        }
    }
}

/// Everything the parser builds is well formed: a negated class it emits
/// holds literals only, at every nesting depth.
#[verifier::rlimit(100)]
pub proof fn lemma_build_good(s: Seq<char>, p: int, gref: int, gctr: int, acc: Seq<NodeView>)
    requires
        forall|i: int| 0 <= i < acc.len() ==> no_bad_not(#[trigger] acc[i]),
    ensures
        match sp_build(s, p, gref, gctr, acc) {
            Ok((nv, pr, g2)) => no_bad_not(nv),
            Err(e) => true,
        },
    decreases s.len() - p, 2int,
{
    reveal_with_fuel(sp_build, 1);
    reveal_with_fuel(sp_step, 1);
    if 0 <= p <= s.len() {
        lemma_tok_next(s, p);
        match spec_token_at(s, p) {
            Err(e) => {},
            Ok((tk, q)) => match tk {
                RegexToken::Eof => {
                    lemma_all_good(acc);
                },
                RegexToken::RParen => {
                    lemma_all_good(acc);
                },
                RegexToken::Literal(c) => {
                    lemma_step_good(s, p, gref, gctr, acc, NodeView::Literal(c));
                },
                RegexToken::Digit => {
                    lemma_step_good(s, p, gref, gctr, acc, NodeView::Digit);
                },
                RegexToken::AlphaNum => {
                    lemma_step_good(s, p, gref, gctr, acc, NodeView::Alphanum);
                },
                RegexToken::Wildcard => {
                    lemma_step_good(s, p, gref, gctr, acc, NodeView::Wildcard);
                },
                RegexToken::StartAnchor => {
                    lemma_step_good(s, p, gref, gctr, acc, NodeView::StartAnchor);
                },
                RegexToken::EndAnchor => {
                    lemma_step_good(s, p, gref, gctr, acc, NodeView::EndAnchor);
                },
                RegexToken::Quantifier { min, max } => {
                    if acc.len() > 0 {
                        let qv = NodeView::Quantifier {
                            node: Box::new(acc.last()),
                            min: min as nat,
                            max: opt_nat(max),
                        };
                        assert(no_bad_not(acc[acc.len() - 1]));
                        let acc2 = acc.drop_last().push(qv);
                        assert forall|i: int| 0 <= i < acc2.len() implies no_bad_not(
                            #[trigger] acc2[i],
                        ) by {
                            if i < acc.len() - 1 {
                                assert(acc2[i] == acc.drop_last()[i]);
                                assert(acc.drop_last()[i] == acc[i]);
                            }
                        }
                        lemma_sp_step_good(s, p, gref, gctr, acc2);
                    }
                },
                RegexToken::Pipe => {
                    match sp_advance(s, p) {
                        Err(e) => {},
                        Ok(p1) => {
                            lemma_build_good(s, cl(s, p + 1, p1), gref, gctr, Seq::empty());
                            match sp_build(s, cl(s, p + 1, p1), gref, gctr, Seq::empty()) {
                                Err(e) => {},
                                Ok((right, pr, g2)) => {
                                    lemma_all_good(acc);
                                    let left = NodeView::Group { nodes: acc, group_ref: gref };
                                    let both = NodeView::Or { nodes: seq![left, right] };
                                    assert(no_bad_not(left));
                                    assert(no_bad_not(both)) by {
                                        lemma_all_good(seq![left, right]);
                                        assert(seq![left, right][0] == left);
                                        assert(seq![left, right][1] == right);
                                    }
                                    let acc2 = seq![both];
                                    assert forall|i: int| 0 <= i < acc2.len() implies no_bad_not(
                                        #[trigger] acc2[i],
                                    ) by {
                                        assert(acc2[0] == both);
                                    }
                                    lemma_build_good(s, cl(s, p + 1, pr), gref, g2, acc2);
                                },
                            }
                        },
                    }
                },
                RegexToken::LBracket => {
                    match sp_advance(s, p) {
                        Err(e) => {},
                        Ok(p1) => {
                            lemma_bracket_good(s, cl(s, p + 1, p1));
                            match sp_bracket(s, cl(s, p + 1, p1)) {
                                Err(e) => {},
                                Ok((bn, pr)) => {
                                    match sp_advance(s, cl(s, p + 1, pr)) {
                                        Err(e) => {},
                                        Ok(pc) => {
                                            let acc2 = acc.push(bn);
                                            assert forall|i: int|
                                                0 <= i < acc2.len() implies no_bad_not(
                                                #[trigger] acc2[i],
                                            ) by {
                                                if i < acc.len() {
                                                    assert(no_bad_not(acc[i]));
                                                }
                                            }
                                            lemma_build_good(s, cl(s, p + 1, pc), gref, gctr, acc2);
                                        },
                                    }
                                },
                            }
                        },
                    }
                },
                RegexToken::LParen => {
                    match sp_advance(s, p) {
                        Err(e) => {},
                        Ok(p1) => {
                            lemma_build_good(s, cl(s, p + 1, p1), gctr + 1, gctr + 1, Seq::empty());
                            match sp_build(s, cl(s, p + 1, p1), gctr + 1, gctr + 1, Seq::empty()) {
                                Err(e) => {},
                                Ok((child, pr, g2)) => {
                                    match sp_advance(s, cl(s, p + 1, pr)) {
                                        Err(e) => {},
                                        Ok(pc) => {
                                            let acc2 = acc.push(child);
                                            assert forall|i: int|
                                                0 <= i < acc2.len() implies no_bad_not(
                                                #[trigger] acc2[i],
                                            ) by {
                                                if i < acc.len() {
                                                    assert(no_bad_not(acc[i]));
                                                }
                                            }
                                            lemma_build_good(s, cl(s, p + 1, pc), gref, g2, acc2);
                                        },
                                    }
                                },
                            }
                        },
                    }
                },
                RegexToken::BackRef(nref) => {},
                RegexToken::RBracket => {},
            },
        }
    }
}

/// `lemma_build_good` with an atom already appended.
pub proof fn lemma_step_good(s: Seq<char>, p: int, gref: int, gctr: int, acc: Seq<NodeView>, v: NodeView)
    requires
        forall|i: int| 0 <= i < acc.len() ==> no_bad_not(#[trigger] acc[i]),
        no_bad_not(v),
    ensures
        match sp_step(s, p, gref, gctr, acc.push(v)) {
            Ok((nv, pr, g2)) => no_bad_not(nv),
            Err(e) => true,
        },
    decreases s.len() - p, 1int,
{
    let acc2 = acc.push(v);
    assert forall|i: int| 0 <= i < acc2.len() implies no_bad_not(#[trigger] acc2[i]) by {
        if i < acc.len() {
            assert(no_bad_not(acc[i]));
        }
    }
    lemma_sp_step_good(s, p, gref, gctr, acc2);
}

/// `lemma_build_good` through one consuming step.
pub proof fn lemma_sp_step_good(s: Seq<char>, p: int, gref: int, gctr: int, acc: Seq<NodeView>)
    requires
        forall|i: int| 0 <= i < acc.len() ==> no_bad_not(#[trigger] acc[i]),
    ensures
        match sp_step(s, p, gref, gctr, acc) {
            Ok((nv, pr, g2)) => no_bad_not(nv),
            Err(e) => true,
        },
    decreases s.len() - p, 0int,
{
    reveal_with_fuel(sp_step, 1);
    reveal_with_fuel(sp_build, 1);
    if 0 <= p < s.len() {
        lemma_tok_next(s, p);
        match sp_advance(s, p) {
            Err(e) => {},
            Ok(p1) => {
                lemma_build_good(s, cl(s, p + 1, p1), gref, gctr, acc);
            },
        }
    }
}

/// Whatever `compile` accepts, the matcher accepts too: a compiled pattern
/// never reaches an unsupported construct at match time.
pub proof fn lemma_compiled_matches_cleanly(s: Seq<char>, text: Seq<char>)
    requires
        sp_compile(s) is Ok,
    ensures
        no_bad_not(sp_compile(s)->Ok_0),
        sp_is_match(sp_compile(s)->Ok_0, text) is Ok,
{
    lemma_build_good(s, 0, 0, 0, Seq::empty());
    lemma_basic(sp_compile(s)->Ok_0, text, seed(text.len() as int));
}

} // verus!
