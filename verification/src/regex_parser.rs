//! Parser: builds an abstract syntax tree ([`Node`]) from the token stream.
//!
//! The executable parser is specified against [`sp_build`], a mathematical
//! recursive-descent parser over the pattern's character sequence.  Because a
//! [`Node`] owns its children in `Vec`s, contracts speak about its deep view
//! [`NodeView`], whose children are `Seq`s.

use vstd::prelude::*;
use crate::regex_lexer::LexError;
use crate::regex_lexer::RegexLexer;
use crate::regex_lexer::RegexToken;
use crate::regex_lexer::spec_token_at;

verus! {

/// A node of the abstract syntax tree of a compiled pattern.
#[derive(Debug, PartialEq, Eq)]
pub enum Node {
    /// Matches when at least one of the children matches.
    Or { nodes: Vec<Node> },
    /// Negated character class: matches one character that is none of the
    /// listed literals.  The children are restricted to `Literal` nodes;
    /// enforcing that is the parser's job.
    Not { nodes: Vec<Node> },
    /// Matches one exact character.
    Literal(char),
    /// Matches one ASCII decimal digit (`\d`).
    Digit,
    /// Matches one ASCII letter, digit or underscore (`\w`).
    Alphanum,
    /// Matches any one character (`.`).
    Wildcard,
    /// Matches only at the start of the text (`^`).
    StartAnchor,
    /// Matches only at the end of the text (`$`).
    EndAnchor,
    /// An ordered sequence of nodes; `group_ref` identifies the capture
    /// group, 0 standing for the implicit whole-pattern group.
    Group { nodes: Vec<Node>, group_ref: usize },
    /// Bounded or unbounded repetition of `node`; `max == None` stands for
    /// an unbounded repetition.
    Quantifier { node: Box<Node>, min: usize, max: Option<usize> },
}

/// A parse error: the token stream does not form a pattern.
#[derive(Debug, Clone, Copy, PartialEq, Eq)]
pub enum ParseError {
    /// A quantifier with no preceding atom to attach to.
    MisplacedQuantifier,
    /// End of input reached inside a `(` that never saw its `)`.
    UnterminatedGroup,
    /// End of input reached inside a `[` that never saw its `]`.
    UnterminatedBracket,
    /// A token other than a literal inside a bracket expression.
    UnsupportedInBracket,
    /// A token the parser has no construct for (a back-reference, or a
    /// stray `]`).
    UnsupportedToken,
}

/// A compile error: either stage of `compile` can fail.
#[derive(Debug, Clone, Copy, PartialEq, Eq)]
pub enum CompileError {
    /// The tokenizer rejected the pattern.
    Lex(LexError),
    /// The parser rejected the token stream.
    Parse(ParseError),
}

/// The deep view of a [`Node`]: the same tree with mathematical children.
pub enum NodeView {
    Or { nodes: Seq<NodeView> },
    Not { nodes: Seq<NodeView> },
    Literal(char),
    Digit,
    Alphanum,
    Wildcard,
    StartAnchor,
    EndAnchor,
    Group { nodes: Seq<NodeView>, group_ref: int },
    Quantifier { node: Box<NodeView>, min: nat, max: Option<nat> },
}

/// `max` as a mathematical bound.
pub open spec fn opt_nat(m: Option<usize>) -> Option<nat> {
    match m {
        Some(x) => Some(x as nat),
        None => None,
    }
}

/// The deep view of a node.
pub open spec fn ast_of(n: Node) -> NodeView
    decreases n,
{
    match n {
        Node::Or { nodes } => NodeView::Or { nodes: asts_of(nodes@) },
        Node::Not { nodes } => NodeView::Not { nodes: asts_of(nodes@) },
        Node::Literal(c) => NodeView::Literal(c),
        Node::Digit => NodeView::Digit,
        Node::Alphanum => NodeView::Alphanum,
        Node::Wildcard => NodeView::Wildcard,
        Node::StartAnchor => NodeView::StartAnchor,
        Node::EndAnchor => NodeView::EndAnchor,
        Node::Group { nodes, group_ref } => NodeView::Group {
            nodes: asts_of(nodes@),
            group_ref: group_ref as int,
        },
        Node::Quantifier { node, min, max } => NodeView::Quantifier {
            node: Box::new(ast_of(*node)),
            min: min as nat,
            max: opt_nat(max),
        },
    }
}

/// The deep views of a sequence of nodes, in order.
pub open spec fn asts_of(nodes: Seq<Node>) -> Seq<NodeView>
    decreases nodes,
{
    if nodes.len() == 0 {
        Seq::empty()
    } else {
        asts_of(nodes.subrange(0, nodes.len() - 1)).push(ast_of(nodes[nodes.len() - 1]))
    }
}

/// `asts_of` maps `ast_of` over the sequence, element by element.
pub proof fn lemma_asts_of(nodes: Seq<Node>)
    ensures
        asts_of(nodes).len() == nodes.len(),
        forall|i: int|
            0 <= i < nodes.len() ==> #[trigger] asts_of(nodes)[i] == ast_of(nodes[i]),
    decreases nodes.len(),
{
    if nodes.len() > 0 {
        lemma_asts_of(nodes.subrange(0, nodes.len() - 1));
    }
}

/// Pushing a node onto a sequence pushes its view onto the views.
pub proof fn lemma_asts_of_push(nodes: Seq<Node>, n: Node)
    ensures
        asts_of(nodes.push(n)) == asts_of(nodes).push(ast_of(n)),
{
    assert(nodes.push(n).subrange(0, nodes.push(n).len() - 1) =~= nodes);
    assert(nodes.push(n)[nodes.push(n).len() - 1] == n);
}

/// Position after the token beginning at `p` (the pattern's length when the
/// token cannot be read — the well-formed parser never relies on that case).
pub open spec fn nx(s: Seq<char>, p: int) -> int {
    match spec_token_at(s, p) {
        Ok((t, q)) => q,
        Err(e) => s.len() as int,
    }
}

/// Advance the parser's cursor by one token.  The parser looks one token
/// ahead, so advancing pulls the token two steps beyond the cursor into the
/// window; a lexical error there surfaces now.
pub open spec fn sp_advance(s: Seq<char>, p: int) -> Result<int, LexError> {
    let p1 = nx(s, p);
    let p2 = nx(s, p1);
    match spec_token_at(s, p2) {
        Ok(t) => Ok(p1),
        Err(e) => Err(e),
    }
}

/// Clamp a continuation position into `[lo, s.len()]`, so that every
/// recursive call of the parser visibly advances; the bounds lemmas show
/// the clamp never changes a position the parser actually reaches.
pub open spec fn cl(s: Seq<char>, lo: int, x: int) -> int {
    if x < lo {
        lo
    } else if x > s.len() {
        s.len() as int
    } else {
        x
    }
}

/// One step of the recursive-descent parse: consume the current token and
/// continue with the accumulated sequence `acc`.
#[verifier::opaque]
pub open spec fn sp_step(s: Seq<char>, p: int, gref: int, gctr: int, acc: Seq<NodeView>) -> Result<
    (NodeView, int, int),
    CompileError,
>
    decreases s.len() - p, 0int,
{
    if p < 0 || p >= s.len() {
        Err(CompileError::Parse(ParseError::UnterminatedGroup))
    } else {
        match sp_advance(s, p) {
            Err(e) => Err(CompileError::Lex(e)),
            Ok(p1) => sp_build(s, cl(s, p + 1, p1), gref, gctr, acc),
        }
    }
}

/// The mathematical recursive-descent parser, one call per group level.
///
/// `p` is the position of the current token, `gref` the group identifier this
/// call closes over, `gctr` the last capture-group number handed out, and
/// `acc` the sequence built so far.  It returns the node, the position of the
/// terminating token (`)` or end of input, not yet consumed), and the new
/// group counter.  Alternation splits: everything accumulated becomes the
/// left alternative, the rest up to the enclosing terminator the right one.
#[verifier::opaque]
pub open spec fn sp_build(s: Seq<char>, p: int, gref: int, gctr: int, acc: Seq<NodeView>) -> Result<
    (NodeView, int, int),
    CompileError,
>
    decreases s.len() - p, 1int,
{
    if p < 0 || p > s.len() {
        Err(CompileError::Parse(ParseError::UnterminatedGroup))
    } else {
        match spec_token_at(s, p) {
            Err(e) => Err(CompileError::Lex(e)),
            Ok((t, _)) => match t {
                RegexToken::Eof => if gref == 0 {
                    Ok((NodeView::Group { nodes: acc, group_ref: 0 }, p, gctr))
                } else {
                    Err(CompileError::Parse(ParseError::UnterminatedGroup))
                },
                RegexToken::RParen => Ok(
                    (NodeView::Group { nodes: acc, group_ref: gref }, p, gctr),
                ),
                RegexToken::Literal(c) => sp_step(s, p, gref, gctr, acc.push(NodeView::Literal(c))),
                RegexToken::Digit => sp_step(s, p, gref, gctr, acc.push(NodeView::Digit)),
                RegexToken::AlphaNum => sp_step(s, p, gref, gctr, acc.push(NodeView::Alphanum)),
                RegexToken::Wildcard => sp_step(s, p, gref, gctr, acc.push(NodeView::Wildcard)),
                RegexToken::StartAnchor => sp_step(
                    s,
                    p,
                    gref,
                    gctr,
                    acc.push(NodeView::StartAnchor),
                ),
                RegexToken::EndAnchor => sp_step(s, p, gref, gctr, acc.push(NodeView::EndAnchor)),
                RegexToken::Quantifier { min, max } => if acc.len() == 0 {
                    Err(CompileError::Parse(ParseError::MisplacedQuantifier))
                } else {
                    sp_step(
                        s,
                        p,
                        gref,
                        gctr,
                        acc.drop_last().push(
                            NodeView::Quantifier {
                                node: Box::new(acc.last()),
                                min: min as nat,
                                max: opt_nat(max),
                            },
                        ),
                    )
                },
                RegexToken::Pipe => match sp_advance(s, p) {
                    Err(e) => Err(CompileError::Lex(e)),
                    Ok(p1) => match sp_build(s, cl(s, p + 1, p1), gref, gctr, Seq::empty()) {
                        Err(e) => Err(e),
                        Ok((right, pr, g2)) => {
                            let left = NodeView::Group { nodes: acc, group_ref: gref };
                            let both = NodeView::Or { nodes: seq![left, right] };
                            sp_build(s, cl(s, p + 1, pr), gref, g2, seq![both])
                        },
                    },
                },
                RegexToken::LBracket => match sp_advance(s, p) {
                    Err(e) => Err(CompileError::Lex(e)),
                    Ok(p1) => match sp_bracket(s, cl(s, p + 1, p1)) {
                        Err(e) => Err(e),
                        Ok((bn, pr)) => match sp_advance(s, cl(s, p + 1, pr)) {
                            Err(e) => Err(CompileError::Lex(e)),
                            Ok(pc) => sp_build(s, cl(s, p + 1, pc), gref, gctr, acc.push(bn)),
                        },
                    },
                },
                RegexToken::LParen => match sp_advance(s, p) {
                    Err(e) => Err(CompileError::Lex(e)),
                    Ok(p1) => match sp_build(
                        s,
                        cl(s, p + 1, p1),
                        gctr + 1,
                        gctr + 1,
                        Seq::empty(),
                    ) {
                        Err(e) => Err(e),
                        Ok((child, pr, g2)) => match sp_advance(s, cl(s, p + 1, pr)) {
                            Err(e) => Err(CompileError::Lex(e)),
                            Ok(pc) => sp_build(s, cl(s, p + 1, pc), gref, g2, acc.push(child)),
                        },
                    },
                },
                RegexToken::BackRef(n) => Err(CompileError::Parse(ParseError::UnsupportedToken)),
                RegexToken::RBracket => Err(CompileError::Parse(ParseError::UnsupportedToken)),
            },
        }
    }
}

/// The bracket expression beginning at the token at `p` (just after `[`):
/// an optional leading `^` negates the class.
pub open spec fn sp_bracket(s: Seq<char>, p: int) -> Result<(NodeView, int), CompileError>
    decreases s.len() - p, 1int,
{
    if p < 0 || p > s.len() {
        Err(CompileError::Parse(ParseError::UnterminatedBracket))
    } else {
        match spec_token_at(s, p) {
            Err(e) => Err(CompileError::Lex(e)),
            Ok((t, _)) => if t is StartAnchor {
                match sp_advance(s, p) {
                    Err(e) => Err(CompileError::Lex(e)),
                    Ok(p1) => sp_bracket_items(s, cl(s, p + 1, p1), true, Seq::empty()),
                }
            } else {
                sp_bracket_items(s, p, false, Seq::empty())
            },
        }
    }
}

/// The literal items of a bracket expression, up to the closing `]` (whose
/// position is returned, not yet consumed).
pub open spec fn sp_bracket_items(s: Seq<char>, p: int, negated: bool, acc: Seq<NodeView>) -> Result<
    (NodeView, int),
    CompileError,
>
    decreases s.len() - p, 0int,
{
    if p < 0 || p > s.len() {
        Err(CompileError::Parse(ParseError::UnterminatedBracket))
    } else {
        match spec_token_at(s, p) {
            Err(e) => Err(CompileError::Lex(e)),
            Ok((t, _)) => match t {
                RegexToken::Literal(c) => if p < s.len() {
                    match sp_advance(s, p) {
                        Err(e) => Err(CompileError::Lex(e)),
                        Ok(p1) => sp_bracket_items(
                            s,
                            cl(s, p + 1, p1),
                            negated,
                            acc.push(NodeView::Literal(c)),
                        ),
                    }
                } else {
                    Err(CompileError::Parse(ParseError::UnterminatedBracket))
                },
                RegexToken::RBracket => Ok(
                    (
                        if negated {
                            NodeView::Not { nodes: acc }
                        } else {
                            NodeView::Or { nodes: acc }
                        },
                        p,
                    ),
                ),
                RegexToken::Eof => Err(CompileError::Parse(ParseError::UnterminatedBracket)),
                _ => Err(CompileError::Parse(ParseError::UnsupportedInBracket)),
            },
        }
    }
}

/// The whole compile pipeline: the parser reads two tokens ahead on
/// construction, then descends from position 0 as the implicit group 0.
pub open spec fn sp_compile(s: Seq<char>) -> Result<NodeView, CompileError> {
    match spec_token_at(s, 0) {
        Err(e) => Err(CompileError::Lex(e)),
        Ok((t0, p1)) => match spec_token_at(s, p1) {
            Err(e) => Err(CompileError::Lex(e)),
            Ok(t1) => match sp_build(s, 0, 0, 0, Seq::empty()) {
                Err(e) => Err(e),
                Ok((nv, pr, g2)) => Ok(nv),
            },
        },
    }
}

/// Where the tokenizer can go: a token never reaches back, never leaves the
/// pattern, advances unless it is `Eof`, and is `Eof` exactly at the end.
pub proof fn lemma_tok_next(s: Seq<char>, p: int)
    requires
        0 <= p <= s.len(),
    ensures
        match spec_token_at(s, p) {
            Ok((t, q)) => p <= q <= s.len() && (!(t is Eof) ==> q >= p + 1) && ((t is Eof) <==> p
                == s.len()),
            Err(e) => true,
        },
{
    if 0 <= p < s.len() {
        if s[p] == '\\' {
            crate::regex_lexer::lemma_run_in_bounds(s, p + 1);
        }
        if s[p] == '{' {
            crate::regex_lexer::lemma_run_in_bounds(s, p + 1);
            let q = p + 1 + crate::regex_lexer::digit_run_len(s, p + 1);
            if 0 <= q + 1 <= s.len() {
                crate::regex_lexer::lemma_run_in_bounds(s, q + 1);
            }
        }
    }
}

/// Where a parse can go: it stops on the terminator its group level owes
/// (`)`, or end of input for the whole pattern), stays within the pattern,
/// and hands out at most one group number per consumed character.
pub proof fn lemma_sp_build_bounds(s: Seq<char>, p: int, gref: int, gctr: int, acc: Seq<NodeView>)
    requires
        0 <= p <= s.len(),
    ensures
        match sp_build(s, p, gref, gctr, acc) {
            Ok((nv, pr, g2)) => p <= pr <= s.len() && gctr <= g2 <= gctr + (pr - p) && (
            match spec_token_at(s, pr) {
                Ok((t, _)) => t is RParen || (t is Eof && gref == 0),
                Err(e) => false,
            }),
            Err(e) => true,
        },
    decreases s.len() - p, 1int,
{
    reveal_with_fuel(sp_build, 1);
    reveal_with_fuel(sp_step, 1);
    lemma_tok_next(s, p);
    match spec_token_at(s, p) {
        Err(e) => {},
        Ok((t, q)) => match t {
            RegexToken::Literal(c) => {
                lemma_sp_step_bounds(s, p, gref, gctr, acc.push(NodeView::Literal(c)));
            },
            RegexToken::Digit => {
                lemma_sp_step_bounds(s, p, gref, gctr, acc.push(NodeView::Digit));
            },
            RegexToken::AlphaNum => {
                lemma_sp_step_bounds(s, p, gref, gctr, acc.push(NodeView::Alphanum));
            },
            RegexToken::Wildcard => {
                lemma_sp_step_bounds(s, p, gref, gctr, acc.push(NodeView::Wildcard));
            },
            RegexToken::StartAnchor => {
                lemma_sp_step_bounds(s, p, gref, gctr, acc.push(NodeView::StartAnchor));
            },
            RegexToken::EndAnchor => {
                lemma_sp_step_bounds(s, p, gref, gctr, acc.push(NodeView::EndAnchor));
            },
            RegexToken::Quantifier { min, max } => {
                if acc.len() > 0 {
                    lemma_sp_step_bounds(
                        s,
                        p,
                        gref,
                        gctr,
                        acc.drop_last().push(
                            NodeView::Quantifier {
                                node: Box::new(acc.last()),
                                min: min as nat,
                                max: opt_nat(max),
                            },
                        ),
                    );
                }
            },
            RegexToken::Pipe => {
                match sp_advance(s, p) {
                    Err(e) => {},
                    Ok(p1) => {
                        lemma_sp_build_bounds(s, cl(s, p + 1, p1), gref, gctr, Seq::empty());
                        match sp_build(s, cl(s, p + 1, p1), gref, gctr, Seq::empty()) {
                            Err(e) => {},
                            Ok((right, pr, g2)) => {
                                let left = NodeView::Group { nodes: acc, group_ref: gref };
                                let both = NodeView::Or { nodes: seq![left, right] };
                                lemma_sp_build_bounds(s, cl(s, p + 1, pr), gref, g2, seq![both]);
                            },
                        }
                    },
                }
            },
            RegexToken::LBracket => {
                match sp_advance(s, p) {
                    Err(e) => {},
                    Ok(p1) => {
                        lemma_sp_bracket_bounds(s, cl(s, p + 1, p1));
                        match sp_bracket(s, cl(s, p + 1, p1)) {
                            Err(e) => {},
                            Ok((bn, pr)) => {
                                lemma_tok_next(s, cl(s, p + 1, pr));
                                match sp_advance(s, cl(s, p + 1, pr)) {
                                    Err(e) => {},
                                    Ok(pc) => {
                                        lemma_sp_build_bounds(
                                            s,
                                            cl(s, p + 1, pc),
                                            gref,
                                            gctr,
                                            acc.push(bn),
                                        );
                                    },
                                }
                            },
                        }
                    },
                }
            },
            RegexToken::LParen => {
                match sp_advance(s, p) {
                    Err(e) => {},
                    Ok(p1) => {
                        lemma_sp_build_bounds(s, cl(s, p + 1, p1), gctr + 1, gctr + 1, Seq::empty());
                        match sp_build(s, cl(s, p + 1, p1), gctr + 1, gctr + 1, Seq::empty()) {
                            Err(e) => {},
                            Ok((child, pr, g2)) => {
                                lemma_tok_next(s, cl(s, p + 1, pr));
                                match sp_advance(s, cl(s, p + 1, pr)) {
                                    Err(e) => {},
                                    Ok(pc) => {
                                        lemma_sp_build_bounds(
                                            s,
                                            cl(s, p + 1, pc),
                                            gref,
                                            g2,
                                            acc.push(child),
                                        );
                                    },
                                }
                            },
                        }
                    },
                }
            },
            RegexToken::BackRef(n) => {},
            RegexToken::RBracket => {},
            RegexToken::RParen => {},
            RegexToken::Eof => {},
        },
    }
}

/// Bounds of one parse step: as `lemma_sp_build_bounds`, after consuming the
/// current (non-terminator) token.
pub proof fn lemma_sp_step_bounds(s: Seq<char>, p: int, gref: int, gctr: int, acc: Seq<NodeView>)
    requires
        0 <= p <= s.len(),
    ensures
        match sp_step(s, p, gref, gctr, acc) {
            Ok((nv, pr, g2)) => p <= pr <= s.len() && gctr <= g2 <= gctr + (pr - p) && (
            match spec_token_at(s, pr) {
                Ok((t, _)) => t is RParen || (t is Eof && gref == 0),
                Err(e) => false,
            }),
            Err(e) => true,
        },
    decreases s.len() - p, 0int,
{
    reveal_with_fuel(sp_build, 1);
    reveal_with_fuel(sp_step, 1);
    if 0 <= p < s.len() {
        match sp_advance(s, p) {
            Err(e) => {},
            Ok(p1) => {
                lemma_sp_build_bounds(s, cl(s, p + 1, p1), gref, gctr, acc);
            },
        }
    }
}

/// Where a bracket parse can go: it stops on the closing `]`, within the
/// pattern.
pub proof fn lemma_sp_bracket_bounds(s: Seq<char>, p: int)
    requires
        0 <= p <= s.len(),
    ensures
        match sp_bracket(s, p) {
            Ok((nv, pr)) => p <= pr <= s.len() && (match spec_token_at(s, pr) {
                Ok((t, _)) => t is RBracket,
                Err(e) => false,
            }),
            Err(e) => true,
        },
    decreases s.len() - p, 1int,
{
    lemma_tok_next(s, p);
    match spec_token_at(s, p) {
        Err(e) => {},
        Ok((t, q)) => {
            if t is StartAnchor {
                match sp_advance(s, p) {
                    Err(e) => {},
                    Ok(p1) => {
                        lemma_sp_bracket_items_bounds(s, cl(s, p + 1, p1), true, Seq::empty());
                    },
                }
            } else {
                lemma_sp_bracket_items_bounds(s, p, false, Seq::empty());
            }
        },
    }
}

/// As `lemma_sp_bracket_bounds`, for the item loop.
pub proof fn lemma_sp_bracket_items_bounds(s: Seq<char>, p: int, negated: bool, acc: Seq<NodeView>)
    requires
        0 <= p <= s.len(),
    ensures
        match sp_bracket_items(s, p, negated, acc) {
            Ok((nv, pr)) => p <= pr <= s.len() && (match spec_token_at(s, pr) {
                Ok((t, _)) => t is RBracket,
                Err(e) => false,
            }),
            Err(e) => true,
        },
    decreases s.len() - p, 0int,
{
    lemma_tok_next(s, p);
    match spec_token_at(s, p) {
        Err(e) => {},
        Ok((t, q)) => match t {
            RegexToken::Literal(c) => {
                if p < s.len() {
                    match sp_advance(s, p) {
                        Err(e) => {},
                        Ok(p1) => {
                            lemma_sp_bracket_items_bounds(
                                s,
                                cl(s, p + 1, p1),
                                negated,
                                acc.push(NodeView::Literal(c)),
                            );
                        },
                    }
                }
            },
            _ => {},
        },
    }
}

/// The view an atom token parses to, if the token is an atom.
pub open spec fn atom_tok_view(t: RegexToken) -> Option<NodeView> {
    match t {
        RegexToken::Literal(c) => Some(NodeView::Literal(c)),
        RegexToken::Digit => Some(NodeView::Digit),
        RegexToken::AlphaNum => Some(NodeView::Alphanum),
        RegexToken::Wildcard => Some(NodeView::Wildcard),
        RegexToken::StartAnchor => Some(NodeView::StartAnchor),
        RegexToken::EndAnchor => Some(NodeView::EndAnchor),
        _ => None,
    }
}

/// The current token is consumed by the parse step (it neither terminates
/// the level nor is rejected).
pub open spec fn consuming_tok(t: RegexToken) -> bool {
    match t {
        RegexToken::Eof => false,
        RegexToken::RParen => false,
        RegexToken::RBracket => false,
        RegexToken::BackRef(n) => false,
        _ => true,
    }
}

/// Consuming an atom appends its view and moves on.
pub proof fn lemma_build_atom(s: Seq<char>, p: int, gref: int, gctr: int, acc: Seq<NodeView>, v: NodeView)
    requires
        0 <= p <= s.len(),
        match spec_token_at(s, p) {
            Ok((t, q)) => atom_tok_view(t) == Some(v),
            Err(e) => false,
        },
        sp_advance(s, p) is Ok,
    ensures
        sp_build(s, p, gref, gctr, acc) == sp_build(s, nx(s, p), gref, gctr, acc.push(v)),
{
    reveal_with_fuel(sp_build, 1);
    reveal_with_fuel(sp_step, 1);
    lemma_tok_next(s, p);
    assert(p < s.len());
    assert(p + 1 <= nx(s, p) <= s.len());
    assert(cl(s, p + 1, nx(s, p)) == nx(s, p));
    assert(sp_build(s, p, gref, gctr, acc) == sp_step(s, p, gref, gctr, acc.push(v)));
    assert(sp_step(s, p, gref, gctr, acc.push(v)) == sp_build(
        s,
        nx(s, p),
        gref,
        gctr,
        acc.push(v),
    ));
}

/// A lexical error in the pulled lookahead surfaces when any consuming
/// token is processed.
pub proof fn lemma_build_adv_err(s: Seq<char>, p: int, gref: int, gctr: int, acc: Seq<NodeView>)
    requires
        0 <= p <= s.len(),
        match spec_token_at(s, p) {
            Ok((t, q)) => consuming_tok(t) && (t is Quantifier ==> acc.len() > 0),
            Err(e) => false,
        },
        sp_advance(s, p) is Err,
    ensures
        sp_build(s, p, gref, gctr, acc) == Err::<(NodeView, int, int), CompileError>(
            CompileError::Lex(sp_advance(s, p)->Err_0),
        ),
{
    reveal_with_fuel(sp_build, 1);
    reveal_with_fuel(sp_step, 1);
    lemma_tok_next(s, p);
    assert(p < s.len());
    let e = sp_advance(s, p)->Err_0;
    match spec_token_at(s, p) {
        Err(e2) => {},
        Ok((t, q)) => match t {
            RegexToken::Literal(c) => {
                assert(sp_step(s, p, gref, gctr, acc.push(NodeView::Literal(c)))
                    == Err::<(NodeView, int, int), CompileError>(CompileError::Lex(e)));
            },
            RegexToken::Digit => {
                assert(sp_step(s, p, gref, gctr, acc.push(NodeView::Digit))
                    == Err::<(NodeView, int, int), CompileError>(CompileError::Lex(e)));
            },
            RegexToken::AlphaNum => {
                assert(sp_step(s, p, gref, gctr, acc.push(NodeView::Alphanum))
                    == Err::<(NodeView, int, int), CompileError>(CompileError::Lex(e)));
            },
            RegexToken::Wildcard => {
                assert(sp_step(s, p, gref, gctr, acc.push(NodeView::Wildcard))
                    == Err::<(NodeView, int, int), CompileError>(CompileError::Lex(e)));
            },
            RegexToken::StartAnchor => {
                assert(sp_step(s, p, gref, gctr, acc.push(NodeView::StartAnchor))
                    == Err::<(NodeView, int, int), CompileError>(CompileError::Lex(e)));
            },
            RegexToken::EndAnchor => {
                assert(sp_step(s, p, gref, gctr, acc.push(NodeView::EndAnchor))
                    == Err::<(NodeView, int, int), CompileError>(CompileError::Lex(e)));
            },
            RegexToken::Quantifier { min, max } => {
                assert(sp_step(
                    s,
                    p,
                    gref,
                    gctr,
                    acc.drop_last().push(
                        NodeView::Quantifier {
                            node: Box::new(acc.last()),
                            min: min as nat,
                            max: opt_nat(max),
                        },
                    ),
                ) == Err::<(NodeView, int, int), CompileError>(CompileError::Lex(e)));
            },
            _ => {},
        },
    }
}

/// Consuming a quantifier wraps the node built last.
pub proof fn lemma_build_quant(
    s: Seq<char>,
    p: int,
    gref: int,
    gctr: int,
    acc: Seq<NodeView>,
    min: usize,
    max: Option<usize>,
)
    requires
        0 <= p <= s.len(),
        match spec_token_at(s, p) {
            Ok((t, q)) => t == (RegexToken::Quantifier { min, max }),
            Err(e) => false,
        },
        acc.len() > 0,
        sp_advance(s, p) is Ok,
    ensures
        sp_build(s, p, gref, gctr, acc) == sp_build(
            s,
            nx(s, p),
            gref,
            gctr,
            acc.drop_last().push(
                NodeView::Quantifier {
                    node: Box::new(acc.last()),
                    min: min as nat,
                    max: opt_nat(max),
                },
            ),
        ),
{
    reveal_with_fuel(sp_build, 1);
    reveal_with_fuel(sp_step, 1);
    lemma_tok_next(s, p);
    assert(acc.drop_last() =~= acc.subrange(0, acc.len() - 1));
    assert(p < s.len());
    assert(p + 1 <= nx(s, p) <= s.len());
    assert(cl(s, p + 1, nx(s, p)) == nx(s, p));
    let acc2 = acc.drop_last().push(
        NodeView::Quantifier { node: Box::new(acc.last()), min: min as nat, max: opt_nat(max) },
    );
    assert(sp_build(s, p, gref, gctr, acc) == sp_step(s, p, gref, gctr, acc2));
    assert(sp_step(s, p, gref, gctr, acc2) == sp_build(s, nx(s, p), gref, gctr, acc2));
}

/// A quantifier with nothing before it is a parse error.
pub proof fn lemma_build_quant_empty(s: Seq<char>, p: int, gref: int, gctr: int)
    requires
        0 <= p <= s.len(),
        match spec_token_at(s, p) {
            Ok((t, q)) => t is Quantifier,
            Err(e) => false,
        },
    ensures
        sp_build(s, p, gref, gctr, Seq::<NodeView>::empty()) == Err::<
            (NodeView, int, int),
            CompileError,
        >(CompileError::Parse(ParseError::MisplacedQuantifier)),
{
    reveal_with_fuel(sp_build, 1);
    reveal_with_fuel(sp_step, 1);
}

/// Alternation: the accumulated sequence becomes the left alternative, the
/// remainder up to the enclosing terminator the right one.
pub proof fn lemma_build_pipe(s: Seq<char>, p: int, gref: int, gctr: int, acc: Seq<NodeView>)
    requires
        0 <= p <= s.len(),
        match spec_token_at(s, p) {
            Ok((t, q)) => t is Pipe,
            Err(e) => false,
        },
        sp_advance(s, p) is Ok,
    ensures
        ({
            let p1 = nx(s, p);
            match sp_build(s, p1, gref, gctr, Seq::empty()) {
                Err(e) => sp_build(s, p, gref, gctr, acc) == Err::<
                    (NodeView, int, int),
                    CompileError,
                >(e),
                Ok((right, pr, g2)) => p1 <= pr <= s.len() && sp_build(s, p, gref, gctr, acc)
                    == sp_build(
                    s,
                    pr,
                    gref,
                    g2,
                    seq![
                        NodeView::Or {
                            nodes: seq![
                                NodeView::Group { nodes: acc, group_ref: gref },
                                right,
                            ],
                        },
                    ],
                ),
            }
        }),
{
    reveal_with_fuel(sp_build, 1);
    reveal_with_fuel(sp_step, 1);
    lemma_tok_next(s, p);
    let p1 = nx(s, p);
    lemma_sp_build_bounds(s, p1, gref, gctr, Seq::empty());
}

/// A bracket expression is parsed aside and appended; its closing `]` is
/// then consumed.
pub proof fn lemma_build_bracket(s: Seq<char>, p: int, gref: int, gctr: int, acc: Seq<NodeView>)
    requires
        0 <= p <= s.len(),
        match spec_token_at(s, p) {
            Ok((t, q)) => t is LBracket,
            Err(e) => false,
        },
        sp_advance(s, p) is Ok,
    ensures
        ({
            let p1 = nx(s, p);
            match sp_bracket(s, p1) {
                Err(e) => sp_build(s, p, gref, gctr, acc) == Err::<
                    (NodeView, int, int),
                    CompileError,
                >(e),
                Ok((bn, pr)) => p1 <= pr <= s.len() && (match sp_advance(s, pr) {
                    Err(e) => sp_build(s, p, gref, gctr, acc) == Err::<
                        (NodeView, int, int),
                        CompileError,
                    >(CompileError::Lex(e)),
                    Ok(pc) => pr < pc <= s.len() && sp_build(s, p, gref, gctr, acc) == sp_build(
                        s,
                        pc,
                        gref,
                        gctr,
                        acc.push(bn),
                    ),
                }),
            }
        }),
{
    reveal_with_fuel(sp_build, 1);
    reveal_with_fuel(sp_step, 1);
    lemma_tok_next(s, p);
    let p1 = nx(s, p);
    lemma_sp_bracket_bounds(s, p1);
    match sp_bracket(s, p1) {
        Err(e) => {},
        Ok((bn, pr)) => {
            lemma_tok_next(s, pr);
        },
    }
}

/// A parenthesized group opens the next capture group, is parsed by a
/// nested level, and its closing `)` is then consumed.
pub proof fn lemma_build_paren(s: Seq<char>, p: int, gref: int, gctr: int, acc: Seq<NodeView>)
    requires
        0 <= p <= s.len(),
        0 <= gctr,
        match spec_token_at(s, p) {
            Ok((t, q)) => t is LParen,
            Err(e) => false,
        },
        sp_advance(s, p) is Ok,
    ensures
        ({
            let p1 = nx(s, p);
            match sp_build(s, p1, gctr + 1, gctr + 1, Seq::empty()) {
                Err(e) => sp_build(s, p, gref, gctr, acc) == Err::<
                    (NodeView, int, int),
                    CompileError,
                >(e),
                Ok((child, pr, g2)) => p1 <= pr <= s.len() && (match sp_advance(s, pr) {
                    Err(e) => sp_build(s, p, gref, gctr, acc) == Err::<
                        (NodeView, int, int),
                        CompileError,
                    >(CompileError::Lex(e)),
                    Ok(pc) => pr < pc <= s.len() && sp_build(s, p, gref, gctr, acc) == sp_build(
                        s,
                        pc,
                        gref,
                        g2,
                        acc.push(child),
                    ),
                }),
            }
        }),
{
    reveal_with_fuel(sp_build, 1);
    reveal_with_fuel(sp_step, 1);
    lemma_tok_next(s, p);
    let p1 = nx(s, p);
    lemma_sp_build_bounds(s, p1, gctr + 1, gctr + 1, Seq::empty());
    match sp_build(s, p1, gctr + 1, gctr + 1, Seq::empty()) {
        Err(e) => {},
        Ok((child, pr, g2)) => {
            lemma_tok_next(s, pr);
        },
    }
}

/// The terminators and the rejected tokens end the level immediately.
pub proof fn lemma_build_end(s: Seq<char>, p: int, gref: int, gctr: int, acc: Seq<NodeView>)
    requires
        0 <= p <= s.len(),
        match spec_token_at(s, p) {
            Ok((t, q)) => !consuming_tok(t),
            Err(e) => false,
        },
    ensures
        sp_build(s, p, gref, gctr, acc) == (match spec_token_at(s, p)->Ok_0.0 {
            RegexToken::RParen => Ok::<(NodeView, int, int), CompileError>(
                (NodeView::Group { nodes: acc, group_ref: gref }, p, gctr),
            ),
            RegexToken::Eof => if gref == 0 {
                Ok::<(NodeView, int, int), CompileError>(
                    (NodeView::Group { nodes: acc, group_ref: 0 }, p, gctr),
                )
            } else {
                Err::<(NodeView, int, int), CompileError>(
                    CompileError::Parse(ParseError::UnterminatedGroup),
                )
            },
            _ => Err::<(NodeView, int, int), CompileError>(
                CompileError::Parse(ParseError::UnsupportedToken),
            ),
        }),
{
    reveal_with_fuel(sp_build, 1);
    reveal_with_fuel(sp_step, 1);
}

/// The recursive-descent parser: a lexer and a two-token window over its
/// stream, plus the capture-group counter.
pub struct RegexParser {
    l: RegexLexer,
    cur_token: RegexToken,
    peek_token: RegexToken,
    group_ref: usize,
    cur_pos: Ghost<int>,
}

impl RegexParser {
    /// The pattern under parse.
    pub closed spec fn pattern(&self) -> Seq<char> {
        self.l.pattern()
    }

    /// The position where the current token begins.
    pub closed spec fn pos(&self) -> int {
        self.cur_pos@
    }

    /// The last capture-group number handed out.
    pub closed spec fn groups(&self) -> int {
        self.group_ref as int
    }

    /// The window is consistent: the current and lookahead tokens are what
    /// the tokenizer reads at the cursor, and the lexer stands just past the
    /// lookahead.  The group counter leaves room for the groups the rest of
    /// the pattern could still open.
    pub closed spec fn wf(&self) -> bool {
        &&& self.l.wf()
        &&& 0 <= self.cur_pos@ <= self.pattern().len()
        &&& spec_token_at(self.pattern(), self.cur_pos@) == Ok::<(RegexToken, int), LexError>(
            (self.cur_token, nx(self.pattern(), self.cur_pos@)),
        )
        &&& spec_token_at(self.pattern(), nx(self.pattern(), self.cur_pos@)) == Ok::<
            (RegexToken, int),
            LexError,
        >((self.peek_token, nx(self.pattern(), nx(self.pattern(), self.cur_pos@))))
        &&& self.l.pos() == nx(self.pattern(), nx(self.pattern(), self.cur_pos@))
        &&& self.group_ref + (self.pattern().len() - self.cur_pos@) <= usize::MAX
    }

    /// Build a parser over the lexer's stream, pulling the first two tokens
    /// into the window.
    pub fn new(lexer: RegexLexer) -> (r: Result<Self, LexError>)
        requires
            lexer.wf(),
        ensures
            ({
                let s = lexer.pattern();
                let q0 = lexer.pos();
                match spec_token_at(s, q0) {
                    Err(e) => r == Err::<Self, LexError>(e),
                    Ok((t0, p1)) => match spec_token_at(s, p1) {
                        Err(e) => r == Err::<Self, LexError>(e),
                        Ok(t1) => r is Ok && r->Ok_0.wf() && r->Ok_0.pattern() == s
                            && r->Ok_0.pos() == q0 && r->Ok_0.groups() == 0,
                    },
                }
            }),
    {
        let mut l = lexer;
        let ghost s = l.pattern();
        let ghost q0 = l.pos();
        let t0 = match l.next_token() {
            Ok(t) => t,
            Err(e) => {
                return Err(e);
            },
        };
        let t1 = match l.next_token() {
            Ok(t) => t,
            Err(e) => {
                return Err(e);
            },
        };
        let parser = RegexParser {
            l,
            cur_token: t0,
            peek_token: t1,
            group_ref: 0,
            cur_pos: Ghost(q0),
        };
        proof {
            lemma_tok_next(s, q0);
        }
        Ok(parser)
    }

    /// Shift the window by one token, pulling the next token from the lexer.
    pub fn next_token(&mut self) -> (r: Result<(), LexError>)
        requires
            old(self).wf(),
        ensures
            final(self).pattern() == old(self).pattern(),
            final(self).groups() == old(self).groups(),
            match sp_advance(old(self).pattern(), old(self).pos()) {
                Ok(p1) => r == Ok::<(), LexError>(()) && final(self).wf() && final(self).pos()
                    == p1,
                Err(e) => r == Err::<(), LexError>(e),
            },
    {
        let ghost s = self.pattern();
        let ghost p0 = self.pos();
        self.cur_token = self.peek_token;
        proof {
            self.cur_pos@ = nx(s, p0);
        }
        let t = match self.l.next_token() {
            Ok(t) => t,
            Err(e) => {
                return Err(e);
            },
        };
        self.peek_token = t;
        proof {
            lemma_tok_next(s, p0);
            lemma_tok_next(s, nx(s, p0));
        }
        Ok(())
    }

    /// Build a bracket expression.  On entry the parser stands on the first
    /// token after `[`; only literals are collected, a leading `^` negates
    /// the class.  Returns with the closing `]` still the current token.
    pub fn build_bracket_group(&mut self) -> (r: Result<Node, CompileError>)
        requires
            old(self).wf(),
        ensures
            final(self).pattern() == old(self).pattern(),
            final(self).groups() == old(self).groups(),
            match sp_bracket(old(self).pattern(), old(self).pos()) {
                Ok((nv, pr)) => r is Ok && ast_of(r->Ok_0) == nv && final(self).wf()
                    && final(self).pos() == pr,
                Err(e) => r == Err::<Node, CompileError>(e),
            },
    {
        let ghost s = self.pattern();
        let ghost p_entry = self.pos();
        let ghost btarget = sp_bracket(s, p_entry);
        let mut nodes: Vec<Node> = Vec::new();
        let mut negated = false;
        if let RegexToken::StartAnchor = self.cur_token {
            proof {
                lemma_tok_next(s, p_entry);
            }
            match self.next_token() {
                Ok(u) => {},
                Err(e) => {
                    return Err(CompileError::Lex(e));
                },
            }
            negated = true;
        }
        proof {
            assert(sp_bracket_items(s, self.pos(), negated, asts_of(nodes@)) == btarget);
        }
        loop
            invariant
                self.wf(),
                self.pattern() == s,
                s == old(self).pattern(),
                p_entry == old(self).pos(),
                self.groups() == old(self).groups(),
                btarget == sp_bracket(s, p_entry),
                sp_bracket_items(s, self.pos(), negated, asts_of(nodes@)) == btarget,
            decreases s.len() - self.pos(),
        {
            let ghost p_loop = self.pos();
            let ghost acc_loop = asts_of(nodes@);
            proof {
                lemma_tok_next(s, p_loop);
            }
            match self.cur_token {
                RegexToken::Literal(x) => {
                    let ghost before = nodes@;
                    nodes.push(Node::Literal(x));
                    proof {
                        lemma_asts_of_push(before, Node::Literal(x));
                    }
                },
                RegexToken::RBracket => {
                    let ghost nodes_view = nodes@;
                    let final_node = if negated {
                        Node::Not { nodes }
                    } else {
                        Node::Or { nodes }
                    };
                    proof {
                        assert(ast_of(final_node) == (if negated {
                            NodeView::Not { nodes: asts_of(nodes_view) }
                        } else {
                            NodeView::Or { nodes: asts_of(nodes_view) }
                        }));
                    }
                    return Ok(final_node);
                },
                RegexToken::Eof => {
                    return Err(CompileError::Parse(ParseError::UnterminatedBracket));
                },
                _ => {
                    return Err(CompileError::Parse(ParseError::UnsupportedInBracket));
                },
            }
            match self.next_token() {
                Ok(u) => {},
                Err(e) => {
                    return Err(CompileError::Lex(e));
                },
            }
        }
    }

    /// Build the AST for one group level, until the terminator this level
    /// owes (`)` for a parenthesized group, end of input for the whole
    /// pattern).  Alternation splits what was accumulated into the left
    /// alternative; a quantifier wraps the node before it.
    pub fn build_ast(&mut self, group_ref: usize) -> (r: Result<Node, CompileError>)
        requires
            old(self).wf(),
        ensures
            final(self).pattern() == old(self).pattern(),
            match sp_build(
                old(self).pattern(),
                old(self).pos(),
                group_ref as int,
                old(self).groups(),
                Seq::empty(),
            ) {
                Ok((nv, pr, g2)) => r is Ok && ast_of(r->Ok_0) == nv && final(self).wf()
                    && final(self).pos() == pr && final(self).groups() == g2,
                Err(e) => r == Err::<Node, CompileError>(e),
            },
        decreases self.pattern().len() - self.pos(),
    {
        let ghost s = self.pattern();
        let ghost p_entry = self.pos();
        let ghost target = sp_build(s, p_entry, group_ref as int, self.groups(), Seq::empty());
        let mut nodes: Vec<Node> = Vec::new();
        loop
            invariant
                self.wf(),
                self.pattern() == s,
                s == old(self).pattern(),
                p_entry == old(self).pos(),
                0 <= p_entry <= self.pos(),
                target == sp_build(
                    old(self).pattern(),
                    old(self).pos(),
                    group_ref as int,
                    old(self).groups(),
                    Seq::empty(),
                ),
                target == sp_build(s, self.pos(), group_ref as int, self.groups(), asts_of(nodes@)),
            decreases s.len() - self.pos(),
        {
            let ghost p_loop = self.pos();
            let ghost g_loop = self.groups();
            let ghost acc_loop = asts_of(nodes@);
            proof {
                lemma_tok_next(s, p_loop);
            }
            match self.cur_token {
                RegexToken::Literal(x) => {
                    let ghost before = nodes@;
                    nodes.push(Node::Literal(x));
                    match self.next_token() {
                        Ok(u) => {},
                        Err(e) => {
                            proof {
                                lemma_build_adv_err(s, p_loop, group_ref as int, g_loop, acc_loop);
                            }
                            return Err(CompileError::Lex(e));
                        },
                    }
                    proof {
                        lemma_asts_of_push(before, Node::Literal(x));
                        lemma_build_atom(
                            s,
                            p_loop,
                            group_ref as int,
                            g_loop,
                            acc_loop,
                            NodeView::Literal(x),
                        );
                    }
                },
                RegexToken::Digit => {
                    let ghost before = nodes@;
                    nodes.push(Node::Digit);
                    match self.next_token() {
                        Ok(u) => {},
                        Err(e) => {
                            proof {
                                lemma_build_adv_err(s, p_loop, group_ref as int, g_loop, acc_loop);
                            }
                            return Err(CompileError::Lex(e));
                        },
                    }
                    proof {
                        lemma_asts_of_push(before, Node::Digit);
                        lemma_build_atom(
                            s,
                            p_loop,
                            group_ref as int,
                            g_loop,
                            acc_loop,
                            NodeView::Digit,
                        );
                    }
                },
                RegexToken::AlphaNum => {
                    let ghost before = nodes@;
                    nodes.push(Node::Alphanum);
                    match self.next_token() {
                        Ok(u) => {},
                        Err(e) => {
                            proof {
                                lemma_build_adv_err(s, p_loop, group_ref as int, g_loop, acc_loop);
                            }
                            return Err(CompileError::Lex(e));
                        },
                    }
                    proof {
                        lemma_asts_of_push(before, Node::Alphanum);
                        lemma_build_atom(
                            s,
                            p_loop,
                            group_ref as int,
                            g_loop,
                            acc_loop,
                            NodeView::Alphanum,
                        );
                    }
                },
                RegexToken::Wildcard => {
                    let ghost before = nodes@;
                    nodes.push(Node::Wildcard);
                    match self.next_token() {
                        Ok(u) => {},
                        Err(e) => {
                            proof {
                                lemma_build_adv_err(s, p_loop, group_ref as int, g_loop, acc_loop);
                            }
                            return Err(CompileError::Lex(e));
                        },
                    }
                    proof {
                        lemma_asts_of_push(before, Node::Wildcard);
                        lemma_build_atom(
                            s,
                            p_loop,
                            group_ref as int,
                            g_loop,
                            acc_loop,
                            NodeView::Wildcard,
                        );
                    }
                },
                RegexToken::StartAnchor => {
                    let ghost before = nodes@;
                    nodes.push(Node::StartAnchor);
                    match self.next_token() {
                        Ok(u) => {},
                        Err(e) => {
                            proof {
                                lemma_build_adv_err(s, p_loop, group_ref as int, g_loop, acc_loop);
                            }
                            return Err(CompileError::Lex(e));
                        },
                    }
                    proof {
                        lemma_asts_of_push(before, Node::StartAnchor);
                        lemma_build_atom(
                            s,
                            p_loop,
                            group_ref as int,
                            g_loop,
                            acc_loop,
                            NodeView::StartAnchor,
                        );
                    }
                },
                RegexToken::EndAnchor => {
                    let ghost before = nodes@;
                    nodes.push(Node::EndAnchor);
                    match self.next_token() {
                        Ok(u) => {},
                        Err(e) => {
                            proof {
                                lemma_build_adv_err(s, p_loop, group_ref as int, g_loop, acc_loop);
                            }
                            return Err(CompileError::Lex(e));
                        },
                    }
                    proof {
                        lemma_asts_of_push(before, Node::EndAnchor);
                        lemma_build_atom(
                            s,
                            p_loop,
                            group_ref as int,
                            g_loop,
                            acc_loop,
                            NodeView::EndAnchor,
                        );
                    }
                },
                RegexToken::Quantifier { min, max } => {
                    let ghost before = nodes@;
                    proof {
                        lemma_asts_of(before);
                    }
                    match nodes.pop() {
                        None => {
                            proof {
                                assert(acc_loop =~= Seq::<NodeView>::empty());
                                lemma_build_quant_empty(s, p_loop, group_ref as int, g_loop);
                            }
                            return Err(CompileError::Parse(ParseError::MisplacedQuantifier));
                        },
                        Some(prev_node) => {
                            let qnode = Node::Quantifier { node: Box::new(prev_node), min, max };
                            let ghost after_pop = nodes@;
                            nodes.push(qnode);
                            match self.next_token() {
                                Ok(u) => {},
                                Err(e) => {
                                    proof {
                                        lemma_build_adv_err(
                                            s,
                                            p_loop,
                                            group_ref as int,
                                            g_loop,
                                            acc_loop,
                                        );
                                    }
                                    return Err(CompileError::Lex(e));
                                },
                            }
                            proof {
                                assert(after_pop == before.drop_last());
                                assert(prev_node == before.last());
                                assert(before.drop_last() =~= before.subrange(
                                    0,
                                    before.len() - 1,
                                ));
                                assert(asts_of(after_pop) =~= acc_loop.drop_last());
                                assert(acc_loop.last() == ast_of(before.last()));
                                lemma_asts_of_push(after_pop, qnode);
                                lemma_build_quant(
                                    s,
                                    p_loop,
                                    group_ref as int,
                                    g_loop,
                                    acc_loop,
                                    min,
                                    max,
                                );
                            }
                        },
                    }
                },
                RegexToken::Pipe => {
                    match self.next_token() {
                        Ok(u) => {},
                        Err(e) => {
                            proof {
                                lemma_build_adv_err(s, p_loop, group_ref as int, g_loop, acc_loop);
                            }
                            return Err(CompileError::Lex(e));
                        },
                    }
                    let right = match self.build_ast(group_ref) {
                        Ok(n) => n,
                        Err(e) => {
                            proof {
                                lemma_build_pipe(s, p_loop, group_ref as int, g_loop, acc_loop);
                            }
                            return Err(e);
                        },
                    };
                    proof {
                        lemma_build_pipe(s, p_loop, group_ref as int, g_loop, acc_loop);
                    }
                    let ghost nodes_view = nodes@;
                    let left = Node::Group { nodes, group_ref };
                    let mut alts: Vec<Node> = Vec::new();
                    alts.push(left);
                    alts.push(right);
                    let or_node = Node::Or { nodes: alts };
                    nodes = Vec::new();
                    nodes.push(or_node);
                    proof {
                        let leftv = NodeView::Group { nodes: acc_loop, group_ref: group_ref as int };
                        let rightv = ast_of(right);
                        assert(asts_of(Seq::<Node>::empty()) =~= Seq::<NodeView>::empty());
                        lemma_asts_of_push(Seq::<Node>::empty(), left);
                        lemma_asts_of_push(seq![left], right);
                        assert(alts@ =~= seq![left, right]);
                        assert(seq![left, right].drop_last() =~= seq![left]);
                        assert(asts_of(alts@) =~= seq![leftv, rightv]);
                        lemma_asts_of_push(Seq::<Node>::empty(), or_node);
                        assert(nodes@ =~= seq![or_node]);
                        assert(asts_of(nodes@) =~= seq![
                            NodeView::Or { nodes: seq![leftv, rightv] },
                        ]);
                    }
                },
                RegexToken::LBracket => {
                    match self.next_token() {
                        Ok(u) => {},
                        Err(e) => {
                            proof {
                                lemma_build_adv_err(s, p_loop, group_ref as int, g_loop, acc_loop);
                            }
                            return Err(CompileError::Lex(e));
                        },
                    }
                    let bnode = match self.build_bracket_group() {
                        Ok(n) => n,
                        Err(e) => {
                            proof {
                                lemma_build_bracket(s, p_loop, group_ref as int, g_loop, acc_loop);
                            }
                            return Err(e);
                        },
                    };
                    let ghost before = nodes@;
                    nodes.push(bnode);
                    match self.next_token() {
                        Ok(u) => {},
                        Err(e) => {
                            proof {
                                lemma_build_bracket(s, p_loop, group_ref as int, g_loop, acc_loop);
                            }
                            return Err(CompileError::Lex(e));
                        },
                    }
                    proof {
                        lemma_asts_of_push(before, bnode);
                        lemma_build_bracket(s, p_loop, group_ref as int, g_loop, acc_loop);
                    }
                },
                RegexToken::LParen => {
                    match self.next_token() {
                        Ok(u) => {},
                        Err(e) => {
                            proof {
                                lemma_build_adv_err(s, p_loop, group_ref as int, g_loop, acc_loop);
                            }
                            return Err(CompileError::Lex(e));
                        },
                    }
                    proof {
                        assert(g_loop + 1 <= usize::MAX);
                    }
                    let gr = self.group_ref + 1;
                    self.group_ref = gr;
                    let child = match self.build_ast(gr) {
                        Ok(n) => n,
                        Err(e) => {
                            proof {
                                lemma_build_paren(s, p_loop, group_ref as int, g_loop, acc_loop);
                            }
                            return Err(e);
                        },
                    };
                    let ghost before = nodes@;
                    nodes.push(child);
                    match self.next_token() {
                        Ok(u) => {},
                        Err(e) => {
                            proof {
                                lemma_build_paren(s, p_loop, group_ref as int, g_loop, acc_loop);
                            }
                            return Err(CompileError::Lex(e));
                        },
                    }
                    proof {
                        lemma_asts_of_push(before, child);
                        lemma_build_paren(s, p_loop, group_ref as int, g_loop, acc_loop);
                    }
                },
                RegexToken::RParen => {
                    proof {
                        lemma_build_end(s, p_loop, group_ref as int, g_loop, acc_loop);
                    }
                    let ghost nodes_view = nodes@;
                    let g = Node::Group { nodes, group_ref };
                    proof {
                        assert(ast_of(g) == (NodeView::Group {
                            nodes: asts_of(nodes_view),
                            group_ref: group_ref as int,
                        }));
                    }
                    return Ok(g);
                },
                RegexToken::Eof => {
                    proof {
                        lemma_build_end(s, p_loop, group_ref as int, g_loop, acc_loop);
                    }
                    if group_ref == 0 {
                        let ghost nodes_view = nodes@;
                        let g = Node::Group { nodes, group_ref: 0 };
                        proof {
                            assert(ast_of(g) == (NodeView::Group {
                                nodes: asts_of(nodes_view),
                                group_ref: 0,
                            }));
                        }
                        return Ok(g);
                    } else {
                        return Err(CompileError::Parse(ParseError::UnterminatedGroup));
                    }
                },
                RegexToken::BackRef(_) => {
                    proof {
                        lemma_build_end(s, p_loop, group_ref as int, g_loop, acc_loop);
                    }
                    return Err(CompileError::Parse(ParseError::UnsupportedToken));
                },
                RegexToken::RBracket => {
                    proof {
                        lemma_build_end(s, p_loop, group_ref as int, g_loop, acc_loop);
                    }
                    return Err(CompileError::Parse(ParseError::UnsupportedToken));
                },
            }
        }
    }
}

} // verus!
