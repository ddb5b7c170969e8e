//! A small regular-expression engine.
//!
//! The engine is a three-stage pipeline: a tokenizer ([`regex_lexer`]) turns a
//! pattern string into tokens, a recursive-descent parser ([`regex_parser`])
//! builds an abstract syntax tree, and a backtracking matcher
//! ([`regex_matcher`]) walks that tree against a text using a frontier of live
//! cursor positions.  Every stage is specified against a mathematical model:
//! the tokenizer against [`regex_lexer::spec_token_at`], the parser against
//! [`regex_parser::sp_build`], and the matcher against [`regex_matcher::adv`].

use vstd::prelude::*;

pub mod laws;
pub mod regex_lexer;
pub mod regex_matcher;
pub mod regex_parser;

use crate::regex_lexer::RegexLexer;
use crate::regex_matcher::MatchError;
use crate::regex_matcher::Matcher;
use crate::regex_matcher::sp_is_match;
use crate::regex_parser::CompileError;
use crate::regex_parser::Node;
use crate::regex_parser::RegexParser;
use crate::regex_parser::ast_of;
use crate::regex_parser::sp_compile;

verus! {

/// What `compile` promises: the result is pinned by [`sp_compile`], the
/// mathematical compile pipeline — the same error, or an AST whose deep
/// view is the mathematical parse.
pub open spec fn compile_post(s: Seq<char>, r: Result<Node, CompileError>) -> bool {
    match sp_compile(s) {
        Ok(nv) => r is Ok && ast_of(r->Ok_0) == nv,
        Err(e) => r == Err::<Node, CompileError>(e),
    }
}

/// Compile a pattern string into an AST: tokenizer then parser.
pub fn compile(pattern: &str) -> (r: Result<Node, CompileError>)
    ensures
        compile_post(pattern@, r),
{
    let lexer = RegexLexer::new(pattern);
    let mut parser = match RegexParser::new(lexer) {
        Ok(p) => p,
        Err(e) => {
            return Err(CompileError::Lex(e));
        },
    };
    parser.build_ast(0)
}

/// Unanchored search: does `node` match anywhere in `chars`?  Seeds the
/// frontier with every offset of the text and walks the tree once.
pub fn is_match(node: &Node, chars: &[char]) -> (r: Result<bool, MatchError>)
    requires
        chars@.len() < usize::MAX,
    ensures
        r == sp_is_match(ast_of(*node), chars@),
{
    let mut matcher = Matcher::new(chars.len());
    matcher.matches(node, chars)
}

} // verus!
