use regex_engine::compile;
use regex_engine::is_match;
use regex_engine::regex_lexer::LexError;
use regex_engine::regex_lexer::RegexLexer;
use regex_engine::regex_matcher::Matcher;
use regex_engine::regex_parser::CompileError;
use regex_engine::regex_parser::Node;
use regex_engine::regex_parser::ParseError;
use regex_engine::regex_parser::RegexParser;

/// Compile `pat` and search it anywhere in `text`.
fn run(pat: &str, text: &str) -> bool {
    let node = compile(pat).expect("pattern should compile");
    let chars: Vec<char> = text.chars().collect();
    is_match(&node, &chars).expect("pattern should be matchable")
}

fn rejected_with(pat: &str) -> CompileError {
    match compile(pat) {
        Ok(_) => panic!("expected a compile error"),
        Err(e) => e,
    }
}

#[test]
fn match_groups_and_classes() {
    assert!(run("(a(b))\\de\\w.f", "ab5e_%f"));
}

#[test]
fn match_alternation_picks_any_branch() {
    assert!(run("(b|bc|de|fg)d45", "ded45h_"));
}

#[test]
fn match_quantifier_chain() {
    assert!(run("ba?c+d{2,3}f*g", "bccdddffffffffg"));
}

#[test]
fn match_quantifier_run_too_short() {
    assert!(!run("ba?c+d{2,3}f*g", "bccdffffffffg"));
}

#[test]
fn match_negated_class_excludes() {
    assert!(!run("Ap[^pb]le", "Apple is good"));
}

#[test]
fn match_negated_class_allows() {
    assert!(run("Ap[^ab]le", "Apple is good"));
}

#[test]
fn match_dot_star_spans() {
    assert!(run("a.*b", "assgshgsoghsfohgsfoghsfghsgbe"));
}

#[test]
fn match_anchored_group_quantifier() {
    assert!(run("^aa(wz)?43", "aawz43xuy"));
}

#[test]
fn match_anchored_alternation() {
    assert!(run("^(aa|bb)(ef)", "bbefg"));
}

#[test]
fn match_anchor_rejects_leading_space() {
    assert!(!run("^(aa|bb)(ef)", " bbefg"));
}

#[test]
fn match_anchor_rejects_offset_match() {
    assert!(!run("^aa", "baa"));
}

#[test]
fn match_end_anchor_at_end() {
    assert!(run("aa$", "xaa"));
    assert!(!run("aa$", "aaaaab"));
}

#[test]
fn match_unanchored_search_finds_inside() {
    assert!(run("bc", "aaabcd"));
    assert!(!run("bc", "aaabd"));
}

#[test]
fn match_quantifier_bounds_on_runs() {
    // a{2,3} finds two consecutive 'a' anywhere, but not in a lone one
    assert!(!run("a{2,3}", "a"));
    assert!(run("a{2,3}", "aa"));
    assert!(run("a{2,3}", "aaaa"));
    assert!(run("xa{2,3}y", "xaaay"));
    assert!(!run("xa{2,3}y", "xay"));
    assert!(!run("xa{2,3}y", "xaaaay"));
}

#[test]
fn match_alternation_union_of_words() {
    assert!(run("(foo|bar)", "a foo b"));
    assert!(run("(foo|bar)", "a bar b"));
    assert!(!run("(foo|bar)", "a baz b"));
}

#[test]
fn match_negated_class_single_char() {
    assert!(run("[^abc]", "ax"));
    assert!(!run("[^abc]", "abc"));
    assert!(!run("[^abc]", ""));
}

#[test]
fn match_empty_pattern_matches_everything() {
    assert!(run("", ""));
    assert!(run("", "anything"));
}

#[test]
fn match_survives_embedding() {
    // a true verdict is kept when the text is embedded in a larger one
    assert!(run("b.d", "abcde"));
    assert!(run("b.d", "xyzabcde"));
    assert!(run("c+d$", "xyzaccd"));
}

#[test]
fn match_both_anchors_pin_whole_text() {
    assert!(run("^$", ""));
    assert!(!run("^$", "a"));
    assert!(run("^a+$", "aaa"));
    assert!(!run("^a+$", "aab"));
}

#[test]
fn match_empty_bracket_classes() {
    // an empty class matches nothing; an empty negated class matches any char
    assert!(!run("[]", "abc"));
    assert!(run("[^]", "abc"));
    assert!(!run("[^]", ""));
}

#[test]
fn group_numbers_are_assigned_depth_first() {
    let node = compile("((a)b)(c)").expect("should compile");
    match node {
        Node::Group { nodes, group_ref: 0 } => {
            assert_eq!(nodes.len(), 2);
            match &nodes[0] {
                Node::Group { nodes: inner, group_ref: 1 } => match &inner[0] {
                    Node::Group { nodes: _, group_ref: 2 } => {}
                    _ => panic!("the innermost group should be number 2"),
                },
                _ => panic!("the first group should be number 1"),
            }
            match &nodes[1] {
                Node::Group { nodes: _, group_ref: 3 } => {}
                _ => panic!("the second top-level group should be number 3"),
            }
        }
        _ => panic!("the whole pattern should be group 0"),
    }
}

#[test]
fn compile_is_idempotent() {
    let a = compile("ba?c+d{2,3}f*g").expect("should compile");
    let b = compile("ba?c+d{2,3}f*g").expect("should compile");
    assert_eq!(a, b);
}

#[test]
fn matching_is_idempotent() {
    let node = compile("(b|bc|de|fg)d45").expect("should compile");
    let chars: Vec<char> = "ded45h_".chars().collect();
    let first = is_match(&node, &chars).expect("should match cleanly");
    let second = is_match(&node, &chars).expect("should match cleanly");
    assert_eq!(first, second);
}

#[test]
fn matcher_is_reusable_via_fresh_frontiers() {
    let node = compile("ab").expect("should compile");
    let chars: Vec<char> = "xxab".chars().collect();
    let mut matcher = Matcher::new(chars.len());
    assert_eq!(matcher.matches(&node, &chars), Ok(true));
    let mut matcher2 = Matcher::new(chars.len());
    assert_eq!(matcher2.matches(&node, &chars), Ok(true));
}

#[test]
fn parser_builds_through_public_api() {
    let lexer = RegexLexer::new("a|b");
    let mut parser = RegexParser::new(lexer).expect("window should lex");
    let node = parser.build_ast(0).expect("should parse");
    let chars: Vec<char> = "zzb".chars().collect();
    assert_eq!(is_match(&node, &chars), Ok(true));
}

#[test]
fn bracket_group_parses_literals() {
    let lexer = RegexLexer::new("ab]");
    let mut parser = RegexParser::new(lexer).expect("window should lex");
    let node = parser.build_bracket_group().expect("should parse");
    match node {
        Node::Or { nodes } => assert_eq!(nodes.len(), 2),
        _ => panic!("expected a character-class alternation"),
    }
}

#[test]
fn compile_rejects_misplaced_quantifier() {
    assert_eq!(
        rejected_with("?a"),
        CompileError::Parse(ParseError::MisplacedQuantifier)
    );
    assert_eq!(
        rejected_with("(?a)"),
        CompileError::Parse(ParseError::MisplacedQuantifier)
    );
}

#[test]
fn compile_rejects_unterminated_group() {
    assert_eq!(
        rejected_with("(ab"),
        CompileError::Parse(ParseError::UnterminatedGroup)
    );
}

#[test]
fn compile_rejects_unterminated_bracket() {
    assert_eq!(
        rejected_with("[ab"),
        CompileError::Parse(ParseError::UnterminatedBracket)
    );
}

#[test]
fn compile_rejects_non_literal_in_bracket() {
    assert_eq!(
        rejected_with("[a.]"),
        CompileError::Parse(ParseError::UnsupportedInBracket)
    );
}

#[test]
fn compile_rejects_back_references() {
    assert_eq!(
        rejected_with("(a)\\1"),
        CompileError::Parse(ParseError::UnsupportedToken)
    );
}

#[test]
fn compile_rejects_stray_close_bracket() {
    assert_eq!(
        rejected_with("a]"),
        CompileError::Parse(ParseError::UnsupportedToken)
    );
}

#[test]
fn compile_surfaces_lex_errors() {
    assert_eq!(
        rejected_with("a{x}"),
        CompileError::Lex(LexError::ExpectedDigit { pos: 2 })
    );
    assert_eq!(
        rejected_with("ab\\q"),
        CompileError::Lex(LexError::UnsupportedEscape { pos: 3 })
    );
}

#[test]
fn unsupported_construct_reaches_matcher() {
    // a hand-built negated class holding a non-literal child is recognized
    // but unimplemented: the matcher reports it instead of crashing
    let node = Node::Not { nodes: vec![Node::Digit] };
    let group = Node::Group { nodes: vec![node], group_ref: 0 };
    let chars: Vec<char> = "x".chars().collect();
    assert!(is_match(&group, &chars).is_err());
}
