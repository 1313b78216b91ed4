use minimizer::absorb::{absorb_macro_from_side, absorb_macros, locate_deepest_macro,
    outline_tokens, resolve_token, IndexType, MacroLocation, Side};
use minimizer::counting::unique_lists_with_counts;
use minimizer::driver::{minimize, MinimizeError};
use minimizer::generate::{check_minimized, generate_one_macro, span_score_i64, MACRO_OVERHEAD};
use minimizer::macros::{count_tokens, macros_to_stream, parse_macros, ParsedMacro};
use minimizer::reconstruct::reconstruct_source;
use minimizer::subdivision::{gen_subdivisions, Subdivision};
use minimizer::token::Token;

fn tok(s: &str) -> Token {
    Token::new(s.as_bytes().to_vec())
}

fn stream(words: &[&str]) -> Vec<Token> {
    words.iter().map(|w| tok(w)).collect()
}

fn words_of(tokens: &[Token]) -> Vec<String> {
    tokens
        .iter()
        .map(|t| String::from_utf8(t.spelling().clone()).unwrap())
        .collect()
}

fn macro_words(m: &ParsedMacro) -> (String, Vec<String>) {
    (
        String::from_utf8(m.name.spelling().clone()).unwrap(),
        words_of(&m.body),
    )
}

#[test]
fn token_equality_is_by_spelling() {
    let a1 = tok("alpha");
    let a2 = tok("alpha");
    let b = tok("beta");
    assert!(a1.eq_spelling(&a2));
    assert!(!a1.eq_spelling(&b));
}

#[test]
fn opposite_sides() {
    assert_eq!(Side::Front.opposite(), Side::Back);
    assert_eq!(Side::Back.opposite(), Side::Front);
}

#[test]
fn subdivisions_of_short_stream() {
    // four plain tokens: all windows of length >= 2, ascending by start
    let toks = stream(&["a", "b", "c", "d"]);
    let subs = gen_subdivisions(&toks);
    let expected = vec![
        Subdivision { start: 0, end: 1 },
        Subdivision { start: 0, end: 2 },
        Subdivision { start: 0, end: 3 },
        Subdivision { start: 1, end: 2 },
        Subdivision { start: 1, end: 3 },
        Subdivision { start: 2, end: 3 },
    ];
    assert_eq!(subs, expected);
}

#[test]
fn subdivisions_exclude_directives() {
    let toks = stream(&["a", "#", "b"]);
    let subs = gen_subdivisions(&toks);
    assert!(subs.is_empty());
    let toks = stream(&["a", "define", "b", "c"]);
    let subs = gen_subdivisions(&toks);
    assert_eq!(subs, vec![Subdivision { start: 2, end: 3 }]);
    let toks = stream(&["include", "x", "y"]);
    let subs = gen_subdivisions(&toks);
    assert_eq!(subs, vec![Subdivision { start: 1, end: 2 }]);
}

#[test]
fn subdivisions_of_empty_stream() {
    let toks: Vec<Token> = Vec::new();
    assert!(gen_subdivisions(&toks).is_empty());
}

#[test]
fn non_overlap_count_of_repeated_pattern() {
    // the pattern (a, b) of length 2 repeated 3 times back to back
    let toks = stream(&["a", "b", "a", "b", "a", "b"]);
    let subs = gen_subdivisions(&toks);
    let counts = unique_lists_with_counts(&toks, &subs);
    let mut found = false;
    for entry in &counts {
        let sub = entry.sub;
        if sub.end - sub.start == 1 {
            let w0 = toks[sub.start].spelling().clone();
            let w1 = toks[sub.end].spelling().clone();
            if w0 == b"a".to_vec() && w1 == b"b".to_vec() {
                assert_eq!(entry.count, 3);
                found = true;
            }
        }
    }
    assert!(found);
}

#[test]
fn greedy_count_skips_overlaps() {
    // "a a a a": content (a, a) occurs at starts 0, 1, 2; the greedy
    // non-overlap count keeps starts 0 and 2 only
    let toks = stream(&["a", "a", "a", "a"]);
    let subs = gen_subdivisions(&toks);
    let counts = unique_lists_with_counts(&toks, &subs);
    let mut pair_count = None;
    for entry in &counts {
        if entry.sub.end - entry.sub.start == 1 {
            pair_count = Some(entry.count);
        }
    }
    assert_eq!(pair_count, Some(2));
}

#[test]
fn score_formula_improving() {
    // length 4 span occurring 3 times, OVERHEAD = 3: 3*(1-4)+3+4 = -2
    assert_eq!(MACRO_OVERHEAD, 3);
    assert_eq!(span_score_i64(3, 4), -2);
}

#[test]
fn score_formula_boundary_positive() {
    // length 3 span, frequency 2: 2*(1-3)+3+3 = 2
    assert_eq!(span_score_i64(2, 3), 2);
}

#[test]
fn score_formula_boundary_zero() {
    // length 3 span, frequency 3: 3*(1-3)+3+3 = 0
    assert_eq!(span_score_i64(3, 3), 0);
}

#[test]
fn synthesis_proceeds_on_negative_score() {
    // the length-4 span occurs 3 times without overlap: score -2, so the
    // macro is created and every window replaced
    let toks = stream(&[
        "a", "b", "c", "d", "x", "a", "b", "c", "d", "y", "a", "b", "c", "d",
    ]);
    let out = generate_one_macro(&toks, &b"M".to_vec());
    assert_eq!(
        words_of(&out),
        vec!["#", "define", "M", "a", "b", "c", "d", "M", "x", "M", "y", "M"]
    );
}

#[test]
fn positive_best_score_leaves_stream_unchanged() {
    // best candidate scores 2 (> 0): no macro is created
    let toks = stream(&["a", "b", "c", "x", "a", "b", "c"]);
    let out = generate_one_macro(&toks, &b"M".to_vec());
    assert_eq!(words_of(&out), words_of(&toks));
    assert!(check_minimized(&toks));
    // the driver stops at once on such a stream
    let names: Vec<Vec<u8>> = vec![b"M".to_vec()];
    let run = minimize(&toks, &names).unwrap();
    assert_eq!(words_of(&run), words_of(&toks));
}

#[test]
fn zero_score_replacement_still_performed() {
    // best candidate scores exactly 0: the replacement must happen
    let toks = stream(&["a", "b", "c", "a", "b", "c", "a", "b", "c"]);
    let out = generate_one_macro(&toks, &b"M".to_vec());
    assert_eq!(
        words_of(&out),
        vec!["#", "define", "M", "a", "b", "c", "M", "M", "M"]
    );
}

#[test]
fn minimize_monotonic_and_exact() {
    let toks = stream(&[
        "a", "b", "c", "d", "x", "a", "b", "c", "d", "y", "a", "b", "c", "d",
    ]);
    let names: Vec<Vec<u8>> = vec![b"M0".to_vec(), b"M1".to_vec(), b"M2".to_vec()];
    let out = minimize(&toks, &names).unwrap();
    assert!(out.len() <= toks.len());
    assert_eq!(
        words_of(&out),
        vec!["#", "define", "M0", "a", "b", "c", "d", "M0", "x", "M0", "y", "M0"]
    );
}

#[test]
fn minimize_idempotent_on_minimized_stream() {
    let toks = stream(&[
        "a", "b", "c", "d", "x", "a", "b", "c", "d", "y", "a", "b", "c", "d",
    ]);
    let names: Vec<Vec<u8>> = vec![b"M0".to_vec(), b"M1".to_vec()];
    let once = minimize(&toks, &names).unwrap();
    let twice = minimize(&once, &names).unwrap();
    assert_eq!(words_of(&once), words_of(&twice));
    assert!(check_minimized(&once));
}

#[test]
fn minimize_on_empty_stream() {
    let toks: Vec<Token> = Vec::new();
    let names: Vec<Vec<u8>> = Vec::new();
    let out = minimize(&toks, &names).unwrap();
    assert!(out.is_empty());
}

#[test]
fn name_pool_exhaustion_is_fatal() {
    // an improving (score 0) candidate exists but no name is left
    let toks = stream(&["a", "b", "c", "a", "b", "c", "a", "b", "c"]);
    let names: Vec<Vec<u8>> = Vec::new();
    match minimize(&toks, &names) {
        Err(e) => assert_eq!(e, MinimizeError::NamePoolExhausted),
        Ok(_) => panic!("expected the name pool to run out"),
    }
}

#[test]
fn parse_macros_splits_leading_defines() {
    // each body runs to the next `#` or the end; the trailing `# x y`
    // opens no `# define` group, so it stays in the remainder
    let toks = stream(&[
        "#", "define", "A", "a", "b", "#", "define", "B", "c", "#", "x", "y",
    ]);
    let (ms, rest) = parse_macros(&toks);
    assert_eq!(ms.len(), 2);
    assert_eq!(
        macro_words(&ms[0]),
        ("A".to_string(), vec!["a".to_string(), "b".to_string()])
    );
    assert_eq!(macro_words(&ms[1]), ("B".to_string(), vec!["c".to_string()]));
    assert_eq!(words_of(&rest), vec!["#", "x", "y"]);
    // rendering the parts puts the original stream back together
    let back = macros_to_stream(&ms, &rest);
    assert_eq!(words_of(&back), words_of(&toks));
}

#[test]
fn count_tokens_pays_three_per_macro() {
    let toks = stream(&["#", "define", "A", "a", "b", "x", "y"]);
    let (ms, rest) = parse_macros(&toks);
    // one macro of body length 2 plus two top-level tokens: (2+3) + 2
    assert_eq!(count_tokens(&ms, &rest), 7);
    // parsing never changes the total token cost
    assert_eq!(count_tokens(&ms, &rest), toks.len());
}

#[test]
fn resolve_token_walks_to_the_leaf() {
    let macros = vec![
        ParsedMacro { name: tok("M1"), body: stream(&["u", "M2"]) },
        ParsedMacro { name: tok("M2"), body: stream(&["z", "w"]) },
    ];
    let back = resolve_token(&tok("M1"), Side::Back, &macros);
    assert_eq!(back.spelling().as_slice(), b"w");
    let front = resolve_token(&tok("M1"), Side::Front, &macros);
    assert_eq!(front.spelling().as_slice(), b"u");
    let plain = resolve_token(&tok("q"), Side::Back, &macros);
    assert_eq!(plain.spelling().as_slice(), b"q");
}

#[test]
fn locate_deepest_macro_marks_the_leaf_macro() {
    let macros = vec![
        ParsedMacro { name: tok("M1"), body: stream(&["u", "M2"]) },
        ParsedMacro { name: tok("M2"), body: stream(&["z", "w"]) },
    ];
    let mut marked: Vec<Token> = Vec::new();
    // M1's back edge is M2, so the walk descends and marks M2
    let loc = locate_deepest_macro(Side::Back, &macros, 0, &mut marked);
    assert_eq!(loc, MacroLocation::Nested);
    assert_eq!(words_of(&marked), vec!["M2"]);
    // M2's back edge is a plain token: M2 itself is the leaf macro
    let mut marked2: Vec<Token> = Vec::new();
    let loc2 = locate_deepest_macro(Side::Back, &macros, 1, &mut marked2);
    assert_eq!(loc2, MacroLocation::Leaf);
    assert_eq!(words_of(&marked2), vec!["M2"]);
}

#[test]
fn outline_duplicates_the_edge_beside_marked_names() {
    let macros = vec![ParsedMacro { name: tok("M2"), body: stream(&["z", "w"]) }];
    let marked = vec![tok("M2")];
    let mut toks = stream(&["M2", "y"]);
    // absorbing on the Back side: each marked reference gets the leaf it
    // will lose (its front edge) duplicated before it
    outline_tokens(&mut toks, &macros, &marked, Side::Back, None);
    assert_eq!(words_of(&toks), vec!["z", "M2", "y"]);
}

#[test]
fn index_type_resolve_reads_both_places() {
    let macros = vec![ParsedMacro { name: tok("A"), body: stream(&["p", "q"]) }];
    let toks = stream(&["x", "y"]);
    let t = IndexType::Macro { macro_index: 0, index: 1 }.resolve(&macros, &toks);
    assert_eq!(t.spelling().as_slice(), b"q");
    let t = IndexType::Tokens(0).resolve(&macros, &toks);
    assert_eq!(t.spelling().as_slice(), b"x");
}

#[test]
fn absorption_rejected_on_differing_neighbors() {
    // the macro is used at three sites with three different adjacent
    // tokens on the tested side: nothing may change
    let mut macros = vec![ParsedMacro { name: tok("M"), body: stream(&["z"]) }];
    let toks = stream(&["a", "M", "b", "M", "c", "M"]);
    let out = absorb_macro_from_side(0, &mut macros, &toks, Side::Front);
    assert_eq!(words_of(&out), words_of(&toks));
    assert_eq!(macros.len(), 1);
    assert_eq!(macro_words(&macros[0]), ("M".to_string(), vec!["z".to_string()]));
}

#[test]
fn absorption_moves_a_shared_front_token() {
    // every use of M is preceded by the same token x: the x moves into
    // M's body
    let mut macros = vec![ParsedMacro { name: tok("M"), body: stream(&["b"]) }];
    let toks = stream(&["x", "M", "x", "M"]);
    let out = absorb_macro_from_side(0, &mut macros, &toks, Side::Front);
    assert_eq!(words_of(&out), vec!["M", "M"]);
    assert_eq!(
        macro_words(&macros[0]),
        ("M".to_string(), vec!["x".to_string(), "b".to_string()])
    );
}

#[test]
fn absorb_macros_commits_only_improvements() {
    // same shape as the single-step test: cost falls from 8 to 7, so the
    // driver commits it and then reaches a fixed point
    let mut macros = vec![ParsedMacro { name: tok("M"), body: stream(&["b"]) }];
    let toks = stream(&["x", "M", "x", "M"]);
    let before = count_tokens(&macros, &toks);
    let out = absorb_macros(&mut macros, toks);
    let after = count_tokens(&macros, &out);
    assert!(after <= before);
    assert_eq!(words_of(&out), vec!["M", "M"]);
    assert_eq!(
        macro_words(&macros[0]),
        ("M".to_string(), vec!["x".to_string(), "b".to_string()])
    );
}

#[test]
fn reconstruct_puts_directives_on_their_own_lines() {
    let toks = stream(&["#", "include", "\"a.h\"", "x", "y"]);
    let text = String::from_utf8(reconstruct_source(&toks)).unwrap();
    assert_eq!(text, "# include \"a.h\"\nx y");
}

#[test]
fn reconstruct_separates_macro_definitions() {
    let toks = stream(&["#", "define", "M", "a", "b", "#", "define", "N", "c", "x"]);
    let text = String::from_utf8(reconstruct_source(&toks)).unwrap();
    assert_eq!(text, "# define M a b\n# define N c x");
}

#[test]
fn reconstruct_of_empty_stream_is_empty() {
    let toks: Vec<Token> = Vec::new();
    assert_eq!(reconstruct_source(&toks), Vec::<u8>::new());
}

#[test]
fn reconstruction_round_trip() {
    // a stream with no macros: reconstructing and splitting the text on
    // whitespace yields the same spellings in the same order
    let words = ["int", "main", "(", ")", "{", "return", "0", ";", "}"];
    let toks = stream(&words);
    let text = String::from_utf8(reconstruct_source(&toks)).unwrap();
    let split: Vec<&str> = text.split_whitespace().collect();
    assert_eq!(split, words.to_vec());
}

#[test]
fn full_pipeline_on_repeated_source() {
    // minimize, split the definitions off, render them back, reconstruct
    let toks = stream(&[
        "a", "b", "c", "d", "x", "a", "b", "c", "d", "y", "a", "b", "c", "d",
    ]);
    let names: Vec<Vec<u8>> = vec![b"m0".to_vec(), b"m1".to_vec()];
    let min = minimize(&toks, &names).unwrap();
    let (ms, rest) = parse_macros(&min);
    assert_eq!(ms.len(), 1);
    let back = macros_to_stream(&ms, &rest);
    assert_eq!(words_of(&back), words_of(&min));
    let text = String::from_utf8(reconstruct_source(&back)).unwrap();
    assert_eq!(text, "# define m0 a b c d m0 x m0 y m0");
}
