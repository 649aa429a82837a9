use spiece::basic::SentencePieceModel;
use spiece::dart::SentencePieceModel as DartModel;
use spiece::seg::UNKNOWN_SCORE;

fn pieces(ps: &[(&str, i64)]) -> Vec<(String, i64)> {
    ps.iter().map(|(t, s)| (t.to_string(), *s)).collect()
}

#[test]
fn undo_prefers_single_piece() {
    let m = SentencePieceModel::load(pieces(&[("un", -100_000), ("do", -200_000), ("undo", -150_000)]));
    assert_eq!(m.tokenize("undo"), vec!["undo".to_string()]);
    assert_eq!(m.tokenize_dag("undo"), vec!["undo".to_string()]);
}

#[test]
fn undo_prefers_single_piece_dart() {
    let m = DartModel::load(pieces(&[("un", -100_000), ("do", -200_000), ("undo", -150_000)]));
    assert_eq!(m.tokenize_dag("undo"), vec!["undo".to_string()]);
}

#[test]
fn unknown_character_fallback() {
    let m = SentencePieceModel::load(pieces(&[("a", -1_000_000)]));
    assert_eq!(m.tokenize("ab"), vec!["a".to_string(), "b".to_string()]);
    assert_eq!(m.tokenize_dag("ab"), vec!["a".to_string(), "b".to_string()]);
    let d = DartModel::load(pieces(&[("a", -1_000_000)]));
    assert_eq!(d.tokenize_dag("ab"), vec!["a".to_string(), "b".to_string()]);
}

#[test]
fn unknown_fallback_edge_has_id_zero_and_sentinel_score() {
    let m = SentencePieceModel::load(pieces(&[("a", -1_000_000)]));
    let lattice = m.decode_forward("ab");
    let edge = lattice[2].expect("boundary 2 must be reachable");
    assert_eq!(edge.index, 0);
    assert_eq!(edge.score, UNKNOWN_SCORE);
    assert_eq!(edge.start, 1);
    assert_eq!(edge.end, 2);
    let back = m.decode_backward(&lattice);
    assert_eq!(back.len(), 2);
    assert_eq!(back[0].start, 0);
    assert_eq!(back[0].end, 1);
    assert_eq!(back[1].start, 1);
    assert_eq!(back[1].end, 2);
}

#[test]
fn space_becomes_boundary_marker() {
    let m = SentencePieceModel::load(pieces(&[("\u{2581}the", -300_000), ("the", -400_000)]));
    assert_eq!(m.tokenize(" the"), vec!["\u{2581}the".to_string()]);
    assert_eq!(m.tokenize_dag(" the"), vec!["\u{2581}the".to_string()]);
    let d = DartModel::load(pieces(&[("\u{2581}the", -300_000), ("the", -400_000)]));
    assert_eq!(d.tokenize_dag(" the"), vec!["\u{2581}the".to_string()]);
}

#[test]
fn empty_input_gives_empty_output() {
    let m = SentencePieceModel::load(pieces(&[("a", -1_000_000)]));
    assert_eq!(m.tokenize(""), Vec::<String>::new());
    assert_eq!(m.tokenize_dag(""), Vec::<String>::new());
    let d = DartModel::load(pieces(&[("a", -1_000_000)]));
    assert_eq!(d.tokenize_dag(""), Vec::<String>::new());
}

#[test]
fn repeated_calls_are_identical() {
    let m = SentencePieceModel::load(pieces(&[("he", -100_000), ("llo", -200_000), ("hello", -450_000)]));
    let a = m.tokenize("hello hello");
    let b = m.tokenize("hello hello");
    assert_eq!(a, b);
}

#[test]
fn strategies_agree_on_mixed_text() {
    let vocab = [
        ("\u{2581}", -50_000),
        ("th", -120_000),
        ("e", -80_000),
        ("the", -150_000),
        ("\u{2581}the", -140_000),
        ("quick", -500_000),
    ];
    let m = SentencePieceModel::load(pieces(&vocab));
    let d = DartModel::load(pieces(&vocab));
    for text in ["the quick the", " the the", "thee", "xyz the"] {
        let naive = m.tokenize(text);
        let trie = m.tokenize_dag(text);
        let compressed = d.tokenize_dag(text);
        assert_eq!(naive, trie);
        assert_eq!(naive, compressed);
    }
}

#[test]
fn tokens_concatenate_to_normalized_input() {
    let m = SentencePieceModel::load(pieces(&[("ab", -100_000), ("c", -100_000)]));
    let text = "abc xabq";
    let tokens = m.tokenize(text);
    let joined: String = tokens.concat();
    let normalized: String = text.chars().map(|c| if c == ' ' { '\u{2581}' } else { c }).collect();
    assert_eq!(joined, normalized);
}

#[test]
fn retokenizing_joined_tokens_round_trips() {
    let m = SentencePieceModel::load(pieces(&[("ab", -100_000), ("c", -100_000)]));
    let tokens = m.tokenize("abc abq");
    let joined: String = tokens.concat();
    let restored: String = joined.chars().map(|c| if c == '\u{2581}' { ' ' } else { c }).collect();
    assert_eq!(m.tokenize(&restored), tokens);
}

#[test]
fn repeated_piece_text_last_entry_wins() {
    let m = SentencePieceModel::load(pieces(&[("a", -900_000), ("a", -100_000), ("b", -100_000)]));
    // The last entry for "a" wins: the edge carries its id and score.
    let lattice = m.decode_forward("a");
    let edge = lattice[1].expect("boundary 1 reachable");
    assert_eq!(edge.index, 1);
    assert_eq!(edge.score, -100_000);
}

#[test]
fn common_prefix_search_finds_every_prefix_piece() {
    let vocab = [("un", -100_000), ("undo", -200_000), ("undone", -300_000), ("done", -100_000)];
    let m = SentencePieceModel::load(pieces(&vocab));
    let lens: Vec<usize> = m.common_prefix_search("undone!").iter().map(|t| t.0).collect();
    assert_eq!(lens, vec![2, 4, 6]);
    let d = DartModel::load(pieces(&vocab));
    let got: Vec<(usize, i64, i32)> =
        d.common_prefix_search("undone!").iter().map(|p| (p.len, p.score, p.index)).collect();
    assert_eq!(got, vec![(2, -100_000, 0), (4, -200_000, 1), (6, -300_000, 2)]);
}

#[test]
fn multibyte_pieces_use_character_lengths() {
    let vocab = [("\u{65e5}\u{672c}", -100_000), ("\u{65e5}", -300_000)];
    let m = SentencePieceModel::load(pieces(&vocab));
    let expected = vec!["\u{65e5}\u{672c}".to_string(), "\u{8a9e}".to_string()];
    assert_eq!(m.tokenize("\u{65e5}\u{672c}\u{8a9e}"), expected);
    assert_eq!(m.tokenize_dag("\u{65e5}\u{672c}\u{8a9e}"), expected);
    let d = DartModel::load(pieces(&vocab));
    assert_eq!(d.tokenize_dag("\u{65e5}\u{672c}\u{8a9e}"), expected);
}

#[test]
fn dag_node_new_starts_empty() {
    let n = spiece::basic::DagNode::new("ab".to_string());
    assert_eq!(n.text, "ab");
    assert_eq!(n.len, 2);
    assert_eq!(n.score, 0);
    assert_eq!(n.index, 0);
    assert!(!n.leaf);
    assert!(n.children.is_empty());
}

#[test]
fn dp_picks_maximum_total_score() {
    // "ab" as one piece (-150000) beats "a"+"b" (-200000).
    let vocab = [("a", -100_000), ("b", -100_000), ("ab", -150_000)];
    let m = SentencePieceModel::load(pieces(&vocab));
    assert_eq!(m.tokenize("ab"), vec!["ab".to_string()]);
    let lattice = m.decode_forward("ab");
    assert_eq!(lattice[2].unwrap().score, -150_000);
    // "a"+"b" (-150000) beats "ab" (-200000) the other way around.
    let vocab2 = [("a", -50_000), ("b", -100_000), ("ab", -200_000)];
    let m2 = SentencePieceModel::load(pieces(&vocab2));
    assert_eq!(m2.tokenize("ab"), vec!["a".to_string(), "b".to_string()]);
}

#[test]
fn score_tie_keeps_earlier_edge() {
    // Both segmentations score -200000; the earlier-found edge (the longer
    // piece, discovered from the smaller start boundary) must win.
    let vocab = [("a", -100_000), ("b", -100_000), ("ab", -200_000)];
    let m = SentencePieceModel::load(pieces(&vocab));
    assert_eq!(m.tokenize("ab"), vec!["ab".to_string()]);
    assert_eq!(m.tokenize_dag("ab"), vec!["ab".to_string()]);
    let d = DartModel::load(pieces(&vocab));
    assert_eq!(d.tokenize_dag("ab"), vec!["ab".to_string()]);
}

#[test]
fn nul_in_input_is_an_unknown_character() {
    let m = SentencePieceModel::load(pieces(&[("a", -100_000)]));
    let expected = vec!["a".to_string(), "\u{0}".to_string(), "b".to_string()];
    assert_eq!(m.tokenize("a\u{0}b"), expected);
    assert_eq!(m.tokenize_dag("a\u{0}b"), expected);
    let d = DartModel::load(pieces(&[("a", -100_000)]));
    assert_eq!(d.tokenize_dag("a\u{0}b"), expected);
}

#[test]
fn highest_code_points_are_unknown_characters() {
    // U+10FFFE and U+10FFFF never match a piece and must come back as
    // single-character fallback tokens under every strategy.
    let expected = vec!["a".to_string(), "\u{10FFFF}".to_string(), "\u{10FFFE}".to_string()];
    let m = SentencePieceModel::load(pieces(&[("a", -100_000)]));
    assert_eq!(m.tokenize("a\u{10FFFF}\u{10FFFE}"), expected);
    assert_eq!(m.tokenize_dag("a\u{10FFFF}\u{10FFFE}"), expected);
    let d = DartModel::load(pieces(&[("a", -100_000)]));
    assert_eq!(d.tokenize_dag("a\u{10FFFF}\u{10FFFE}"), expected);
    assert_eq!(d.tokenize_dag("\u{10FFFF}a"), vec!["\u{10FFFF}".to_string(), "a".to_string()]);
}

#[test]
fn supplementary_plane_pieces_stay_with_the_exact_match_model() {
    // The exact-match model accepts pieces from any plane; the compressed
    // model's builder only places code points below U+D800, so for it such
    // characters can only ever be unknown-character fallbacks in the query.
    let m = SentencePieceModel::load(pieces(&[("\u{1F600}", -100_000), ("a", -200_000)]));
    let expected = vec!["\u{1F600}".to_string(), "a".to_string()];
    assert_eq!(m.tokenize("\u{1F600}a"), expected);
    assert_eq!(m.tokenize_dag("\u{1F600}a"), expected);
    let d = DartModel::load(pieces(&[("a", -200_000)]));
    assert_eq!(d.tokenize_dag("\u{1F600}a"), expected);
}
