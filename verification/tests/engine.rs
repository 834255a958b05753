use nnsplit::{Level, NNSplitLogic, NNSplitOptions, Split, SplitError, SplitSequence};

fn opts(
    threshold: u32,
    stride: usize,
    max_length: usize,
    padding: usize,
    length_divisor: usize,
) -> NNSplitOptions {
    NNSplitOptions::new(threshold, stride, max_length, padding, 1, length_divisor).unwrap()
}

fn seq_of(names: &[&str]) -> SplitSequence {
    SplitSequence::new(names.iter().map(|n| n.to_string()).collect()).unwrap()
}

#[test]
fn default_options_are_valid() {
    let o = NNSplitOptions::default();
    assert_eq!(o.threshold, 500_000);
    assert_eq!(o.stride, 250);
    assert_eq!(o.max_length, 500);
    assert_eq!(o.padding, 5);
    assert_eq!(o.batch_size, 32);
    assert_eq!(o.length_divisor, 2);
}

#[test]
fn invalid_options_are_rejected_eagerly() {
    assert_eq!(
        NNSplitOptions::new(0, 1, 2, 0, 1, 1).unwrap_err(),
        SplitError::InvalidOptions
    );
    assert_eq!(
        NNSplitOptions::new(1_000_000, 1, 2, 0, 1, 1).unwrap_err(),
        SplitError::InvalidOptions
    );
    assert_eq!(
        NNSplitOptions::new(500_000, 3, 2, 0, 1, 1).unwrap_err(),
        SplitError::InvalidOptions
    );
    assert_eq!(
        NNSplitOptions::new(500_000, 0, 2, 0, 1, 1).unwrap_err(),
        SplitError::InvalidOptions
    );
    assert_eq!(
        NNSplitOptions::new(500_000, 1, 2, 0, 1, 0).unwrap_err(),
        SplitError::InvalidOptions
    );
    assert!(NNSplitOptions::new(500_000, 1, 2, 0, 1, 1).is_ok());
}

#[test]
fn empty_hierarchy_is_malformed() {
    assert_eq!(
        SplitSequence::new(Vec::new()).unwrap_err(),
        SplitError::MalformedModelMetadata
    );
}

#[test]
fn channel_count_mismatch_is_malformed() {
    let s = seq_of(&["Sentence", "Token"]);
    assert_eq!(s.channel_count(), 2);
    assert!(s.check_channels(2).is_ok());
    assert_eq!(s.check_channels(3).unwrap_err(), SplitError::MalformedModelMetadata);
}

#[test]
fn marker_prefix_makes_a_level_hidden() {
    assert!(!Level::new("Sentence".to_string()).hidden);
    assert!(Level::new("_Whitespace".to_string()).hidden);
    assert!(!Level::new("".to_string()).hidden);
}

#[test]
fn visible_levels_only_in_declared_order() {
    let logic = NNSplitLogic::new(
        NNSplitOptions::default(),
        seq_of(&["Sentence", "Token", "_Whitespace", "Compound constituent"]),
    );
    assert_eq!(
        logic.get_levels(),
        vec![
            "Sentence".to_string(),
            "Token".to_string(),
            "Compound constituent".to_string()
        ]
    );
}

#[test]
fn windowing_is_deterministic() {
    let logic = NNSplitLogic::new(opts(500_000, 3, 7, 2, 2), seq_of(&["Sentence"]));
    let texts = vec![b"ein kleiner Testtext".to_vec(), b"noch einer".to_vec()];
    let w1 = logic.get_inputs_and_indices(&texts);
    let w2 = logic.get_inputs_and_indices(&texts);
    assert_eq!(w1.len(), w2.len());
    for (a, b) in w1.iter().zip(w2.iter()) {
        assert_eq!(a.text_id, b.text_id);
        assert_eq!(a.offset, b.offset);
        assert_eq!(a.bytes, b.bytes);
    }
}

#[test]
fn windows_cover_the_padded_text() {
    // stride 2, window 4, no outer padding: a 6-byte text gives windows
    // at offsets 0 and 2, the tail zero-padded.
    let logic = NNSplitLogic::new(opts(500_000, 2, 4, 0, 1), seq_of(&["Sentence"]));
    let texts = vec![b"abcdef".to_vec()];
    let windows = logic.get_inputs_and_indices(&texts);
    assert_eq!(windows.len(), 2);
    assert_eq!(windows[0].offset, 0);
    assert_eq!(windows[1].offset, 2);
    assert_eq!(windows[0].bytes, b"abcd".to_vec());
    assert_eq!(windows[1].bytes, b"cdef".to_vec());
    for w in &windows {
        assert_eq!(w.text_id, 0);
        assert_eq!(w.bytes.len(), 4);
    }
}

#[test]
fn empty_text_still_yields_a_window() {
    let logic = NNSplitLogic::new(opts(500_000, 2, 4, 1, 3), seq_of(&["Sentence"]));
    let texts = vec![Vec::new()];
    let windows = logic.get_inputs_and_indices(&texts);
    assert_eq!(windows.len(), 1);
    assert_eq!(windows[0].offset, 0);
    assert_eq!(windows[0].bytes, vec![0u8; 4]);
}

#[test]
fn overlap_is_averaged_exactly() {
    // Two windows overlap on positions 2 and 3; window A predicts 0.8,
    // window B predicts 0.4, so the curve there is exactly 0.6.
    let o = opts(500_000, 2, 4, 0, 1);
    let texts = vec![b"abcdef".to_vec()];
    let logic = NNSplitLogic::new(o, seq_of(&["Sentence"]));
    let windows = logic.get_inputs_and_indices(&texts);
    assert_eq!(windows.len(), 2);
    let mut preds: Vec<Vec<Vec<u32>>> = Vec::new();
    preds.push(vec![vec![800_000u32]; 4]);
    preds.push(vec![vec![400_000u32]; 4]);
    let curves = nnsplit::reconstruct(&texts, &windows, &preds, logic.options(), 1);
    // one value per original byte position per level
    assert_eq!(curves.len(), 1);
    assert_eq!(curves[0].len(), 6);
    for row in &curves[0] {
        assert_eq!(row.len(), 1);
    }
    assert_eq!(curves[0][0][0], 800_000);
    assert_eq!(curves[0][1][0], 800_000);
    assert_eq!(curves[0][2][0], 600_000);
    assert_eq!(curves[0][3][0], 600_000);
    assert_eq!(curves[0][4][0], 400_000);
    assert_eq!(curves[0][5][0], 400_000);
}

#[test]
fn curve_covers_texts_longer_than_a_window() {
    // text much longer than one window: still one value per byte
    let o = opts(500_000, 3, 6, 2, 2);
    let texts = vec![vec![b'x'; 40], Vec::new()];
    let logic = NNSplitLogic::new(o, seq_of(&["Sentence"]));
    let windows = logic.get_inputs_and_indices(&texts);
    let preds: Vec<Vec<Vec<u32>>> = windows.iter().map(|_| vec![vec![250_000u32]; 6]).collect();
    let curves = nnsplit::reconstruct(&texts, &windows, &preds, logic.options(), 1);
    assert_eq!(curves.len(), 2);
    assert_eq!(curves[0].len(), 40);
    assert_eq!(curves[1].len(), 0);
    for row in &curves[0] {
        assert_eq!(row.len(), 1);
        assert_eq!(row[0], 250_000);
    }
}

fn collect_leaves(s: &Split, out: &mut Vec<u8>) {
    match s.parts() {
        None => out.extend_from_slice(s.text()),
        Some(parts) => {
            for p in parts.iter() {
                collect_leaves(p, out);
            }
        }
    }
}

#[test]
fn end_to_end_two_sentences() {
    // A backend that marks a sentence boundary on the space after the
    // first "Test" and token boundaries on every space must yield exactly
    // two sentences, each cut into tokens that concatenate back exactly.
    let text = b"Das ist ein Test Das ist noch ein Test.".to_vec();
    let o = opts(500_000, 64, 64, 0, 1);
    let logic = NNSplitLogic::new(o, seq_of(&["Sentence", "Token"]));
    let texts = vec![text.clone()];
    let windows = logic.get_inputs_and_indices(&texts);
    assert_eq!(windows.len(), 1);
    let mut preds: Vec<Vec<Vec<u32>>> = Vec::new();
    let mut rows: Vec<Vec<u32>> = Vec::new();
    for p in 0..64usize {
        let sentence = if p == 16 || p == 38 { 900_000 } else { 100_000 };
        let token = if p < text.len() && (text[p] == b' ' || text[p] == b'.') {
            900_000
        } else {
            100_000
        };
        rows.push(vec![sentence, token]);
    }
    preds.push(rows);
    let splits = logic.split(&texts, &windows, &preds);
    assert_eq!(splits.len(), 1);
    let root = &splits[0];
    assert_eq!(root.text(), &text);
    assert_eq!(
        root.flatten(0),
        vec![
            b"Das ist ein Test ".to_vec(),
            b"Das ist noch ein Test.".to_vec()
        ]
    );
    let parts = root.parts().unwrap();
    assert_eq!(parts.len(), 2);
    for child in parts.iter() {
        let mut leaves = Vec::new();
        collect_leaves(child, &mut leaves);
        assert_eq!(&leaves, child.text());
    }
    assert_eq!(
        root.flatten(1),
        vec![
            b"Das ".to_vec(),
            b"ist ".to_vec(),
            b"ein ".to_vec(),
            b"Test ".to_vec(),
            b"Das ".to_vec(),
            b"ist ".to_vec(),
            b"noch ".to_vec(),
            b"ein ".to_vec(),
            b"Test.".to_vec()
        ]
    );
    let mut leaves = Vec::new();
    collect_leaves(root, &mut leaves);
    assert_eq!(leaves, text);
}

#[test]
fn repeated_pattern_splits_into_twenty_spans() {
    let unit = b"Eine Vernetzung von Neuronen im Nervensystem eines Lebewesens darstellen. ";
    let mut text: Vec<u8> = Vec::new();
    for _ in 0..20 {
        text.extend_from_slice(unit);
    }
    let o = opts(500_000, 50, 100, 5, 2);
    let logic = NNSplitLogic::new(o, seq_of(&["Sentence"]));
    let texts = vec![text.clone()];
    let windows = logic.get_inputs_and_indices(&texts);
    assert!(windows.len() > 1);
    let mut preds: Vec<Vec<Vec<u32>>> = Vec::new();
    for w in &windows {
        let mut rows: Vec<Vec<u32>> = Vec::new();
        for p in 0..100usize {
            let abs = w.offset + p;
            let val = if abs >= 5 {
                let orig = abs - 5;
                if orig < text.len() && orig % unit.len() == unit.len() - 1 {
                    900_000
                } else {
                    100_000
                }
            } else {
                100_000
            };
            rows.push(vec![val]);
        }
        preds.push(rows);
    }
    let splits = logic.split(&texts, &windows, &preds);
    assert_eq!(splits.len(), 1);
    let root = &splits[0];
    assert_eq!(root.text(), &text);
    assert_eq!(root.flatten(0), vec![unit.to_vec(); 20]);
    let mut leaves = Vec::new();
    collect_leaves(root, &mut leaves);
    assert_eq!(leaves, text);
}

#[test]
fn hidden_level_adds_no_depth_and_moves_separators() {
    // levels: Token, then hidden _Whitespace. The visible token cut falls
    // after "ab"; the hidden level marks the following spaces, so they
    // stay attached to the token they terminate, and no extra nesting
    // depth appears.
    let text = b"ab  cd".to_vec();
    let o = opts(500_000, 16, 16, 0, 1);
    let logic = NNSplitLogic::new(o, seq_of(&["Token", "_Whitespace"]));
    let texts = vec![text.clone()];
    let windows = logic.get_inputs_and_indices(&texts);
    let mut rows: Vec<Vec<u32>> = Vec::new();
    for p in 0..16usize {
        // token channel: boundary on the first space (position 2)
        let token = if p == 1 { 900_000 } else { 100_000 };
        // hidden channel: marks both spaces
        let ws = if p == 2 || p == 3 { 900_000 } else { 100_000 };
        rows.push(vec![token, ws]);
    }
    let splits = logic.split(&texts, &windows, &vec![rows]);
    let root = &splits[0];
    let parts = root.parts().unwrap();
    assert_eq!(parts.len(), 2);
    assert_eq!(parts[0].text(), &b"ab  ".to_vec());
    assert_eq!(parts[1].text(), &b"cd".to_vec());
    // the children of the only visible level are leaves: one node layer
    for child in parts.iter() {
        assert!(child.parts().is_none());
    }
    let mut leaves = Vec::new();
    collect_leaves(root, &mut leaves);
    assert_eq!(leaves, text);
}

#[test]
fn four_level_hierarchy_has_three_visible_depths() {
    let text = b"aa bb.".to_vec();
    let o = opts(500_000, 16, 16, 0, 1);
    let logic = NNSplitLogic::new(
        o,
        seq_of(&["Sentence", "Token", "_Whitespace", "Compound constituent"]),
    );
    let texts = vec![text.clone()];
    let windows = logic.get_inputs_and_indices(&texts);
    let mut rows: Vec<Vec<u32>> = Vec::new();
    for p in 0..16usize {
        let sentence = 100_000;
        let token = if p == 2 { 900_000 } else { 100_000 };
        let ws = 100_000;
        let compound = 100_000;
        rows.push(vec![sentence, token, ws, compound]);
    }
    let splits = logic.split(&texts, &windows, &vec![rows]);
    let root = &splits[0];
    // depth 1: the sentence layer (no boundary: one child spanning all)
    let sentences = root.parts().unwrap();
    assert_eq!(sentences.len(), 1);
    assert_eq!(sentences[0].text(), &text);
    // depth 2: the token layer
    let tokens = sentences[0].parts().unwrap();
    assert_eq!(tokens.len(), 2);
    assert_eq!(tokens[0].text(), &b"aa ".to_vec());
    assert_eq!(tokens[1].text(), &b"bb.".to_vec());
    // depth 3: the compound layer, below which only leaves remain; the
    // hidden level added no nesting in between
    for tok in tokens.iter() {
        let compounds = tok.parts().unwrap();
        assert!(compounds.len() >= 1);
        for c in compounds.iter() {
            assert!(c.parts().is_none());
        }
    }
    let mut leaves = Vec::new();
    collect_leaves(root, &mut leaves);
    assert_eq!(leaves, text);
}

#[test]
fn empty_text_splits_into_its_own_empty_tree() {
    let o = opts(500_000, 4, 4, 1, 1);
    let logic = NNSplitLogic::new(o, seq_of(&["Sentence"]));
    let texts = vec![Vec::new()];
    let windows = logic.get_inputs_and_indices(&texts);
    let preds: Vec<Vec<Vec<u32>>> = windows.iter().map(|_| vec![vec![700_000u32]; 4]).collect();
    let splits = logic.split(&texts, &windows, &preds);
    assert_eq!(splits.len(), 1);
    assert_eq!(splits[0].text(), &Vec::<u8>::new());
    let mut leaves = Vec::new();
    collect_leaves(&splits[0], &mut leaves);
    assert_eq!(leaves, Vec::<u8>::new());
}

#[test]
fn windows_record_their_source_text() {
    let logic = NNSplitLogic::new(opts(500_000, 2, 4, 0, 1), seq_of(&["Sentence"]));
    let texts = vec![b"abcdef".to_vec(), b"xy".to_vec(), Vec::new()];
    let windows = logic.get_inputs_and_indices(&texts);
    // 2 windows for the six-byte text, 1 each for the short and empty one
    assert_eq!(windows.len(), 4);
    let ids: Vec<usize> = windows.iter().map(|w| w.text_id).collect();
    assert_eq!(ids, vec![0, 0, 1, 2]);
    assert_eq!(windows[2].bytes, b"xy\0\0".to_vec());
    assert_eq!(windows[3].bytes, vec![0u8; 4]);
}

#[test]
fn run_of_three_marks_alternates_boundaries() {
    // positions 1, 2 and 3 are all above the threshold: the state
    // machine declares 1, suppresses 2, declares 3 again
    let text = b"abcdef".to_vec();
    let o = opts(500_000, 8, 8, 0, 1);
    let logic = NNSplitLogic::new(o, seq_of(&["Token"]));
    let texts = vec![text.clone()];
    let windows = logic.get_inputs_and_indices(&texts);
    let mut rows: Vec<Vec<u32>> = Vec::new();
    for p in 0..8usize {
        let v = if p == 1 || p == 2 || p == 3 { 900_000 } else { 100_000 };
        rows.push(vec![v]);
    }
    let splits = logic.split(&texts, &windows, &vec![rows]);
    assert_eq!(
        splits[0].flatten(0),
        vec![b"ab".to_vec(), b"cd".to_vec(), b"ef".to_vec()]
    );
}

#[test]
fn consecutive_marks_make_no_empty_spans() {
    // positions 1 and 2 are both above the threshold; the boundary state
    // machine declares position 1 only, so no zero-length span appears
    let text = b"abcde".to_vec();
    let o = opts(500_000, 8, 8, 0, 1);
    let logic = NNSplitLogic::new(o, seq_of(&["Token"]));
    let texts = vec![text.clone()];
    let windows = logic.get_inputs_and_indices(&texts);
    let mut rows: Vec<Vec<u32>> = Vec::new();
    for p in 0..8usize {
        let v = if p == 1 || p == 2 { 900_000 } else { 100_000 };
        rows.push(vec![v]);
    }
    let splits = logic.split(&texts, &windows, &vec![rows]);
    let root = &splits[0];
    assert_eq!(root.flatten(0), vec![b"ab".to_vec(), b"cde".to_vec()]);
    for part in root.parts().unwrap().iter() {
        assert!(!part.text().is_empty());
    }
}
