use privstrip::argmax_decode;
use privstrip::labels::{Boundary, LabelInfo};
use privstrip::viterbi::{is_valid_transition, ViterbiBiases, ViterbiDecoder};

fn person() -> LabelInfo {
    let all = ["O", "B-person", "I-person", "E-person", "S-person"];
    let entries = all.iter().enumerate().map(|(i, l)| (i.to_string(), l.to_string())).collect();
    LabelInfo::from_config(entries).unwrap()
}

fn bits(values: &[f32]) -> Vec<u32> {
    values.iter().map(|v| v.to_bits()).collect()
}

fn plus(a: u32, b: u32) -> u32 {
    (f32::from_bits(a) + f32::from_bits(b)).to_bits()
}

fn decode(decoder: &ViterbiDecoder, rows: &[[f32; 5]]) -> Vec<usize> {
    let flat: Vec<f32> = rows.iter().flatten().copied().collect();
    decoder.decode(&bits(&flat), rows.len(), &plus)
}

#[test]
fn malformed_argmax_is_repaired() {
    let rows = [[-3.0, -1.0, -0.5, -4.0, -4.0], [-3.0, -4.0, -4.0, -0.1, -3.0]];
    let flat: Vec<f32> = rows.iter().flatten().copied().collect();
    assert_eq!(argmax_decode(&bits(&flat), 2, 5), vec![2, 3]);
    let decoder = ViterbiDecoder::with_biases(&person(), ViterbiBiases::default());
    assert_eq!(decoder.num_classes(), 5);
    assert_eq!(decode(&decoder, &rows), vec![1, 3]);
}

#[test]
fn single_token_opens_and_closes() {
    let decoder = ViterbiDecoder::with_biases(&person(), ViterbiBiases::default());
    assert_eq!(decode(&decoder, &[[-9.0, -0.1, -0.1, -0.1, -8.0]]), vec![4]);
}

#[test]
fn biases_move_the_path() {
    let rows = [[-1.0, -9.0, -9.0, -9.0, -2.0], [-1.0, -9.0, -9.0, -9.0, -2.0]];
    let free = ViterbiDecoder::with_biases(&person(), ViterbiBiases::default());
    assert_eq!(decode(&free, &rows), vec![0, 0]);
    let biases = ViterbiBiases {
        transition_bias_background_stay: (-5.0f32).to_bits(),
        transition_bias_background_to_start: (-5.0f32).to_bits(),
        transition_bias_end_to_background: (-5.0f32).to_bits(),
        ..ViterbiBiases::default()
    };
    let biased = ViterbiDecoder::with_biases(&person(), biases);
    assert_eq!(decode(&biased, &rows), vec![4, 4]);
}

#[test]
fn inside_biases_apply_to_continuing_and_ending() {
    let rows = [
        [-9.0, -1.0, -9.0, -9.0, -9.0],
        [-9.0, -9.0, -1.0, -1.5, -9.0],
        [-1.2, -9.0, -9.0, -1.0, -9.0],
    ];
    let free = ViterbiDecoder::with_biases(&person(), ViterbiBiases::default());
    assert_eq!(decode(&free, &rows), vec![1, 2, 3]);
    let biases = ViterbiBiases {
        transition_bias_inside_to_continue: (-3.0f32).to_bits(),
        transition_bias_inside_to_end: (0.0f32).to_bits(),
        ..ViterbiBiases::default()
    };
    let biased = ViterbiDecoder::with_biases(&person(), biases);
    assert_eq!(decode(&biased, &rows), vec![1, 3, 0]);
}

#[test]
fn unreachable_paths_fall_back_to_argmax() {
    let low = f32::NEG_INFINITY;
    let rows = [[low; 5], [-1.0, -9.0, -0.5, -9.0, -9.0]];
    let decoder = ViterbiDecoder::with_biases(&person(), ViterbiBiases::default());
    assert_eq!(decode(&decoder, &rows), vec![0, 2]);
}

#[test]
fn no_tokens_no_labels() {
    let decoder = ViterbiDecoder::with_biases(&person(), ViterbiBiases::default());
    assert_eq!(decoder.decode(&[], 0, &plus), Vec::<usize>::new());
    assert_eq!(argmax_decode(&[], 0, 5), Vec::<usize>::new());
}

#[test]
fn argmax_takes_the_first_of_equals_and_skips_nan() {
    assert_eq!(argmax_decode(&bits(&[1.0, 2.0, 2.0]), 1, 3), vec![1]);
    assert_eq!(argmax_decode(&bits(&[f32::NAN, -3.0, f32::NAN]), 1, 3), vec![1]);
    assert_eq!(argmax_decode(&bits(&[-0.0, 0.0]), 1, 2), vec![0]);
    assert_eq!(argmax_decode(&bits(&[-2.0, -1.0, 5.0, 1.0]), 2, 2), vec![1, 0]);
    assert_eq!(argmax_decode(&bits(&[f32::NEG_INFINITY; 3]), 1, 3), vec![0]);
}

#[test]
fn decoded_path_is_the_best_of_all_allowed() {
    let info = person();
    let decoder = ViterbiDecoder::with_biases(&info, ViterbiBiases::default());
    let rows = [
        [-2.0, -1.25, -0.5, -3.0, -2.5],
        [-1.5, -2.0, -1.75, -0.25, -4.0],
        [-0.75, -2.25, -1.0, -0.5, -1.5],
    ];
    let path = decode(&decoder, &rows);
    let mut best = f32::NEG_INFINITY;
    let mut best_path = Vec::new();
    for a in 0..5 {
        for b in 0..5 {
            for c in 0..5 {
                let starts = a == 0 || matches!(info.boundary[a], Boundary::B | Boundary::S);
                let ends = c == 0 || matches!(info.boundary[c], Boundary::E | Boundary::S);
                if starts && ends && is_valid_transition(&info, a, b) && is_valid_transition(&info, b, c)
                {
                    let total = rows[0][a] + rows[1][b] + rows[2][c];
                    if total > best {
                        best = total;
                        best_path = vec![a, b, c];
                    }
                }
            }
        }
    }
    assert_eq!(path, best_path);
}

#[test]
fn spans_of_different_labels_do_not_join() {
    let all = ["O", "B-a", "I-a", "E-a", "S-a", "B-b", "I-b", "E-b", "S-b"];
    let entries = all.iter().enumerate().map(|(i, l)| (i.to_string(), l.to_string())).collect();
    let info = LabelInfo::from_config(entries).unwrap();
    assert!(is_valid_transition(&info, 1, 2));
    assert!(is_valid_transition(&info, 1, 3));
    assert!(!is_valid_transition(&info, 1, 6));
    assert!(!is_valid_transition(&info, 1, 7));
    assert!(!is_valid_transition(&info, 1, 0));
    assert!(!is_valid_transition(&info, 0, 2));
    assert!(is_valid_transition(&info, 3, 5));
    assert!(is_valid_transition(&info, 4, 0));
    assert!(is_valid_transition(&info, 0, 8));
    assert!(!is_valid_transition(&info, 4, 2));
}

#[test]
fn positive_biases_keep_sequences_well_formed() {
    let info = person();
    let biases = ViterbiBiases {
        transition_bias_background_stay: 2.5f32.to_bits(),
        transition_bias_background_to_start: 1.5f32.to_bits(),
        transition_bias_inside_to_continue: 40.0f32.to_bits(),
        transition_bias_inside_to_end: (-3.0f32).to_bits(),
        transition_bias_end_to_background: 7.0f32.to_bits(),
        transition_bias_end_to_start: 0.5f32.to_bits(),
    };
    let decoder = ViterbiDecoder::with_biases(&info, biases);
    let rows: Vec<[f32; 5]> = (0..60)
        .map(|t| {
            let mut row = [-3.0f32; 5];
            row[(t * 7 + t / 5) % 5] = -0.25;
            row[(t * 3) % 5] -= 1.5;
            row
        })
        .collect();
    let path = decode(&decoder, &rows);
    assert_eq!(path.len(), 60);
    assert!(path[0] == 0 || matches!(info.boundary[path[0]], Boundary::B | Boundary::S));
    assert!(path[59] == 0 || matches!(info.boundary[path[59]], Boundary::E | Boundary::S));
    assert!(path.windows(2).all(|w| is_valid_transition(&info, w[0], w[1])));
}

#[test]
fn decoding_falls_back_where_no_path_is_good() {
    let decoder = ViterbiDecoder::with_biases(&person(), ViterbiBiases::default());
    let (low, none) = (f32::NEG_INFINITY, f32::NAN);
    let hopeless = [
        [[low; 5], [low; 5]],
        [[none; 5], [none; 5]],
        [[low, none, -1.0, none, low], [none, -2.0, low, none, -3.0]],
    ];
    for rows in hopeless {
        let flat: Vec<f32> = rows.iter().flatten().copied().collect();
        assert_eq!(decode(&decoder, &rows), argmax_decode(&bits(&flat), 2, 5));
    }
    assert_eq!(decode(&decoder, &hopeless[2]), vec![2, 1]);
    assert_eq!(decode(&decoder, &[[none, -1.0, none, none, none], [none, none, none, -9.0, -1.0]]), vec![1, 3]);
    assert_eq!(decode(&decoder, &[]), Vec::<usize>::new());
    let high = [[low, low, low, low, low], [0.0; 5], [9e8; 5]];
    assert_eq!(decode(&decoder, &high)[1..], [0, 0]);
}

#[test]
fn more_scores_are_passed_over() {
    let decoder = ViterbiDecoder::with_biases(&person(), ViterbiBiases::default());
    let scores = bits(&[-9.0, -0.1, -0.1, -0.1, -8.0, 0.0, 0.0]);
    assert_eq!(decoder.decode(&scores, 1, &plus), vec![4]);
}
