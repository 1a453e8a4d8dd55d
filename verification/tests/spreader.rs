use furor::Ans;
use furor::AnsError;
use furor::spreader::spread;

#[test]
fn spread_matches_worked_labeling() {
    let lab = spread(&vec![('a', 2), ('b', 1)], 3).unwrap();
    assert_eq!(lab, vec!['a', 'a', 'b']);
}

#[test]
fn spread_interleaves_by_weight() {
    let lab = spread(&vec![('a', 2), ('b', 1)], 6).unwrap();
    assert_eq!(lab.len(), 6);
    assert_eq!(lab.iter().filter(|c| **c == 'a').count(), 4);
    assert_eq!(lab.iter().filter(|c| **c == 'b').count(), 2);
}

#[test]
fn spread_covers_rare_symbols() {
    let lab = spread(&vec![('a', 1_000_000), ('b', 1)], 5).unwrap();
    assert_eq!(lab.len(), 5);
    assert!(lab.contains(&'a'));
    assert!(lab.contains(&'b'));
}

#[test]
fn spread_is_deterministic() {
    let freqs = vec![('x', 3), ('y', 5), ('z', 2)];
    let a = spread(&freqs, 16).unwrap();
    let b = spread(&freqs, 16).unwrap();
    assert_eq!(a, b);
    assert_eq!(a.len(), 16);
}

#[test]
fn spread_exact_fit_appends_each_once() {
    let lab = spread(&vec![('a', 1), ('b', 1)], 2).unwrap();
    assert_eq!(lab, vec!['a', 'b']);
}

#[test]
fn spread_rejects_zero_weight() {
    assert_eq!(spread(&vec![('a', 1), ('b', 0)], 4), Err(AnsError::InvalidFrequency));
}

#[test]
fn spread_rejects_short_length() {
    assert_eq!(
        spread(&vec![('a', 1), ('b', 1), ('c', 1)], 2),
        Err(AnsError::Configuration)
    );
}

#[test]
fn spread_rejects_duplicate_symbol() {
    assert_eq!(spread(&vec![('a', 1), ('a', 2)], 4), Err(AnsError::Configuration));
}

#[test]
fn spread_rejects_positive_length_with_no_symbols() {
    assert_eq!(spread(&vec![], 3), Err(AnsError::Configuration));
}

#[test]
fn spread_empty_alphabet_zero_length() {
    assert_eq!(spread(&vec![], 0).unwrap(), Vec::<char>::new());
}

#[test]
fn spread_then_code_round_trip() {
    let lab = spread(&vec![('a', 6), ('b', 3), ('c', 1)], 10).unwrap();
    let ans = Ans::new(lab);
    let msg = "abcababcab";
    let state = ans.encode(msg).unwrap();
    assert_eq!(ans.decode(state), msg);
}
