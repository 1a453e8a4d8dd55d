use furor::Ans;
use furor::AnsError;
use num_bigint::BigUint;

#[test]
fn worked_scenario_encode() {
    let ans = Ans::new(vec!['a', 'a', 'b']);
    assert_eq!(ans.encode("ab").unwrap(), BigUint::from(7u32));
}

#[test]
fn worked_scenario_decode() {
    let ans = Ans::new(vec!['a', 'a', 'b']);
    assert_eq!(ans.decode(BigUint::from(7u32)), "ab");
}

#[test]
fn worked_scenario_intermediate_step() {
    // The first step of the worked scenario: encoding 'b' from the sentinel
    // state 1 yields 5.
    let ans = Ans::new(vec!['a', 'a', 'b']);
    assert_eq!(ans.encode("b").unwrap(), BigUint::from(5u32));
    assert_eq!(ans.decode(BigUint::from(5u32)), "b");
}

#[test]
fn empty_message_yields_initial_state() {
    let ans = Ans::new(vec!['a', 'a', 'b']);
    assert_eq!(ans.encode("").unwrap(), BigUint::from(1u32));
    assert_eq!(ans.decode(BigUint::from(1u32)), "");
}

#[test]
fn unknown_symbol_is_rejected() {
    let ans = Ans::new(vec!['a', 'a', 'b']);
    assert_eq!(ans.encode("abc"), Err(AnsError::UnknownSymbol));
}

#[test]
fn round_trip_mixed_message() {
    let ans = Ans::new(vec!['a', 'a', 'a', 'b', 'c', 'a', 'b', 'a']);
    let msg = "abacabcbacbbabc";
    let state = ans.encode(msg).unwrap();
    assert_eq!(ans.decode(state), msg);
}

#[test]
fn round_trip_two_symbol_labeling() {
    let ans = Ans::new(vec!['x', 'y']);
    let msg = "xyxxyyxy";
    let state = ans.encode(msg).unwrap();
    assert_eq!(ans.decode(state), msg);
}

#[test]
fn trailing_leading_symbol_is_absorbed() {
    // A trailing run of the labeling's leading symbol carries no information
    // at the sentinel state: "ba" encodes like "b" and decodes to "b".
    let ans = Ans::new(vec!['a', 'a', 'b']);
    let state = ans.encode("ba").unwrap();
    assert_eq!(state, BigUint::from(5u32));
    assert_eq!(ans.decode(state), "b");
}

#[test]
fn single_symbol_labeling_absorbs_everything() {
    // With a one-symbol alphabet each symbol carries no information; the
    // state never leaves the sentinel.
    let ans = Ans::new(vec!['z']);
    assert_eq!(ans.encode("zzz").unwrap(), BigUint::from(1u32));
    assert_eq!(ans.decode(BigUint::from(1u32)), "");
}

#[test]
fn decode_guards_against_non_decreasing_state() {
    // On a one-symbol labeling the decode step maps every state to itself;
    // decode must stop rather than loop.
    let ans = Ans::new(vec!['z']);
    assert_eq!(ans.decode(BigUint::from(5u32)), "");
}

#[test]
fn empty_labeling() {
    let ans = Ans::new(vec![]);
    assert_eq!(ans.encode("").unwrap(), BigUint::from(0u32));
    assert_eq!(ans.decode(BigUint::from(0u32)), "");
    assert_eq!(ans.encode("a"), Err(AnsError::UnknownSymbol));
    assert_eq!(ans.decode(BigUint::from(9u32)), "");
}

#[test]
fn long_message_grows_state_and_recovers() {
    let ans = Ans::new(vec!['a', 'a', 'b', 'a', 'c']);
    let mut msg = String::new();
    for i in 0..400 {
        msg.push(match i % 5 {
            0 => 'b',
            3 => 'c',
            _ => 'a',
        });
    }
    msg.push('c');
    let state = ans.encode(&msg).unwrap();
    // 400+ symbols cannot fit a machine word: the state must be large.
    assert!(state > BigUint::from(u64::MAX));
    assert_eq!(ans.decode(state), msg);
}

#[test]
fn construction_is_deterministic() {
    // Two coders from the same labeling behave identically.
    let a = Ans::new(vec!['q', 'q', 'r', 's', 'q']);
    let b = Ans::new(vec!['q', 'q', 'r', 's', 'q']);
    let msg = "qrsqsr";
    let sa = a.encode(msg).unwrap();
    let sb = b.encode(msg).unwrap();
    assert_eq!(sa, sb);
    assert_eq!(a.decode(sa), b.decode(sb));
}
