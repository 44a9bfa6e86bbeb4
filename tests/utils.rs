use mid_text_converter::utils::{merge_string, parse_track, tick_to_string};

fn merge(streams: &[&str]) -> String {
    merge_string(&streams.iter().map(|s| s.to_string()).collect())
}

#[test]
fn test_tick_conversion() {
    assert_eq!(tick_to_string(0), "".to_string());
    assert_eq!(tick_to_string(1), ".".to_string());
    assert_eq!(tick_to_string(2), "1".to_string());
    assert_eq!(tick_to_string(3), "1.".to_string());
    assert_eq!(tick_to_string(4), "2".to_string());

    assert_eq!(tick_to_string(38), "991".to_string());
}

#[test]
fn test_merge_string() {
    assert_eq!(
        merge_string(&vec!["G4I4K".to_string(), "2G4I4K".to_string()]),
        "G2G2I2I2K2K".to_string()
    );

    assert_eq!(
        merge_string(&vec!["G4I4K".to_string(), "2G4I4KA".to_string()]),
        "G2G2I2I2K2KA".to_string()
    );

    assert_eq!(
        merge_string(&vec!["AA@.A".to_string(), "BB1B".to_string(), "CCC".to_string()]),
        "AA@BBCCC.A.B".to_string()
    );

    assert_eq!(
        merge_string(&vec!["=G9999999999999999999999999999999999999999999999997=G6=G3=G96=G9=G96=G9=G96=G".to_string(), "B1B".to_string()]),
        "=GB1B9999999999999999999999999999999999999999999999996=G6=G3=G96=G9=G96=G9=G96=G".to_string()
    );
}

#[test]
fn tick_tokens_around_thresholds() {
    assert_eq!(tick_to_string(17), "8.");
    assert_eq!(tick_to_string(18), "9");
    assert_eq!(tick_to_string(19), "9.");
    assert_eq!(tick_to_string(20), "91");
    assert_eq!(tick_to_string(36), "99");
    assert_eq!(tick_to_string(37), "99.");
}

#[test]
fn tick_token_of_long_gap() {
    // 1001 = 18 * 55 + 11
    let expected = format!("{}5.", "9".repeat(55));
    assert_eq!(tick_to_string(1001), expected);
}

#[test]
fn stream_decoding() {
    assert_eq!(parse_track(""), vec![]);
    assert_eq!(parse_track("A"), vec![(0, 'A')]);
    assert_eq!(parse_track("AA@.A"), vec![(0, 'A'), (0, 'A'), (0, '@'), (1, 'A')]);
    assert_eq!(parse_track("91.+N-B"), vec![(21, '+'), (21, 'N'), (21, '-'), (21, 'B')]);
    assert_eq!(parse_track("12.3"), vec![]);
}

#[test]
fn tick_tokens_decode_back() {
    for d in 0u32..200 {
        let token = tick_to_string(d);
        let back: u32 = token
            .chars()
            .map(|c| if c == '.' { 1 } else { 2 * c.to_digit(10).unwrap() })
            .sum();
        assert_eq!(back, d);
        // merging the token followed by an event puts the event back at tick d
        let stream = format!("{}A", token);
        assert_eq!(merge(&[stream.as_str()]), stream);
    }
}

#[test]
fn merge_of_nothing_is_empty() {
    assert_eq!(merge(&[]), "");
    assert_eq!(merge(&["", ""]), "");
    assert_eq!(merge(&["12.", "9"]), "");
}

#[test]
fn merge_single_stream_renormalizes() {
    assert_eq!(merge(&["11A"]), "2A");
    assert_eq!(merge(&["..A.B"]), "1A.B");
    assert_eq!(merge(&["AB"]), "AB");
    assert_eq!(merge(&["0A"]), "A");
}

#[test]
fn merge_keeps_stream_order_on_equal_ticks() {
    assert_eq!(merge(&["G4I4K", "2G4I4K"]), "G2G2I2I2K2K");
    assert_eq!(merge(&["1A", "1B"]), "1AB");
    assert_eq!(merge(&["1B", "1A"]), "1BA");
}

#[test]
fn merge_is_order_free_on_distinct_ticks() {
    assert_eq!(merge(&["A2B", "1C2D"]), merge(&["1C2D", "A2B"]));
    assert_eq!(merge(&["A2B", "1C2D"]), "A1C1B1D");
}

#[test]
fn merge_three_streams() {
    assert_eq!(merge(&["AA@.A", "BB1B", "CCC"]), "AA@BBCCC.A.B");
}
