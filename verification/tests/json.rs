use leaderboard::json::parse_new_score;
use leaderboard::json::parse_score;
use leaderboard::json::score_to_json;
use leaderboard::json::scores_to_json;
use leaderboard::score::Score;

#[test]
fn score_renders_exactly() {
    let s = Score { id: 3, username: "x".to_string(), score: 5 };
    assert_eq!(score_to_json(&s), "{\"id\":3,\"username\":\"x\",\"score\":5}");
}

#[test]
fn negative_score_renders_with_minus() {
    let s = Score { id: 1, username: "neg".to_string(), score: -5 };
    assert_eq!(score_to_json(&s), "{\"id\":1,\"username\":\"neg\",\"score\":-5}");
}

#[test]
fn quotes_and_backslashes_are_escaped() {
    let s = Score { id: 1, username: "a\"b\\c".to_string(), score: 2 };
    assert_eq!(score_to_json(&s), "{\"id\":1,\"username\":\"a\\\"b\\\\c\",\"score\":2}");
}

#[test]
fn round_trip_plain() {
    let s = Score { id: 12, username: "alice".to_string(), score: 42 };
    let back = parse_score(&score_to_json(&s)).expect("own rendering must read back");
    assert_eq!(back.id, 12);
    assert_eq!(back.username, "alice");
    assert_eq!(back.score, 42);
}

#[test]
fn round_trip_with_escapes_and_extremes() {
    let s = Score { id: i32::MAX, username: "we\\ird\"name".to_string(), score: i32::MIN };
    let back = parse_score(&score_to_json(&s)).expect("own rendering must read back");
    assert_eq!(back.id, i32::MAX);
    assert_eq!(back.username, "we\\ird\"name");
    assert_eq!(back.score, i32::MIN);
}

#[test]
fn submission_text_reads_back() {
    let ns = parse_new_score("{\"username\":\"bob\",\"score\":10}")
        .expect("a well-formed submission must parse");
    assert_eq!(ns.username, "bob");
    assert_eq!(ns.score, 10);
}

#[test]
fn whitespace_and_member_order_are_tolerated() {
    let ns = parse_new_score(" {\n\t\"score\": 10 ,  \"username\" : \"bob\"\r}  ")
        .expect("whitespace and member order are insignificant");
    assert_eq!(ns.username, "bob");
    assert_eq!(ns.score, 10);
    let sc = parse_score("{\"score\":-3,\"id\":9,\"username\":\"eve\"}")
        .expect("members may come in any order");
    assert_eq!(sc.id, 9);
    assert_eq!(sc.username, "eve");
    assert_eq!(sc.score, -3);
}

#[test]
fn standard_escapes_are_understood() {
    let ns = parse_new_score("{\"username\":\"a\\n\\t\\u0041b\\/\",\"score\":1}")
        .expect("standard string escapes must parse");
    assert_eq!(ns.username, "a\n\tAb/");
    assert_eq!(ns.score, 1);
}

#[test]
fn control_characters_are_escaped() {
    let s = Score { id: 1, username: "a\nb".to_string(), score: 2 };
    let text = score_to_json(&s);
    assert_eq!(text, "{\"id\":1,\"username\":\"a\\u000ab\",\"score\":2}");
    let back = parse_score(&text).expect("own rendering must read back");
    assert_eq!(back.username, "a\nb");
}

#[test]
fn malformed_texts_are_rejected() {
    assert!(parse_score("").is_none());
    assert!(parse_score("{\"id\":,\"username\":\"x\",\"score\":1}").is_none());
    assert!(parse_score("{\"id\":1,\"username\":\"x\",\"score\":1}x").is_none());
    assert!(parse_score("{\"id\":007,\"username\":\"x\",\"score\":1}").is_none());
    assert!(parse_score("{\"id\":99999999999,\"username\":\"x\",\"score\":1}").is_none());
    assert!(parse_score("{\"id\":1,\"username\":\"a\nb\",\"score\":1}").is_none());
    assert!(parse_score("{\"id\":1,\"username\":\"\\ud800\",\"score\":1}").is_none());
    assert!(parse_score("{\"id\":1,\"id\":2,\"username\":\"x\",\"score\":1}").is_none());
    assert!(parse_score("{\"id\":1,\"username\":\"x\",\"score\":1,}").is_none());
    assert!(parse_new_score("{\"username\":\"bob\"}").is_none());
    assert!(parse_new_score("{\"username\":\"bob\",\"score\":9999999999999}").is_none());
    assert!(parse_new_score("{\"id\":1,\"username\":\"bob\",\"score\":2}").is_none());
    assert!(parse_new_score("{\"username\":\"bob\",\"score\":2,\"extra\":0}").is_none());
}

#[test]
fn envelope_renders_exactly() {
    let rows = vec![
        Score { id: 1, username: "a".to_string(), score: 9 },
        Score { id: 2, username: "b".to_string(), score: 7 },
    ];
    assert_eq!(
        scores_to_json(&rows),
        "{\"results\":[{\"id\":1,\"username\":\"a\",\"score\":9},{\"id\":2,\"username\":\"b\",\"score\":7}]}"
    );
}

#[test]
fn empty_envelope_renders_exactly() {
    let rows: Vec<Score> = Vec::new();
    assert_eq!(scores_to_json(&rows), "{\"results\":[]}");
}
