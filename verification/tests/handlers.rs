use leaderboard::handlers::TOP_SCORE_LIMIT;
use leaderboard::handlers::add_score;
use leaderboard::handlers::get_scores;
use leaderboard::handlers::get_scores_by_username;
use leaderboard::score::NewScore;
use leaderboard::score::Score;
use leaderboard::store::ScoreStore;
use leaderboard::store::StoreError;

#[test]
fn unreachable_store_still_yields_a_well_formed_empty_listing() {
    let reply = get_scores(Err(StoreError::Unavailable));
    assert_eq!(reply.status, 200);
    assert_eq!(reply.body, "{\"results\":[]}");
    let reply = get_scores_by_username(Err(StoreError::Unavailable));
    assert_eq!(reply.status, 200);
    assert_eq!(reply.body, "{\"results\":[]}");
}

#[test]
fn failed_submission_yields_no_content() {
    let reply = add_score(Err(StoreError::Unavailable));
    assert_eq!(reply.status, 204);
    assert_eq!(reply.body, "");
}

#[test]
fn submit_then_list_scenario() {
    let mut store = ScoreStore::new();
    let created = store
        .create_score(NewScore { username: "bob".to_string(), score: 10 })
        .expect("creating a score in a fresh store must succeed");
    let id = created.id;
    let reply = add_score(Ok(created.to_score()));
    assert_eq!(reply.status, 201);
    assert_eq!(reply.body, format!("{{\"id\":{},\"username\":\"bob\",\"score\":10}}", id));

    let rows = store.list_scores_by_username("bob".to_string());
    let reply = get_scores_by_username(Ok(rows));
    assert_eq!(reply.status, 200);
    assert_eq!(
        reply.body,
        format!("{{\"results\":[{{\"id\":{},\"username\":\"bob\",\"score\":10}}]}}", id)
    );
}

#[test]
fn top_listing_route_reports_the_best_first() {
    let mut store = ScoreStore::new();
    store
        .create_score(NewScore { username: "a".to_string(), score: 3 })
        .expect("creating a score in a fresh store must succeed");
    store
        .create_score(NewScore { username: "b".to_string(), score: 8 })
        .expect("creating a score in a fresh store must succeed");
    let rows = store.list_top_scores(TOP_SCORE_LIMIT);
    let reply = get_scores(Ok(rows));
    assert_eq!(reply.status, 200);
    assert_eq!(
        reply.body,
        "{\"results\":[{\"id\":2,\"username\":\"b\",\"score\":8},{\"id\":1,\"username\":\"a\",\"score\":3}]}"
    );
}

#[test]
fn successful_submission_reports_the_created_row() {
    let row = Score { id: 7, username: "carol".to_string(), score: -2 };
    let reply = add_score(Ok(row));
    assert_eq!(reply.status, 201);
    assert_eq!(reply.body, "{\"id\":7,\"username\":\"carol\",\"score\":-2}");
}
