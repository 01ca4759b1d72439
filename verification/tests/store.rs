use leaderboard::score::NewScore;
use leaderboard::score::Response;
use leaderboard::score::Score;
use leaderboard::score::ScoreDB;
use leaderboard::store::ScoreStore;
use leaderboard::store::StoreError;

fn put(store: &mut ScoreStore, name: &str, score: i32) -> ScoreDB {
    store
        .create_score(NewScore { username: name.to_string(), score })
        .expect("creating a score in a fresh store must succeed")
}

#[test]
fn top_scores_are_bounded_and_non_increasing() {
    let mut store = ScoreStore::new();
    put(&mut store, "a", 5);
    put(&mut store, "b", 9);
    put(&mut store, "c", 7);
    put(&mut store, "d", 9);
    let top = store.list_top_scores(3);
    assert_eq!(top.len(), 3);
    for w in top.windows(2) {
        assert!(w[0].score >= w[1].score);
    }
    assert_eq!(top[0].score, 9);
    assert_eq!(top[1].score, 9);
    assert!(top[0].id < top[1].id);
    assert_eq!(top[2].score, 7);
}

#[test]
fn top_with_large_limit_returns_everything() {
    let mut store = ScoreStore::new();
    put(&mut store, "a", 1);
    put(&mut store, "b", 2);
    let top = store.list_top_scores(50);
    assert_eq!(top.len(), 2);
    assert_eq!(top[0].score, 2);
    assert_eq!(top[1].score, 1);
}

#[test]
fn top_zero_is_empty() {
    let mut store = ScoreStore::new();
    put(&mut store, "a", 5);
    assert!(store.list_top_scores(0).is_empty());
}

#[test]
fn empty_table_lists_empty() {
    let store = ScoreStore::new();
    assert!(store.list_top_scores(20).is_empty());
    assert!(store.list_scores_by_username("anyone".to_string()).is_empty());
}

#[test]
fn by_username_returns_exactly_that_users_scores() {
    let mut store = ScoreStore::new();
    put(&mut store, "alice", 1);
    put(&mut store, "bob", 2);
    put(&mut store, "alice", 3);
    put(&mut store, "Alice", 4);
    let rows = store.list_scores_by_username("alice".to_string());
    assert_eq!(rows.len(), 2);
    assert_eq!(rows[0].username, "alice");
    assert_eq!(rows[1].username, "alice");
    assert_eq!(rows[0].score, 3);
    assert_eq!(rows[1].score, 1);
}

#[test]
fn create_then_list_shows_the_new_row() {
    let mut store = ScoreStore::new();
    let created = put(&mut store, "alice", 42);
    assert!(created.id >= 0);
    let rows = store.list_scores_by_username("alice".to_string());
    assert!(rows
        .iter()
        .any(|r| r.username == "alice" && r.score == 42 && r.id == created.id));
}

#[test]
fn create_assigns_fresh_ids_and_keeps_fields() {
    let mut store = ScoreStore::new();
    let a = put(&mut store, "a", 10);
    let b = put(&mut store, "b", 20);
    let c = put(&mut store, "c", 30);
    assert_eq!(a.id, 1);
    assert_eq!(b.id, 2);
    assert_eq!(c.id, 3);
    assert_eq!(b.username, "b");
    assert_eq!(b.score, 20);
}

#[test]
fn create_fails_when_ids_run_out() {
    let mut store = ScoreStore { rows: Vec::new(), next_id: i32::MAX };
    let r = store.create_score(NewScore { username: "x".to_string(), score: 1 });
    assert_eq!(r.unwrap_err(), StoreError::IdExhausted);
}

#[test]
fn response_new_is_empty() {
    let r: Response<Score> = Response::new();
    assert!(r.results.is_empty());
}

#[test]
fn conversions_keep_fields() {
    let s = Score::new("carol".to_string(), 17);
    assert_eq!(s.id, 0);
    assert_eq!(s.username, "carol");
    assert_eq!(s.score, 17);
    let db = s.to_score_db();
    assert_eq!(db.id, 0);
    assert_eq!(db.username, "carol");
    assert_eq!(db.score, 17);
    let back = db.to_score();
    assert_eq!(back.id, 0);
    assert_eq!(back.username, "carol");
    assert_eq!(back.score, 17);
    let fresh = NewScore { username: "dave".to_string(), score: -3 }.to_score();
    assert_eq!(fresh.id, 0);
    assert_eq!(fresh.username, "dave");
    assert_eq!(fresh.score, -3);
}
