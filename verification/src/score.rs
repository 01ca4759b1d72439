use vstd::prelude::*;

verus! {

/// Mathematical value of one score row: the assigned id, the username's
/// characters, and the numeric score.
pub struct ScoreV {
    pub id: int,
    pub username: Seq<char>,
    pub score: int,
}

/// Mathematical value of a score submission: no id yet.
pub struct NewScoreV {
    pub username: Seq<char>,
    pub score: int,
}

/// API-facing score record: a persisted attempt with its store-assigned id.
#[derive(Debug)]
pub struct Score {
    pub id: i32,
    pub username: String,
    pub score: i32,
}

impl View for Score {
    type V = ScoreV;

    open spec fn view(&self) -> ScoreV {
        ScoreV { id: self.id as int, username: self.username@, score: self.score as int }
    }
}

/// Storage-schema score record. Today it mirrors `Score` field for field, but
/// the API shape and the storage shape are kept as distinct types with an
/// explicit, total conversion between them, so the two can diverge later.
#[derive(Debug)]
pub struct ScoreDB {
    pub id: i32,
    pub username: String,
    pub score: i32,
}

impl View for ScoreDB {
    type V = ScoreV;

    open spec fn view(&self) -> ScoreV {
        ScoreV { id: self.id as int, username: self.username@, score: self.score as int }
    }
}

/// Input for creating a score. It deliberately has no id field: the store
/// assigns ids, and a caller-supplied id could collide or be ignored.
#[derive(Debug)]
pub struct NewScore {
    pub username: String,
    pub score: i32,
}

impl View for NewScore {
    type V = NewScoreV;

    open spec fn view(&self) -> NewScoreV {
        NewScoreV { username: self.username@, score: self.score as int }
    }
}

impl Score {
    pub fn new(username: String, score: i32) -> (r: Score)
        ensures
            r@ == (ScoreV { id: 0, username: username@, score: score as int }),
    {
        Score { id: 0, username, score }
    }

    pub fn to_score_db(&self) -> (r: ScoreDB)
        ensures
            r@ == self@,
    {
        ScoreDB { id: self.id, username: self.username.clone(), score: self.score }
    }
}

impl ScoreDB {
    pub fn to_score(&self) -> (r: Score)
        ensures
            r@ == self@,
    {
        Score { id: self.id, username: self.username.clone(), score: self.score }
    }
}

impl NewScore {
    pub fn to_score(&self) -> (r: Score)
        ensures
            r@ == (ScoreV { id: 0, username: self@.username, score: self@.score }),
    {
        Score::new(self.username.clone(), self.score)
    }
}

/// JSON envelope for list responses: a bare wrapper around the results.
#[derive(Debug)]
pub struct Response<T> {
    pub results: Vec<T>,
}

/// The envelope instantiated at the API score type.
pub type Scores = Response<Score>;

impl<T> Response<T> {
    pub fn new() -> (r: Self)
        ensures
            r.results@ == Seq::<T>::empty(),
    {
        Response { results: Vec::new() }
    }
}

/// The mathematical values of a sequence of API scores.
pub open spec fn score_views(s: Seq<Score>) -> Seq<ScoreV> {
    s.map_values(|x: Score| x@)
}

/// The mathematical values of a sequence of storage rows.
pub open spec fn db_views(s: Seq<ScoreDB>) -> Seq<ScoreV> {
    s.map_values(|x: ScoreDB| x@)
}

pub broadcast proof fn lemma_score_views_len(s: Seq<Score>)
    ensures
        (#[trigger] score_views(s)).len() == s.len(),
{
}

pub broadcast proof fn lemma_score_views_index(s: Seq<Score>, i: int)
    requires
        0 <= i < s.len(),
    ensures
        #[trigger] score_views(s)[i] == s[i]@,
{
}

pub broadcast proof fn lemma_db_views_len(s: Seq<ScoreDB>)
    ensures
        (#[trigger] db_views(s)).len() == s.len(),
{
}

pub broadcast proof fn lemma_db_views_index(s: Seq<ScoreDB>, i: int)
    requires
        0 <= i < s.len(),
    ensures
        #[trigger] db_views(s)[i] == s[i]@,
{
}

/// Index and length facts for the two view maps, for use in proofs.
pub broadcast group group_view_maps {
    lemma_score_views_len,
    lemma_score_views_index,
    lemma_db_views_len,
    lemma_db_views_index,
}

} // verus!
