use vstd::prelude::*;

use crate::json::envelope_json;
use crate::json::score_json;
use crate::json::score_to_json;
use crate::json::scores_to_json;
use crate::score::Score;
use crate::score::ScoreV;
use crate::score::score_views;
use crate::store::StoreError;

verus! {

/// How many rows the top-scores route returns.
pub const TOP_SCORE_LIMIT: usize = 20;

/// One HTTP reply: the status code and the body text.
pub struct HttpReply {
    pub status: u16,
    pub body: String,
}

/// The reply for the top-scores route. A failed read is masked: the reply
/// is still a well-formed envelope, carrying no results, never an error.
pub fn get_scores(fetched: Result<Vec<Score>, StoreError>) -> (r: HttpReply)
    ensures
        r.status == 200,
        (match fetched {
            Ok(rows) => r.body@ == envelope_json(score_views(rows@)),
            Err(_) => r.body@ == envelope_json(Seq::<ScoreV>::empty()),
        }),
{
    match fetched {
        Ok(rows) => HttpReply { status: 200, body: scores_to_json(&rows) },
        Err(_) => {
            let none: Vec<Score> = Vec::new();
            let body = scores_to_json(&none);
            proof {
                assert(score_views(none@) =~= Seq::<ScoreV>::empty());
            }
            HttpReply { status: 200, body }
        },
    }
}

/// The reply for a score submission: the created row with its id on
/// success, and a bare no-content reply when the store failed.
pub fn add_score(created: Result<Score, StoreError>) -> (r: HttpReply)
    ensures
        (match created {
            Ok(sc) => r.status == 201 && r.body@ == score_json(sc@),
            Err(_) => r.status == 204 && r.body@ == Seq::<char>::empty(),
        }),
{
    match created {
        Ok(sc) => {
            let body = score_to_json(&sc);
            HttpReply { status: 201, body }
        },
        Err(_) => HttpReply { status: 204, body: String::new() },
    }
}

/// The reply for the by-username route: the same masking envelope shape as
/// the top-scores route, over that user's rows.
pub fn get_scores_by_username(fetched: Result<Vec<Score>, StoreError>) -> (r: HttpReply)
    ensures
        r.status == 200,
        (match fetched {
            Ok(rows) => r.body@ == envelope_json(score_views(rows@)),
            Err(_) => r.body@ == envelope_json(Seq::<ScoreV>::empty()),
        }),
{
    match fetched {
        Ok(rows) => HttpReply { status: 200, body: scores_to_json(&rows) },
        Err(_) => {
            let none: Vec<Score> = Vec::new();
            let body = scores_to_json(&none);
            proof {
                assert(score_views(none@) =~= Seq::<ScoreV>::empty());
            }
            HttpReply { status: 200, body }
        },
    }
}

} // verus!
