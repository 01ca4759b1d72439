use vstd::prelude::*;
use vstd::multiset::Multiset;

use crate::score::NewScore;
use crate::score::Score;
use crate::score::ScoreDB;
use crate::score::ScoreV;
use crate::score::score_views;

verus! {

/// A typed failure of the score store. Reads mask these at the handler
/// layer; writes surface them.
#[derive(Clone, Copy, Debug, PartialEq, Eq, Structural)]
pub enum StoreError {
    /// The backing store could not be reached or the query failed.
    Unavailable,
    /// No further id can be assigned.
    IdExhausted,
}

/// Ordering of leaderboard entries: higher score first; equal scores are
/// broken by ascending id, so the listing order is fully determined.
pub open spec fn rank_le(a: ScoreV, b: ScoreV) -> bool {
    a.score > b.score || (a.score == b.score && a.id <= b.id)
}

/// Non-increasing leaderboard order.
pub open spec fn sorted_desc(s: Seq<ScoreV>) -> bool {
    forall|i: int, j: int| 0 <= i < j < s.len() ==> rank_le(s[i], s[j])
}

/// Insert one entry into a sequence that is in leaderboard order.
pub open spec fn insert_desc(x: ScoreV, s: Seq<ScoreV>) -> Seq<ScoreV>
    decreases s.len(),
{
    if s.len() == 0 {
        seq![x]
    } else if rank_le(x, s[0]) {
        seq![x] + s
    } else {
        seq![s[0]] + insert_desc(x, s.drop_first())
    }
}

/// Sort into leaderboard order (insertion sort over the sequence).
pub open spec fn sort_desc(s: Seq<ScoreV>) -> Seq<ScoreV>
    decreases s.len(),
{
    if s.len() == 0 {
        Seq::empty()
    } else {
        insert_desc(s.last(), sort_desc(s.drop_last()))
    }
}

/// The rows whose username is exactly `name`, in storage order.
pub open spec fn user_rows(s: Seq<ScoreV>, name: Seq<char>) -> Seq<ScoreV> {
    s.filter(|v: ScoreV| v.username == name)
}

/// What a top-n listing returns: the n best entries, in leaderboard order.
pub open spec fn top_spec(s: Seq<ScoreV>, n: int) -> Seq<ScoreV> {
    sort_desc(s).take(if n <= s.len() as int {
        n
    } else {
        s.len() as int
    })
}

/// What a by-username listing returns: that user's rows, in leaderboard order.
pub open spec fn by_user_spec(s: Seq<ScoreV>, name: Seq<char>) -> Seq<ScoreV> {
    sort_desc(user_rows(s, name))
}

pub proof fn lemma_insert_desc_len(x: ScoreV, s: Seq<ScoreV>)
    ensures
        insert_desc(x, s).len() == s.len() + 1,
    decreases s.len(),
{
    if s.len() == 0 {
    } else if rank_le(x, s[0]) {
    } else {
        lemma_insert_desc_len(x, s.drop_first());
    }
}

pub proof fn lemma_sort_desc_len(s: Seq<ScoreV>)
    ensures
        sort_desc(s).len() == s.len(),
    decreases s.len(),
{
    if s.len() == 0 {
    } else {
        lemma_sort_desc_len(s.drop_last());
        lemma_insert_desc_len(s.last(), sort_desc(s.drop_last()));
    }
}

pub proof fn lemma_insert_desc_multiset(x: ScoreV, s: Seq<ScoreV>)
    ensures
        insert_desc(x, s).to_multiset() == s.to_multiset().insert(x),
    decreases s.len(),
{
    broadcast use vstd::seq_lib::group_to_multiset_ensures;

    if s.len() == 0 {
        assert(insert_desc(x, s) =~= Seq::empty().push(x));
        assert(Seq::<ScoreV>::empty().push(x).to_multiset() =~= s.to_multiset().insert(x));
    } else if rank_le(x, s[0]) {
        assert(insert_desc(x, s) =~= seq![x] + s);
        vstd::seq_lib::lemma_multiset_commutative(seq![x], s);
        assert(seq![x].to_multiset() =~= Multiset::empty().insert(x)) by {
            assert(seq![x] =~= Seq::empty().push(x));
        }
        assert((seq![x] + s).to_multiset() =~= s.to_multiset().insert(x));
    } else {
        lemma_insert_desc_multiset(x, s.drop_first());
        let rest = insert_desc(x, s.drop_first());
        vstd::seq_lib::lemma_multiset_commutative(seq![s[0]], rest);
        assert(seq![s[0]].to_multiset() =~= Multiset::empty().insert(s[0])) by {
            assert(seq![s[0]] =~= Seq::empty().push(s[0]));
        }
        assert(s =~= seq![s[0]] + s.drop_first());
        vstd::seq_lib::lemma_multiset_commutative(seq![s[0]], s.drop_first());
        assert((seq![s[0]] + rest).to_multiset() =~= s.to_multiset().insert(x));
    }
}

pub proof fn lemma_sort_desc_multiset(s: Seq<ScoreV>)
    ensures
        sort_desc(s).to_multiset() == s.to_multiset(),
    decreases s.len(),
{
    broadcast use vstd::seq_lib::group_to_multiset_ensures;

    if s.len() == 0 {
    } else {
        lemma_sort_desc_multiset(s.drop_last());
        lemma_insert_desc_multiset(s.last(), sort_desc(s.drop_last()));
        assert(s =~= s.drop_last().push(s.last()));
        assert(s.drop_last().push(s.last()).to_multiset() =~= s.drop_last().to_multiset().insert(
            s.last(),
        ));
    }
}

/// Everything in `insert_desc(x, s)` is `x` or an element of `s`.
pub proof fn lemma_insert_desc_contains(x: ScoreV, s: Seq<ScoreV>, y: ScoreV)
    requires
        insert_desc(x, s).contains(y),
    ensures
        y == x || s.contains(y),
{
    broadcast use vstd::seq_lib::group_to_multiset_ensures;

    lemma_insert_desc_multiset(x, s);
    if y != x {
        assert(insert_desc(x, s).to_multiset().count(y) > 0);
        assert(s.to_multiset().count(y) > 0);
    }
}

pub proof fn lemma_insert_desc_sorted(x: ScoreV, s: Seq<ScoreV>)
    requires
        sorted_desc(s),
    ensures
        sorted_desc(insert_desc(x, s)),
    decreases s.len(),
{
    if s.len() == 0 {
    } else if rank_le(x, s[0]) {
        let out = seq![x] + s;
        assert forall|i: int, j: int| 0 <= i < j < out.len() implies rank_le(out[i], out[j]) by {
            if i == 0 && j > 1 {
                assert(rank_le(s[0], s[j - 1]));
            }
        }
    } else {
        assert(sorted_desc(s.drop_first())) by {
            assert(forall|i: int, j: int|
                0 <= i < j < s.drop_first().len() ==> rank_le(
                    s.drop_first()[i],
                    s.drop_first()[j],
                ));
        }
        lemma_insert_desc_sorted(x, s.drop_first());
        let rest = insert_desc(x, s.drop_first());
        let out = seq![s[0]] + rest;
        assert forall|i: int, j: int| 0 <= i < j < out.len() implies rank_le(out[i], out[j]) by {
            if i == 0 {
                let y = rest[j - 1];
                assert(rest.contains(y));
                lemma_insert_desc_contains(x, s.drop_first(), y);
                if y == x {
                    assert(rank_le(s[0], x));
                } else {
                    let k = choose|k: int| 0 <= k < s.drop_first().len() && s.drop_first()[k] == y;
                    assert(s[k + 1] == y);
                    assert(rank_le(s[0], s[k + 1]));
                }
            }
        }
    }
}

pub proof fn lemma_sort_desc_sorted(s: Seq<ScoreV>)
    ensures
        sorted_desc(sort_desc(s)),
    decreases s.len(),
{
    if s.len() == 0 {
    } else {
        lemma_sort_desc_sorted(s.drop_last());
        lemma_insert_desc_sorted(s.last(), sort_desc(s.drop_last()));
    }
}

/// Where `insert_desc` places the new entry, given the first fitting index.
pub proof fn lemma_insert_desc_at(x: ScoreV, s: Seq<ScoreV>, i: int)
    requires
        0 <= i <= s.len(),
        forall|j: int| 0 <= j < i ==> !rank_le(x, s[j]),
        i < s.len() ==> rank_le(x, s[i]),
    ensures
        insert_desc(x, s) == s.take(i) + seq![x] + s.skip(i),
    decreases s.len(),
{
    if s.len() == 0 {
        assert(insert_desc(x, s) =~= s.take(i) + seq![x] + s.skip(i));
    } else if i == 0 {
        assert(s.take(0) =~= Seq::<ScoreV>::empty());
        assert(s.skip(0) =~= s);
        assert(insert_desc(x, s) =~= s.take(0) + seq![x] + s.skip(0));
    } else {
        assert(!rank_le(x, s[0]));
        lemma_insert_desc_at(x, s.drop_first(), i - 1);
        assert(insert_desc(x, s) == seq![s[0]] + (s.drop_first().take(i - 1) + seq![x]
            + s.drop_first().skip(i - 1)));
        assert(seq![s[0]] + (s.drop_first().take(i - 1) + seq![x] + s.drop_first().skip(i - 1))
            =~= s.take(i) + seq![x] + s.skip(i));
    }
}

/// The top-n listing never holds more than `n` entries, and each entry's
/// score is at least the score of the one after it.
pub proof fn lemma_top_scores_bounded_and_ordered(s: Seq<ScoreV>, n: int)
    requires
        0 <= n,
    ensures
        top_spec(s, n).len() <= n,
        forall|i: int, j: int|
            0 <= i < j < top_spec(s, n).len() ==> top_spec(s, n)[i].score >= top_spec(
                s,
                n,
            )[j].score,
{
    lemma_sort_desc_len(s);
    lemma_sort_desc_sorted(s);
    let t = top_spec(s, n);
    assert forall|i: int, j: int| 0 <= i < j < t.len() implies t[i].score >= t[j].score by {
        assert(t[i] == sort_desc(s)[i]);
        assert(t[j] == sort_desc(s)[j]);
        assert(rank_le(sort_desc(s)[i], sort_desc(s)[j]));
    }
}

/// The by-username listing returns exactly the rows stored under that exact
/// username — none missing, no others — in non-increasing score order.
pub proof fn lemma_by_user_exact(s: Seq<ScoreV>, name: Seq<char>)
    ensures
        by_user_spec(s, name).to_multiset() == user_rows(s, name).to_multiset(),
        forall|i: int|
            0 <= i < by_user_spec(s, name).len() ==> by_user_spec(s, name)[i].username == name,
        sorted_desc(by_user_spec(s, name)),
{
    broadcast use vstd::seq_lib::group_to_multiset_ensures;

    let picked = user_rows(s, name);
    lemma_sort_desc_multiset(picked);
    lemma_sort_desc_sorted(picked);
    let listed = by_user_spec(s, name);
    assert forall|i: int| 0 <= i < listed.len() implies listed[i].username == name by {
        let y = listed[i];
        assert(listed.contains(y));
        assert(listed.to_multiset().count(y) > 0);
        assert(picked.contains(y));
        let k = choose|k: int| 0 <= k < picked.len() && picked[k] == y;
        s.lemma_filter_pred(|v: ScoreV| v.username == name, k);
    }
}

/// A row just created for a user is visible in an immediate by-username
/// listing for that user.
pub proof fn lemma_create_then_list(s: Seq<ScoreV>, v: ScoreV)
    ensures
        by_user_spec(s.push(v), v.username).contains(v),
{
    broadcast use vstd::seq_lib::group_to_multiset_ensures;

    reveal(Seq::filter);
    assert(s.push(v).drop_last() =~= s);
    assert(s.push(v).last() == v);
    let picked = user_rows(s.push(v), v.username);
    assert(picked == user_rows(s, v.username).push(v));
    assert(picked.contains(v)) by {
        assert(picked[picked.len() - 1] == v);
    }
    lemma_sort_desc_multiset(picked);
    assert(picked.to_multiset().count(v) > 0);
    assert(by_user_spec(s.push(v), v.username).to_multiset().count(v) > 0);
}

/// Boundary behaviour: a top-zero listing is empty, and an empty table
/// yields empty listings from both read operations.
pub proof fn lemma_empty_listings(s: Seq<ScoreV>, name: Seq<char>, n: int)
    requires
        0 <= n,
    ensures
        top_spec(s, 0) == Seq::<ScoreV>::empty(),
        top_spec(Seq::<ScoreV>::empty(), n) == Seq::<ScoreV>::empty(),
        by_user_spec(Seq::<ScoreV>::empty(), name) == Seq::<ScoreV>::empty(),
{
    reveal(Seq::filter);
    assert(top_spec(s, 0) =~= Seq::<ScoreV>::empty());
    assert(sort_desc(Seq::<ScoreV>::empty()) == Seq::<ScoreV>::empty());
    assert(top_spec(Seq::<ScoreV>::empty(), n) =~= Seq::<ScoreV>::empty());
    assert(user_rows(Seq::<ScoreV>::empty(), name) == Seq::<ScoreV>::empty());
}

/// The bounded, in-memory score table: the persisted rows plus the next id
/// the store will assign.
pub struct ScoreStore {
    pub rows: Vec<ScoreDB>,
    pub next_id: i32,
}

impl View for ScoreStore {
    type V = Seq<ScoreV>;

    open spec fn view(&self) -> Seq<ScoreV> {
        crate::score::db_views(self.rows@)
    }
}

impl ScoreStore {
    /// Ids are positive, unique, and all below the next id to assign.
    pub open spec fn wf(&self) -> bool {
        &&& 1 <= self.next_id
        &&& forall|i: int| 0 <= i < self@.len() ==> 0 <= (#[trigger] self@[i]).id < self.next_id
        &&& forall|i: int, j: int| 0 <= i < j < self@.len() ==> self@[i].id != self@[j].id
    }

    pub fn new() -> (r: ScoreStore)
        ensures
            r.wf(),
            r@ == Seq::<ScoreV>::empty(),
    {
        let r = ScoreStore { rows: Vec::new(), next_id: 1 };
        proof {
            broadcast use crate::score::group_view_maps;

            assert(r@ =~= Seq::<ScoreV>::empty());
        }
        r
    }

    /// Insert a new row. The store assigns the id; the input never carries
    /// one. Fails exactly when the id space is used up.
    pub fn create_score(&mut self, input: NewScore) -> (r: Result<ScoreDB, StoreError>)
        requires
            old(self).wf(),
        ensures
            final(self).wf(),
            r is Ok <==> old(self).next_id < i32::MAX,
            r is Ok ==> ({
                let v = (ScoreV {
                    id: old(self).next_id as int,
                    username: input.username@,
                    score: input.score as int,
                });
                &&& r->Ok_0@ == v
                &&& final(self)@ == old(self)@.push(v)
                &&& final(self).next_id == old(self).next_id + 1
            }),
            r is Err ==> *final(self) == *old(self) && r->Err_0 == StoreError::IdExhausted,
    {
        if self.next_id == i32::MAX {
            return Err(StoreError::IdExhausted);
        }
        let id = self.next_id;
        self.next_id = id + 1;
        let returned = ScoreDB { id, username: input.username.clone(), score: input.score };
        let stored = ScoreDB { id, username: input.username, score: input.score };
        self.rows.push(stored);
        proof {
            broadcast use crate::score::group_view_maps;

            let v = (ScoreV { id: id as int, username: returned.username@, score: returned.score as int });
            assert(self@ =~= old(self)@.push(v));
            assert forall|i: int| 0 <= i < self@.len() implies 0 <= (#[trigger] self@[i]).id
                < self.next_id by {
                if i < old(self)@.len() {
                    assert(0 <= old(self)@[i].id < old(self).next_id);
                }
            }
            assert forall|i: int, j: int| 0 <= i < j < self@.len() implies self@[i].id
                != self@[j].id by {
                if j < old(self)@.len() {
                    assert(old(self)@[i].id != old(self)@[j].id);
                } else {
                    assert(0 <= old(self)@[i].id < old(self).next_id);
                }
            }
        }
        Ok(returned)
    }

    /// The top-n listing: up to `n` rows, best score first, ties by id.
    pub fn list_top_scores(&self, n: usize) -> (r: Vec<Score>)
        ensures
            score_views(r@) == top_spec(self@, n as int),
    {
        let mut all: Vec<Score> = Vec::new();
        let mut j: usize = 0;
        proof {
            broadcast use crate::score::group_view_maps;

            assert(score_views(all@) =~= self@.take(0));
        }
        while j < self.rows.len()
            invariant
                j <= self.rows.len(),
                self.rows@.len() == self@.len(),
                score_views(all@) =~= self@.take(j as int),
            decreases self.rows.len() - j,
        {
            let ghost prev = all@;
            all.push(self.rows[j].to_score());
            proof {
                broadcast use crate::score::group_view_maps;

                assert(all@ == prev.push(all@[j as int]));
                assert(all@[j as int]@ == self@[j as int]);
                assert(score_views(all@) =~= self@.take(j as int + 1));
            }
            j += 1;
        }
        proof {
            broadcast use crate::score::group_view_maps;

            assert(self@.take(self@.len() as int) =~= self@);
            lemma_sort_desc_len(self@);
        }
        let mut sorted = sort_scores_desc(all);
        while sorted.len() > n
            invariant
                score_views(sorted@) =~= sort_desc(self@).take(sorted@.len() as int),
                sorted@.len() <= self@.len(),
                n <= sorted@.len() || sorted@.len() == self@.len(),
            decreases sorted.len(),
        {
            let ghost before = sorted@;
            sorted.pop();
            proof {
                broadcast use crate::score::group_view_maps;

                lemma_sort_desc_len(self@);
                assert(sorted@ =~= before.drop_last());
                assert forall|k: int| 0 <= k < sorted@.len() implies score_views(sorted@)[k]
                    == sort_desc(self@).take(sorted@.len() as int)[k] by {
                    assert(sorted@[k] == before[k]);
                    assert(score_views(before)[k] == before[k]@);
                }
                assert(score_views(sorted@) =~= sort_desc(self@).take(sorted@.len() as int));
            }
        }
        proof {
            broadcast use crate::score::group_view_maps;

            lemma_sort_desc_len(self@);
            assert(score_views(sorted@) =~= top_spec(self@, n as int));
        }
        sorted
    }

    /// The by-username listing: exactly that user's rows, best score first.
    pub fn list_scores_by_username(&self, name: String) -> (r: Vec<Score>)
        ensures
            score_views(r@) == by_user_spec(self@, name@),
    {
        let mut picked: Vec<Score> = Vec::new();
        let mut j: usize = 0;
        proof {
            broadcast use crate::score::group_view_maps;

            reveal(Seq::filter);
            assert(score_views(picked@) =~= user_rows(self@.take(0), name@));
        }
        while j < self.rows.len()
            invariant
                j <= self.rows.len(),
                self.rows@.len() == self@.len(),
                score_views(picked@) =~= user_rows(self@.take(j as int), name@),
            decreases self.rows.len() - j,
        {
            let ghost prev = picked@;
            let row = &self.rows[j];
            let matches_name = row.username == name;
            if matches_name {
                picked.push(row.to_score());
            }
            proof {
                broadcast use crate::score::group_view_maps;

                let pre = self@.take(j as int);
                let cur = self@.take(j as int + 1);
                assert(cur.drop_last() =~= pre);
                assert(cur.last() == self@[j as int]);
                assert(self@[j as int].username == row.username@);
                reveal(Seq::filter);
                if matches_name {
                    assert(picked@ == prev.push(picked@[picked@.len() - 1]));
                    assert(picked@[picked@.len() - 1]@ == self@[j as int]);
                    assert(user_rows(cur, name@) == user_rows(pre, name@).push(cur.last()));
                } else {
                    assert(user_rows(cur, name@) == user_rows(pre, name@));
                }
                assert(score_views(picked@) =~= user_rows(cur, name@));
            }
            j += 1;
        }
        proof {
            broadcast use crate::score::group_view_maps;

            assert(self@.take(self@.len() as int) =~= self@);
        }
        sort_scores_desc(picked)
    }
}

/// True when `a` ranks at or before `b` in the leaderboard order.
fn rank_le_exec(a: &Score, b: &Score) -> (r: bool)
    ensures
        r == rank_le(a@, b@),
{
    a.score > b.score || (a.score == b.score && a.id <= b.id)
}

/// Insert one score into a vector kept in leaderboard order.
fn insert_sorted(v: &mut Vec<Score>, x: Score)
    ensures
        score_views(final(v)@) == insert_desc(x@, score_views(old(v)@)),
{
    let ghost s = score_views(old(v)@);
    proof {
        broadcast use crate::score::group_view_maps;

        assert(s.len() == old(v)@.len());
    }
    let mut i: usize = 0;
    while i < v.len() && !rank_le_exec(&x, &v[i])
        invariant
            i <= v.len(),
            v@ == old(v)@,
            s == score_views(old(v)@),
            s.len() == v@.len(),
            forall|j: int| 0 <= j < i ==> !rank_le(x@, s[j]),
        decreases v.len() - i,
    {
        proof {
            broadcast use crate::score::group_view_maps;

            assert(score_views(old(v)@)[i as int] == old(v)@[i as int]@);
            assert(s[i as int] == v@[i as int]@);
        }
        i += 1;
    }
    proof {
        broadcast use crate::score::group_view_maps;

        if i < v.len() {
            assert(score_views(old(v)@)[i as int] == old(v)@[i as int]@);
            assert(s[i as int] == v@[i as int]@);
        }
        lemma_insert_desc_at(x@, s, i as int);
    }
    v.insert(i, x);
    proof {
        broadcast use crate::score::group_view_maps;

        assert(v@ == old(v)@.insert(i as int, x));
        assert forall|k: int| 0 <= k < v@.len() implies score_views(v@)[k] == (s.take(i as int)
            + seq![x@] + s.skip(i as int))[k] by {
            if k < i {
                assert(v@[k] == old(v)@[k]);
            } else if k == i {
                assert(v@[k] == x);
            } else {
                assert(v@[k] == old(v)@[k - 1]);
            }
        }
        assert(score_views(v@) =~= s.take(i as int) + seq![x@] + s.skip(i as int));
    }
}

/// Sort scores into leaderboard order.
fn sort_scores_desc(v: Vec<Score>) -> (r: Vec<Score>)
    ensures
        score_views(r@) == sort_desc(score_views(v@)),
{
    let ghost s = score_views(v@);
    let mut rest = v;
    let mut out: Vec<Score> = Vec::new();
    proof {
        broadcast use crate::score::group_view_maps;

        assert(s.len() == rest@.len());
        assert(score_views(out@) =~= sort_desc(s.take(0)));
        assert(score_views(rest@) =~= s.skip(0));
    }
    while rest.len() > 0
        invariant
            rest@.len() <= s.len(),
            score_views(rest@) =~= s.skip(s.len() - rest@.len()),
            score_views(out@) =~= sort_desc(s.take(s.len() - rest@.len())),
        decreases rest.len(),
    {
        let ghost done = s.len() - rest@.len();
        let ghost prev = rest@;
        let x = rest.remove(0);
        proof {
            broadcast use crate::score::group_view_maps;

            assert(score_views(prev)[0] == prev[0]@);
            assert(s.skip(done as int)[0] == s[done as int]);
            assert(x@ == s[done as int]);
            assert forall|k: int| 0 <= k < rest@.len() implies score_views(rest@)[k] == s.skip(
                done as int + 1,
            )[k] by {
                assert(rest@[k] == prev[k + 1]);
                assert(score_views(prev)[k + 1] == prev[k + 1]@);
                assert(s.skip(done as int)[k + 1] == s[done as int + 1 + k]);
            }
            assert(score_views(rest@) =~= s.skip(done as int + 1));
        }
        insert_sorted(&mut out, x);
        proof {
            broadcast use crate::score::group_view_maps;

            assert(s.take(done as int + 1).drop_last() =~= s.take(done as int));
            assert(s.take(done as int + 1).last() == s[done as int]);
            assert(score_views(out@) =~= sort_desc(s.take(done as int + 1)));
        }
    }
    proof {
        assert(s.take(s.len() as int) =~= s);
    }
    out
}

} // verus!
