use vstd::prelude::*;
use vstd::string::StrSliceExecFns;
use vstd::string::StringExecFns;

use crate::score::NewScore;
use crate::score::NewScoreV;
use crate::score::Score;
use crate::score::ScoreV;
use crate::score::score_views;

verus! {

// ----- decimal rendering of integers, as character sequences -----

/// The character for one decimal digit.
pub open spec fn digit_char(d: int) -> char {
    ((d + 48) as u8) as char
}

/// The numeric value of one decimal digit character.
pub open spec fn digit_val(c: char) -> int {
    c as int - 48
}

pub open spec fn is_digit(c: char) -> bool {
    48 <= c as int <= 57
}

/// The decimal digits of a non-negative integer, most significant first.
pub open spec fn dec_digits(n: int) -> Seq<char>
    recommends
        0 <= n,
    decreases n,
{
    if n < 10 {
        seq![digit_char(n)]
    } else {
        dec_digits(n / 10).push(digit_char(n % 10))
    }
}

/// The decimal rendering of an integer, with a leading minus when negative.
pub open spec fn int_digits(i: int) -> Seq<char> {
    if i < 0 {
        seq!['-'] + dec_digits(-i)
    } else {
        dec_digits(i)
    }
}

/// The value a run of digit characters denotes.
pub open spec fn val_of(s: Seq<char>) -> int
    decreases s.len(),
{
    if s.len() == 0 {
        0
    } else {
        val_of(s.drop_last()) * 10 + digit_val(s.last())
    }
}

// ----- characters, their codes, and hexadecimal digits -----

/// The code point of a character.
pub open spec fn char_code(c: char) -> int {
    c as int
}

/// The character with the given code point.
pub open spec fn code_char(v: int) -> char {
    choose|c: char| #[trigger] char_code(c) == v
}

/// The character for one hexadecimal digit, in lower case.
pub open spec fn hex_char(d: int) -> char {
    if d < 10 {
        digit_char(d)
    } else {
        (((d - 10) + 97) as u8) as char
    }
}

pub open spec fn is_hex(c: char) -> bool {
    is_digit(c) || (97 <= c as int <= 102) || (65 <= c as int <= 70)
}

/// The value of one hexadecimal digit character, either case.
pub open spec fn hex_val(c: char) -> int {
    if is_digit(c) {
        c as int - 48
    } else if c as int >= 97 {
        c as int - 87
    } else {
        c as int - 55
    }
}

// ----- JSON string escaping -----

/// How one character appears inside a JSON string: quote and backslash get
/// a backslash before them, a control character becomes its four-digit hex
/// escape, everything else stands as itself.
pub open spec fn esc_char(c: char) -> Seq<char> {
    if c == '"' || c == '\\' {
        seq!['\\', c]
    } else if 0 <= char_code(c) && char_code(c) < 32 {
        seq!['\\', 'u', '0', '0', hex_char(char_code(c) / 16), hex_char(char_code(c) % 16)]
    } else {
        seq![c]
    }
}

/// A username's characters as they appear inside its JSON string.
pub open spec fn esc(s: Seq<char>) -> Seq<char>
    decreases s.len(),
{
    if s.len() == 0 {
        Seq::empty()
    } else {
        esc(s.drop_last()) + esc_char(s.last())
    }
}

// ----- the fixed pieces of the texts the service emits -----

pub open spec fn lit_obj_id() -> Seq<char> {
    seq!['{', '"', 'i', 'd', '"', ':']
}

pub open spec fn lit_pre_username() -> Seq<char> {
    seq![',', '"', 'u', 's', 'e', 'r', 'n', 'a', 'm', 'e', '"', ':', '"']
}

pub open spec fn lit_post_username() -> Seq<char> {
    seq!['"', ',', '"', 's', 'c', 'o', 'r', 'e', '"', ':']
}

pub open spec fn lit_close() -> Seq<char> {
    seq!['}']
}

pub open spec fn lit_env_open() -> Seq<char> {
    seq!['{', '"', 'r', 'e', 's', 'u', 'l', 't', 's', '"', ':', '[']
}

pub open spec fn lit_env_close() -> Seq<char> {
    seq![']', '}']
}

// ----- the JSON texts the service emits -----

/// The JSON object for one score row.
pub open spec fn score_json(v: ScoreV) -> Seq<char> {
    lit_obj_id() + int_digits(v.id) + lit_pre_username() + esc(v.username) + lit_post_username()
        + int_digits(v.score) + lit_close()
}

/// The comma-separated JSON objects of a listing.
pub open spec fn scores_json_items(vs: Seq<ScoreV>) -> Seq<char>
    decreases vs.len(),
{
    if vs.len() == 0 {
        Seq::empty()
    } else if vs.len() == 1 {
        score_json(vs[0])
    } else {
        scores_json_items(vs.drop_last()) + seq![','] + score_json(vs.last())
    }
}

/// The JSON envelope for a listing.
pub open spec fn envelope_json(vs: Seq<ScoreV>) -> Seq<char> {
    lit_env_open() + scores_json_items(vs) + lit_env_close()
}

// ----- what a JSON text denotes -----

/// Powers of ten.
pub open spec fn pow10(k: int) -> int
    decreases k,
{
    if k <= 0 {
        1
    } else {
        10 * pow10(k - 1)
    }
}

/// How many digit characters the text starts with.
pub open spec fn digit_run(s: Seq<char>) -> int
    decreases s.len(),
{
    if s.len() > 0 && is_digit(s[0]) {
        1 + digit_run(s.drop_first())
    } else {
        0
    }
}

/// JSON insignificant whitespace.
pub open spec fn is_ws(c: char) -> bool {
    c == ' ' || c == '\t' || c == '\n' || c == '\r'
}

/// How many whitespace characters the text starts with.
pub open spec fn ws_run(s: Seq<char>) -> int
    decreases s.len(),
{
    if s.len() > 0 && is_ws(s[0]) {
        1 + ws_run(s.drop_first())
    } else {
        0
    }
}

/// A leading run of digits as a JSON integer: its value and how many
/// characters it covers. A leading zero before further digits is not a
/// JSON number; runs longer than any number the service stores are
/// rejected.
pub open spec fn parse_uint(s: Seq<char>) -> Option<(int, int)> {
    let run = digit_run(s);
    if run == 0 || run > 10 {
        None
    } else if s[0] == '0' && run > 1 {
        None
    } else {
        Some((val_of(s.take(run)), run))
    }
}

/// A leading integer, with an optional minus sign.
pub open spec fn parse_int(s: Seq<char>) -> Option<(int, int)> {
    if s.len() > 0 && s[0] == '-' {
        match parse_uint(s.skip(1)) {
            Some(vc) => Some((-vc.0, vc.1 + 1)),
            None => None,
        }
    } else {
        parse_uint(s)
    }
}

/// What a single-character escape denotes.
pub open spec fn esc_code(e: char) -> Option<char> {
    if e == '"' || e == '\\' || e == '/' {
        Some(e)
    } else if e == 'b' {
        Some('\u{0008}')
    } else if e == 'f' {
        Some('\u{000C}')
    } else if e == 'n' {
        Some('\n')
    } else if e == 'r' {
        Some('\r')
    } else if e == 't' {
        Some('\t')
    } else {
        None
    }
}

/// The value of four hexadecimal digit characters.
pub open spec fn hex4_val(s: Seq<char>) -> int
    recommends
        s.len() == 4,
{
    ((hex_val(s[0]) * 16 + hex_val(s[1])) * 16 + hex_val(s[2])) * 16 + hex_val(s[3])
}

/// A code point a single `\u` escape may denote: a scalar value outside
/// the surrogate range. (A surrogate pair for a code point beyond the
/// basic plane is not accepted.)
pub open spec fn is_scalar(v: int) -> bool {
    (0 <= v < 0xD800) || (0xE000 <= v <= 0x10FFFF)
}

/// A leading JSON string body, up to and through its closing quote: the
/// characters it denotes and how many characters it covers. The standard
/// escapes are understood; an unescaped control character is rejected.
pub open spec fn parse_str(s: Seq<char>) -> Option<(Seq<char>, int)>
    decreases s.len(),
{
    if s.len() == 0 {
        None
    } else if s[0] == '"' {
        Some((Seq::empty(), 1))
    } else if s[0] == '\\' {
        if s.len() >= 2 && s[1] == 'u' {
            if s.len() >= 6 && is_hex(s[2]) && is_hex(s[3]) && is_hex(s[4]) && is_hex(s[5])
                && is_scalar(hex4_val(s.subrange(2, 6))) {
                match parse_str(s.skip(6)) {
                    Some(uc) => Some(
                        (seq![code_char(hex4_val(s.subrange(2, 6)))] + uc.0, uc.1 + 6),
                    ),
                    None => None,
                }
            } else {
                None
            }
        } else if s.len() >= 2 && esc_code(s[1]) is Some {
            match parse_str(s.skip(2)) {
                Some(uc) => Some((seq![esc_code(s[1])->0] + uc.0, uc.1 + 2)),
                None => None,
            }
        } else {
            None
        }
    } else if 0 <= char_code(s[0]) && char_code(s[0]) < 32 {
        None
    } else {
        match parse_str(s.skip(1)) {
            Some(uc) => Some((seq![s[0]] + uc.0, uc.1 + 1)),
            None => None,
        }
    }
}

pub open spec fn in_i32(v: int) -> bool {
    i32::MIN <= v <= i32::MAX
}

pub open spec fn key_id() -> Seq<char> {
    seq!['i', 'd']
}

pub open spec fn key_username() -> Seq<char> {
    seq!['u', 's', 'e', 'r', 'n', 'a', 'm', 'e']
}

pub open spec fn key_score() -> Seq<char> {
    seq!['s', 'c', 'o', 'r', 'e']
}

/// The members gathered so far while reading a score object.
pub struct ScoreFields {
    pub id: Option<int>,
    pub username: Option<Seq<char>>,
    pub score: Option<int>,
}

pub open spec fn empty_fields() -> ScoreFields {
    ScoreFields { id: None, username: None, score: None }
}

/// One `"key": value` member with its leading whitespace: the updated
/// members and how many characters it covers. A key that is unknown, or
/// already present, is rejected.
pub open spec fn parse_member(s: Seq<char>, f: ScoreFields) -> Option<(ScoreFields, int)> {
    let w = ws_run(s);
    if w < s.len() && s[w] == '"' {
        match parse_str(s.skip(w + 1)) {
            None => None,
            Some(kc) => {
                let a = w + 1 + kc.1;
                let c = a + ws_run(s.skip(a));
                if c < s.len() && s[c] == ':' {
                    let v = c + 1 + ws_run(s.skip(c + 1));
                    if kc.0 == key_id() && f.id is None {
                        match parse_int(s.skip(v)) {
                            Some(ic) => Some(
                                (
                                    ScoreFields {
                                        id: Some(ic.0),
                                        username: f.username,
                                        score: f.score,
                                    },
                                    v + ic.1,
                                ),
                            ),
                            None => None,
                        }
                    } else if kc.0 == key_score() && f.score is None {
                        match parse_int(s.skip(v)) {
                            Some(ic) => Some(
                                (
                                    ScoreFields {
                                        id: f.id,
                                        username: f.username,
                                        score: Some(ic.0),
                                    },
                                    v + ic.1,
                                ),
                            ),
                            None => None,
                        }
                    } else if kc.0 == key_username() && f.username is None {
                        if v < s.len() && s[v] == '"' {
                            match parse_str(s.skip(v + 1)) {
                                Some(uc) => Some(
                                    (
                                        ScoreFields {
                                            id: f.id,
                                            username: Some(uc.0),
                                            score: f.score,
                                        },
                                        v + 1 + uc.1,
                                    ),
                                ),
                                None => None,
                            }
                        } else {
                            None
                        }
                    } else {
                        None
                    }
                } else {
                    None
                }
            },
        }
    } else {
        None
    }
}

/// A comma-separated member list and its closing brace.
pub open spec fn parse_fields(s: Seq<char>, f: ScoreFields) -> Option<(ScoreFields, int)>
    decreases s.len(),
{
    match parse_member(s, f) {
        None => None,
        Some(mf) => {
            let p = mf.1 + ws_run(s.skip(mf.1));
            if 0 <= p && p < s.len() && s[p] == ',' {
                match parse_fields(s.skip(p + 1), mf.0) {
                    Some(ff) => Some((ff.0, p + 1 + ff.1)),
                    None => None,
                }
            } else if 0 <= p && p < s.len() && s[p] == '}' {
                Some((mf.0, p + 1))
            } else {
                None
            }
        },
    }
}

/// The score row a JSON text denotes: one object holding exactly the
/// members id, username and score, in any order, with JSON whitespace
/// anywhere between tokens, and nothing after it.
pub open spec fn parse_score_val(s: Seq<char>) -> Option<ScoreV> {
    let b = ws_run(s) + 1;
    if b - 1 < s.len() && s[b - 1] == '{' {
        match parse_fields(s.skip(b), empty_fields()) {
            None => None,
            Some(ff) => {
                let e = b + ff.1 + ws_run(s.skip(b + ff.1));
                if e == s.len() && ff.0.id is Some && ff.0.username is Some && ff.0.score is Some
                    && in_i32(ff.0.id->0) && in_i32(ff.0.score->0) {
                    Some(
                        ScoreV {
                            id: ff.0.id->0,
                            username: ff.0.username->0,
                            score: ff.0.score->0,
                        },
                    )
                } else {
                    None
                }
            },
        }
    } else {
        None
    }
}

/// The score submission a JSON text denotes: as for a score row, but with
/// exactly the members username and score. An explicit id is forbidden.
pub open spec fn parse_new_score_val(s: Seq<char>) -> Option<NewScoreV> {
    let b = ws_run(s) + 1;
    if b - 1 < s.len() && s[b - 1] == '{' {
        match parse_fields(s.skip(b), empty_fields()) {
            None => None,
            Some(ff) => {
                let e = b + ff.1 + ws_run(s.skip(b + ff.1));
                if e == s.len() && ff.0.id is None && ff.0.username is Some && ff.0.score is Some
                    && in_i32(ff.0.score->0) {
                    Some(NewScoreV { username: ff.0.username->0, score: ff.0.score->0 })
                } else {
                    None
                }
            },
        }
    } else {
        None
    }
}

// ----- building the texts -----

/// Relies on String::push: appends exactly the one character.
#[verifier::external_body]
fn push_char(s: &mut String, c: char)
    ensures
        final(s)@ == old(s)@.push(c),
{
    s.push(c);
}

/// Relies on char::from_u32: the character with the given code point, for
/// every scalar value outside the surrogate range, and nothing otherwise.
#[verifier::external_body]
fn char_from_u32(v: u32) -> (r: Option<char>)
    ensures
        r is Some <==> (v < 0xD800 || (0xE000 <= v && v <= 0x10FFFF)),
        r is Some ==> r->0 as int == v as int,
{
    char::from_u32(v)
}

fn hex_char_exec(d: u32) -> (r: char)
    requires
        d < 16,
    ensures
        r == hex_char(d as int),
{
    if d < 10 {
        (48 + d as u8) as char
    } else {
        (87 + d as u8) as char
    }
}

fn push_digits(out: &mut String, n: u32)
    ensures
        final(out)@ == old(out)@ + dec_digits(n as int),
    decreases n,
{
    if n < 10 {
        push_char(out, (48 + n as u8) as char);
        proof {
            assert((48 + n as u8) as char == digit_char(n as int));
            assert(old(out)@.push(digit_char(n as int)) =~= old(out)@ + dec_digits(n as int));
        }
    } else {
        push_digits(out, n / 10);
        push_char(out, (48 + (n % 10) as u8) as char);
        proof {
            assert((48 + (n % 10) as u8) as char == digit_char(n as int % 10));
            assert(old(out)@ + dec_digits(n as int / 10).push(digit_char(n as int % 10)) =~= (old(
                out,
            )@ + dec_digits(n as int / 10)).push(digit_char(n as int % 10)));
        }
    }
}

fn push_int(out: &mut String, v: i32)
    ensures
        final(out)@ == old(out)@ + int_digits(v as int),
{
    if v < 0 {
        push_char(out, '-');
        let mag: u32 = (-(v as i64)) as u32;
        proof {
            assert(mag as int == -(v as int));
        }
        push_digits(out, mag);
        proof {
            assert(old(out)@.push('-') + dec_digits(mag as int) =~= old(out)@ + int_digits(
                v as int,
            ));
        }
    } else {
        push_digits(out, v as u32);
    }
}

fn push_escaped(out: &mut String, s: &str)
    ensures
        final(out)@ == old(out)@ + esc(s@),
{
    let n = s.unicode_len();
    let mut i: usize = 0;
    proof {
        assert(old(out)@ + esc(s@.take(0)) =~= old(out)@);
    }
    while i < n
        invariant
            i <= n,
            n == s@.len(),
            out@ == old(out)@ + esc(s@.take(i as int)),
        decreases n - i,
    {
        let c = s.get_char(i);
        if c == '"' || c == '\\' {
            push_char(out, '\\');
            push_char(out, c);
        } else if (c as u32) < 32 {
            let code = c as u32;
            push_char(out, '\\');
            push_char(out, 'u');
            push_char(out, '0');
            push_char(out, '0');
            push_char(out, hex_char_exec(code / 16));
            push_char(out, hex_char_exec(code % 16));
        } else {
            push_char(out, c);
        }
        proof {
            assert(s@.take(i as int + 1).drop_last() =~= s@.take(i as int));
            assert(s@.take(i as int + 1).last() == s@[i as int]);
            assert(out@ =~= old(out)@ + esc(s@.take(i as int + 1)));
        }
        i += 1;
    }
    proof {
        assert(s@.take(n as int) =~= s@);
    }
}

/// The JSON text of one score row.
pub fn score_to_json(s: &Score) -> (r: String)
    ensures
        r@ == score_json(s@),
{
    let mut out = String::new();
    out.append("{\"id\":");
    push_int(&mut out, s.id);
    out.append(",\"username\":\"");
    push_escaped(&mut out, s.username.as_str());
    out.append("\",\"score\":");
    push_int(&mut out, s.score);
    out.append("}");
    proof {
        reveal_strlit("{\"id\":");
        reveal_strlit(",\"username\":\"");
        reveal_strlit("\",\"score\":");
        reveal_strlit("}");
        assert("{\"id\":"@ =~= lit_obj_id());
        assert(",\"username\":\""@ =~= lit_pre_username());
        assert("\",\"score\":"@ =~= lit_post_username());
        assert("}"@ =~= lit_close());
        assert(out@ =~= score_json(s@));
    }
    out
}

/// The JSON envelope text for a listing.
pub fn scores_to_json(rows: &Vec<Score>) -> (r: String)
    ensures
        r@ == envelope_json(score_views(rows@)),
{
    let ghost vs = score_views(rows@);
    let mut out = String::new();
    out.append("{\"results\":[");
    proof {
        broadcast use crate::score::group_view_maps;

        reveal_strlit("{\"results\":[");
        assert("{\"results\":["@ =~= lit_env_open());
        assert(out@ =~= lit_env_open() + scores_json_items(vs.take(0)));
    }
    let mut j: usize = 0;
    while j < rows.len()
        invariant
            j <= rows.len(),
            vs == score_views(rows@),
            vs.len() == rows@.len(),
            out@ == lit_env_open() + scores_json_items(vs.take(j as int)),
        decreases rows.len() - j,
    {
        if j > 0 {
            push_char(&mut out, ',');
        }
        let item = score_to_json(&rows[j]);
        out.append(item.as_str());
        proof {
            broadcast use crate::score::group_view_maps;

            assert(vs[j as int] == rows@[j as int]@);
            assert(vs.take(j as int + 1).drop_last() =~= vs.take(j as int));
            assert(vs.take(j as int + 1).last() == vs[j as int]);
            if j == 0 {
                assert(vs.take(1)[0] == vs[0]);
                assert(scores_json_items(vs.take(1)) == score_json(vs[0]));
                assert(out@ =~= lit_env_open() + scores_json_items(vs.take(j as int + 1)));
            } else {
                assert(scores_json_items(vs.take(j as int + 1)) == scores_json_items(
                    vs.take(j as int),
                ) + seq![','] + score_json(vs[j as int]));
                assert(out@ =~= lit_env_open() + scores_json_items(vs.take(j as int + 1)));
            }
        }
        j += 1;
    }
    out.append("]}");
    proof {
        broadcast use crate::score::group_view_maps;

        reveal_strlit("]}");
        assert("]}"@ =~= lit_env_close());
        assert(vs.take(vs.len() as int) =~= vs);
        assert(out@ =~= envelope_json(vs));
    }
    out
}

// ----- reading the texts -----

fn is_digit_exec(c: char) -> (r: bool)
    ensures
        r == is_digit(c),
{
    let u = c as u32;
    48 <= u && u <= 57
}

fn is_ws_exec(c: char) -> (r: bool)
    ensures
        r == is_ws(c),
{
    c == ' ' || c == '\t' || c == '\n' || c == '\r'
}

fn is_hex_exec(c: char) -> (r: bool)
    ensures
        r == is_hex(c),
{
    let u = c as u32;
    (48 <= u && u <= 57) || (97 <= u && u <= 102) || (65 <= u && u <= 70)
}

fn hex_val_exec(c: char) -> (r: u32)
    requires
        is_hex(c),
    ensures
        r == hex_val(c),
        r < 16,
{
    let u = c as u32;
    if 48 <= u && u <= 57 {
        u - 48
    } else if u >= 97 {
        u - 87
    } else {
        u - 55
    }
}

fn esc_code_exec(e: char) -> (r: Option<char>)
    ensures
        r == esc_code(e),
{
    if e == '"' || e == '\\' || e == '/' {
        Some(e)
    } else if e == 'b' {
        Some('\u{0008}')
    } else if e == 'f' {
        Some('\u{000C}')
    } else if e == 'n' {
        Some('\n')
    } else if e == 'r' {
        Some('\r')
    } else if e == 't' {
        Some('\t')
    } else {
        None
    }
}

/// All characters under the leading digit run are digits, and the run stays
/// within the text.
proof fn lemma_digit_run_digits(s: Seq<char>)
    ensures
        0 <= digit_run(s) <= s.len(),
        forall|t: int| 0 <= t < digit_run(s) ==> is_digit(s[t]),
    decreases s.len(),
{
    if s.len() > 0 && is_digit(s[0]) {
        lemma_digit_run_digits(s.drop_first());
        assert forall|t: int| 0 <= t < digit_run(s) implies is_digit(s[t]) by {
            if t > 0 {
                assert(is_digit(s.drop_first()[t - 1]));
            }
        }
    }
}

/// A run of digits denotes a non-negative value below ten to its length.
proof fn lemma_val_of_bounds(s: Seq<char>)
    requires
        forall|t: int| 0 <= t < s.len() ==> is_digit(s[t]),
    ensures
        0 <= val_of(s) < pow10(s.len() as int),
    decreases s.len(),
{
    if s.len() > 0 {
        assert(forall|t: int| 0 <= t < s.drop_last().len() ==> is_digit(s.drop_last()[t]));
        lemma_val_of_bounds(s.drop_last());
        assert(is_digit(s.last()));
    }
}

proof fn lemma_pow10_values()
    ensures
        pow10(10) == 10_000_000_000,
{
    assert(pow10(0) == 1);
    assert(pow10(1) == 10);
    assert(pow10(2) == 100);
    assert(pow10(3) == 1000);
    assert(pow10(4) == 10_000);
    assert(pow10(5) == 100_000);
    assert(pow10(6) == 1_000_000);
    assert(pow10(7) == 10_000_000);
    assert(pow10(8) == 100_000_000);
    assert(pow10(9) == 1_000_000_000);
    assert(pow10(10) == 10_000_000_000);
}

proof fn lemma_pow10_pos(k: int)
    ensures
        pow10(k) >= 1,
    decreases
            (if k > 0 {
                k
            } else {
                0
            }),
{
    if k > 0 {
        lemma_pow10_pos(k - 1);
    }
}

proof fn lemma_pow10_mono(a: int, b: int)
    requires
        a <= b,
    ensures
        pow10(a) <= pow10(b),
    decreases b - a,
{
    if a < b {
        lemma_pow10_mono(a, b - 1);
        lemma_pow10_pos(b - 1);
    }
}

fn scan_digit_run(s: &str, i: usize, n: usize) -> (r: usize)
    requires
        i <= n,
        n == s@.len(),
    ensures
        i <= r <= n,
        digit_run(s@.skip(i as int)) == r - i,
{
    let mut j: usize = i;
    while j < n && is_digit_exec(s.get_char(j))
        invariant
            i <= j <= n,
            n == s@.len(),
            digit_run(s@.skip(i as int)) == (j - i) + digit_run(s@.skip(j as int)),
        decreases n - j,
    {
        proof {
            assert(s@.skip(j as int)[0] == s@[j as int]);
            assert(s@.skip(j as int).drop_first() =~= s@.skip(j as int + 1));
        }
        j += 1;
    }
    proof {
        if j < n {
            assert(s@.skip(j as int)[0] == s@[j as int]);
        }
        assert(digit_run(s@.skip(j as int)) == 0);
    }
    j
}

fn scan_ws(s: &str, i: usize, n: usize) -> (r: usize)
    requires
        i <= n,
        n == s@.len(),
    ensures
        i <= r <= n,
        ws_run(s@.skip(i as int)) == r - i,
{
    let mut j: usize = i;
    while j < n && is_ws_exec(s.get_char(j))
        invariant
            i <= j <= n,
            n == s@.len(),
            ws_run(s@.skip(i as int)) == (j - i) + ws_run(s@.skip(j as int)),
        decreases n - j,
    {
        proof {
            assert(s@.skip(j as int)[0] == s@[j as int]);
            assert(s@.skip(j as int).drop_first() =~= s@.skip(j as int + 1));
        }
        j += 1;
    }
    proof {
        if j < n {
            assert(s@.skip(j as int)[0] == s@[j as int]);
        }
        assert(ws_run(s@.skip(j as int)) == 0);
    }
    j
}

fn parse_uint_at(s: &str, i: usize, n: usize) -> (r: Option<(u64, usize)>)
    requires
        i <= n,
        n == s@.len(),
    ensures
        match r {
            Some(p) => i < p.1 <= n && p.0 < pow10(10) && parse_uint(s@.skip(i as int)) == Some(
                (p.0 as int, p.1 - i as int),
            ),
            None => parse_uint(s@.skip(i as int)) is None,
        },
{
    let e = scan_digit_run(s, i, n);
    let run = e - i;
    if run == 0 || run > 10 {
        return None;
    }
    proof {
        assert(s@.skip(i as int)[0] == s@[i as int]);
    }
    if s.get_char(i) == '0' && run > 1 {
        return None;
    }
    let ghost whole = s@.skip(i as int);
    let ghost seg = whole.take(run as int);
    proof {
        lemma_digit_run_digits(whole);
        assert(forall|t: int| 0 <= t < seg.len() ==> is_digit(#[trigger] seg[t]));
        lemma_pow10_values();
    }
    let mut acc: u64 = 0;
    let mut k: usize = 0;
    while k < run
        invariant
            k <= run,
            run <= 10,
            i + run <= n,
            n == s@.len(),
            whole == s@.skip(i as int),
            seg == whole.take(run as int),
            forall|t: int| 0 <= t < seg.len() ==> is_digit(#[trigger] seg[t]),
            acc == val_of(seg.take(k as int)),
            acc < pow10(10),
        decreases run - k,
    {
        let c = s.get_char(i + k);
        proof {
            assert(seg[k as int] == s@[i + k]);
            assert(is_digit(seg[k as int]));
            assert(seg.take(k as int + 1).drop_last() =~= seg.take(k as int));
            assert(seg.take(k as int + 1).last() == seg[k as int]);
            assert(forall|t: int|
                0 <= t < seg.take(k as int + 1).len() ==> is_digit(
                    #[trigger] seg.take(k as int + 1)[t],
                ));
            lemma_val_of_bounds(seg.take(k as int + 1));
            lemma_pow10_values();
            assert(pow10(k as int + 1) <= pow10(10)) by {
                lemma_pow10_mono(k as int + 1, 10);
            }
        }
        let d = (c as u32) - 48;
        acc = acc * 10 + (d as u64);
        k += 1;
    }
    proof {
        assert(seg.take(run as int) =~= seg);
    }
    Some((acc, e))
}

fn parse_int_at(s: &str, i: usize, n: usize) -> (r: Option<(i64, usize)>)
    requires
        i <= n,
        n == s@.len(),
    ensures
        match r {
            Some(p) => i < p.1 <= n && -pow10(10) < p.0 < pow10(10) && parse_int(
                s@.skip(i as int),
            ) == Some((p.0 as int, p.1 - i as int)),
            None => parse_int(s@.skip(i as int)) is None,
        },
{
    proof {
        lemma_pow10_values();
    }
    if i < n && s.get_char(i) == '-' {
        proof {
            assert(s@.skip(i as int)[0] == s@[i as int]);
            assert(s@.skip(i as int).skip(1) =~= s@.skip(i as int + 1));
        }
        match parse_uint_at(s, i + 1, n) {
            Some((v, j)) => Some((-(v as i64), j)),
            None => None,
        }
    } else {
        proof {
            if i < n {
                assert(s@.skip(i as int)[0] == s@[i as int]);
            } else {
                assert(s@.skip(i as int).len() == 0);
            }
        }
        match parse_uint_at(s, i, n) {
            Some((v, j)) => Some((v as i64, j)),
            None => None,
        }
    }
}

fn parse_str_at(s: &str, i: usize, n: usize) -> (r: Option<(String, usize)>)
    requires
        i <= n,
        n == s@.len(),
    ensures
        match r {
            Some(p) => i < p.1 <= n && parse_str(s@.skip(i as int)) == Some((p.0@, p.1 - i as int)),
            None => parse_str(s@.skip(i as int)) is None,
        },
{
    let mut out = String::new();
    let mut j: usize = i;
    loop
        invariant
            i <= j <= n,
            n == s@.len(),
            (match parse_str(s@.skip(j as int)) {
                Some(uc) => parse_str(s@.skip(i as int)) == Some((out@ + uc.0, (j - i) + uc.1)),
                None => parse_str(s@.skip(i as int)) is None,
            }),
        decreases n - j,
    {
        if j >= n {
            proof {
                assert(s@.skip(j as int).len() == 0);
            }
            return None;
        }
        let c = s.get_char(j);
        proof {
            assert(s@.skip(j as int)[0] == s@[j as int]);
        }
        if c == '"' {
            proof {
                assert(parse_str(s@.skip(j as int)) == Some((Seq::<char>::empty(), 1int)));
                assert(out@ + Seq::<char>::empty() =~= out@);
            }
            return Some((out, j + 1));
        } else if c == '\\' {
            if j + 1 >= n {
                return None;
            }
            let e = s.get_char(j + 1);
            proof {
                assert(s@.skip(j as int)[1] == s@[j as int + 1]);
            }
            if e == 'u' {
                if n - j < 6 {
                    return None;
                }
                let h0 = s.get_char(j + 2);
                let h1 = s.get_char(j + 3);
                let h2 = s.get_char(j + 4);
                let h3 = s.get_char(j + 5);
                proof {
                    assert(s@.skip(j as int)[2] == s@[j as int + 2]);
                    assert(s@.skip(j as int)[3] == s@[j as int + 3]);
                    assert(s@.skip(j as int)[4] == s@[j as int + 4]);
                    assert(s@.skip(j as int)[5] == s@[j as int + 5]);
                }
                if !(is_hex_exec(h0) && is_hex_exec(h1) && is_hex_exec(h2) && is_hex_exec(h3)) {
                    return None;
                }
                let v: u32 = ((hex_val_exec(h0) * 16 + hex_val_exec(h1)) * 16 + hex_val_exec(h2))
                    * 16 + hex_val_exec(h3);
                let ghost sub = s@.skip(j as int).subrange(2, 6);
                proof {
                    assert(sub[0] == s@.skip(j as int)[2]);
                    assert(sub[1] == s@.skip(j as int)[3]);
                    assert(sub[2] == s@.skip(j as int)[4]);
                    assert(sub[3] == s@.skip(j as int)[5]);
                    assert(hex4_val(sub) == v as int);
                }
                proof {
                    assert(v < 0x10000);
                }
                if !(v < 0xD800 || v >= 0xE000) {
                    proof {
                        assert(!is_scalar(hex4_val(sub)));
                    }
                    return None;
                }
                let ch = match char_from_u32(v) {
                    Some(ch) => ch,
                    None => {
                        proof {
                            assert(false);
                        }
                        return None;
                    },
                };
                proof {
                    assert(char_code(ch) == v as int);
                    assert(char_code(code_char(v as int)) == v as int);
                    assert(code_char(v as int) == ch);
                }
                let ghost pre = out@;
                push_char(&mut out, ch);
                proof {
                    assert(s@.skip(j as int).skip(6) =~= s@.skip(j as int + 6));
                    if parse_str(s@.skip(j as int + 6)) is Some {
                        let uc = parse_str(s@.skip(j as int + 6))->Some_0;
                        assert(pre + (seq![ch] + uc.0) =~= out@ + uc.0);
                    }
                }
                j += 6;
            } else {
                let ch = match esc_code_exec(e) {
                    Some(ch) => ch,
                    None => {
                        return None;
                    },
                };
                let ghost pre = out@;
                push_char(&mut out, ch);
                proof {
                    assert(s@.skip(j as int).skip(2) =~= s@.skip(j as int + 2));
                    if parse_str(s@.skip(j as int + 2)) is Some {
                        let uc = parse_str(s@.skip(j as int + 2))->Some_0;
                        assert(pre + (seq![ch] + uc.0) =~= out@ + uc.0);
                    }
                }
                j += 2;
            }
        } else if (c as u32) < 32 {
            return None;
        } else {
            let ghost pre = out@;
            push_char(&mut out, c);
            proof {
                assert(s@.skip(j as int).skip(1) =~= s@.skip(j as int + 1));
                if parse_str(s@.skip(j as int + 1)) is Some {
                    let uc = parse_str(s@.skip(j as int + 1))->Some_0;
                    assert(pre + (seq![s@[j as int]] + uc.0) =~= out@ + uc.0);
                }
            }
            j += 1;
        }
    }
}

// ----- reading back what was written -----

/// The decimal digits of a non-negative integer are digits, denote it, and
/// there is at least one.
proof fn lemma_dec_digits_props(n: int)
    requires
        0 <= n,
    ensures
        dec_digits(n).len() >= 1,
        forall|t: int| 0 <= t < dec_digits(n).len() ==> is_digit(#[trigger] dec_digits(n)[t]),
        val_of(dec_digits(n)) == n,
    decreases n,
{
    if n < 10 {
        assert(dec_digits(n) == seq![digit_char(n)]);
        assert(is_digit(digit_char(n)));
        assert(val_of(dec_digits(n)) == val_of(seq![digit_char(n)].drop_last()) * 10 + digit_val(
            digit_char(n),
        ));
        assert(seq![digit_char(n)].drop_last() =~= Seq::<char>::empty());
    } else {
        lemma_dec_digits_props(n / 10);
        vstd::arithmetic::div_mod::lemma_fundamental_div_mod(n, 10);
        let d = dec_digits(n / 10);
        assert(dec_digits(n) == d.push(digit_char(n % 10)));
        assert(d.push(digit_char(n % 10)).drop_last() =~= d);
        assert(is_digit(digit_char(n % 10)));
        assert forall|t: int| 0 <= t < dec_digits(n).len() implies is_digit(
            #[trigger] dec_digits(n)[t],
        ) by {
            if t < d.len() {
                assert(is_digit(d[t]));
            }
        }
        assert(val_of(dec_digits(n)) == val_of(d) * 10 + (n % 10));
    }
}

/// A rendering of more than one digit does not start with a zero.
proof fn lemma_dec_digits_first(n: int)
    requires
        0 <= n,
    ensures
        dec_digits(n).len() == 1 || dec_digits(n)[0] != '0',
    decreases n,
{
    if n >= 10 {
        lemma_dec_digits_first(n / 10);
        let d = dec_digits(n / 10);
        assert(dec_digits(n)[0] == d[0]);
        if d.len() == 1 {
            assert(n / 10 < 10) by {
                if n / 10 >= 10 {
                    lemma_dec_digits_props(n / 10 / 10);
                    assert(d == dec_digits(n / 10 / 10).push(digit_char((n / 10) % 10)));
                }
            }
            assert(d[0] == digit_char(n / 10));
            assert(n / 10 >= 1);
            assert(digit_char(n / 10) as int == n / 10 + 48);
            assert('0' as int == 48);
        }
    }
}

/// A value below ten to the k-th renders in at most k digits.
proof fn lemma_dec_digits_len_bound(n: int, k: int)
    requires
        0 <= n,
        1 <= k,
        n < pow10(k),
    ensures
        dec_digits(n).len() <= k,
    decreases n,
{
    if n < 10 {
    } else {
        assert(k >= 2) by {
            if k == 1 {
                assert(pow10(0) == 1);
                assert(pow10(1) == 10);
            }
        }
        assert(n / 10 < pow10(k - 1)) by {
            vstd::arithmetic::div_mod::lemma_fundamental_div_mod(n, 10);
        }
        lemma_dec_digits_len_bound(n / 10, k - 1);
    }
}

/// The leading digit run of digits-then-something-else covers exactly the
/// digits.
proof fn lemma_digit_run_of(d: Seq<char>, rest: Seq<char>)
    requires
        forall|t: int| 0 <= t < d.len() ==> is_digit(#[trigger] d[t]),
        rest.len() == 0 || !is_digit(rest[0]),
    ensures
        digit_run(d + rest) == d.len(),
    decreases d.len(),
{
    if d.len() == 0 {
        assert(d + rest =~= rest);
    } else {
        assert((d + rest)[0] == d[0]);
        assert((d + rest).drop_first() =~= d.drop_first() + rest);
        assert(forall|t: int|
            0 <= t < d.drop_first().len() ==> is_digit(#[trigger] d.drop_first()[t]));
        lemma_digit_run_of(d.drop_first(), rest);
    }
}

/// Reading an integer back from its rendering, when what follows starts
/// with something that is not a digit.
proof fn lemma_parse_int_of(v: int, rest: Seq<char>)
    requires
        -pow10(10) < v < pow10(10),
        rest.len() == 0 || !is_digit(rest[0]),
    ensures
        parse_int(int_digits(v) + rest) == Some((v, int_digits(v).len() as int)),
{
    lemma_pow10_values();
    if v >= 0 {
        let d = dec_digits(v);
        lemma_dec_digits_props(v);
        lemma_dec_digits_first(v);
        lemma_dec_digits_len_bound(v, 10);
        lemma_digit_run_of(d, rest);
        let s = d + rest;
        assert(s[0] == d[0]);
        assert(is_digit(s[0]));
        assert('-' as int == 45);
        assert(s[0] != '-');
        assert(s.take(d.len() as int) =~= d);
        if d.len() > 1 {
            assert(s[0] != '0');
        }
        assert(parse_uint(s) == Some((v, d.len() as int)));
    } else {
        let m = -v;
        let d = dec_digits(m);
        lemma_dec_digits_props(m);
        lemma_dec_digits_first(m);
        lemma_dec_digits_len_bound(m, 10);
        lemma_digit_run_of(d, rest);
        let s = int_digits(v) + rest;
        assert(int_digits(v) == seq!['-'] + d);
        assert(s[0] == '-');
        assert(s.skip(1) =~= d + rest);
        assert((d + rest).take(d.len() as int) =~= d);
        assert((d + rest)[0] == d[0]);
        if d.len() > 1 {
            assert((d + rest)[0] != '0');
        }
        assert(parse_uint(d + rest) == Some((m, d.len() as int)));
        assert(parse_int(s) == Some((v, d.len() + 1 as int)));
    }
}

/// A written character stands first in its escaped form.
proof fn lemma_esc_first(u: Seq<char>)
    requires
        u.len() > 0,
    ensures
        esc(u) == esc_char(u[0]) + esc(u.drop_first()),
    decreases u.len(),
{
    if u.len() == 1 {
        assert(u.drop_last() =~= Seq::<char>::empty());
        assert(u.last() == u[0]);
        assert(u.drop_first() =~= Seq::<char>::empty());
        assert(esc(u) =~= esc_char(u[0]) + esc(u.drop_first()));
    } else {
        let head = u.drop_last();
        lemma_esc_first(head);
        assert(head[0] == u[0]);
        assert(head.drop_first() =~= u.drop_first().drop_last());
        assert(u.drop_first().last() == u.last());
        assert(esc(u) == (esc_char(u[0]) + esc(u.drop_first().drop_last())) + esc_char(u.last()));
        assert(esc(u.drop_first()) == esc(u.drop_first().drop_last()) + esc_char(
            u.drop_first().last(),
        ));
        assert((esc_char(u[0]) + esc(u.drop_first().drop_last())) + esc_char(u.last())
            =~= esc_char(u[0]) + (esc(u.drop_first().drop_last()) + esc_char(u.last())));
    }
}

/// Characters that escaping leaves alone.
pub open spec fn plain_char(c: char) -> bool {
    c != '"' && c != '\\' && char_code(c) >= 32
}

/// A text of plain characters escapes to itself.
proof fn lemma_esc_plain(u: Seq<char>)
    requires
        forall|t: int| 0 <= t < u.len() ==> plain_char(#[trigger] u[t]),
    ensures
        esc(u) == u,
    decreases u.len(),
{
    if u.len() > 0 {
        assert(forall|t: int| 0 <= t < u.drop_last().len() ==> plain_char(u.drop_last()[t]));
        lemma_esc_plain(u.drop_last());
        assert(plain_char(u.last()));
        assert(esc_char(u.last()) == seq![u.last()]);
        assert(u.drop_last() + seq![u.last()] =~= u);
    }
}

/// The chosen character for a code is the character itself.
proof fn lemma_code_char_of(c: char)
    ensures
        code_char(char_code(c)) == c,
{
    assert(char_code(code_char(char_code(c))) == char_code(c));
}

/// Hex digit characters are hex digits and denote their value.
proof fn lemma_hex_char(d: int)
    requires
        0 <= d < 16,
    ensures
        is_hex(hex_char(d)),
        hex_val(hex_char(d)) == d,
{
    if d < 10 {
        assert(hex_char(d) as int == d + 48);
    } else {
        assert(hex_char(d) as int == d + 87);
    }
}

/// Reading a JSON string back: the escaped characters followed by the
/// closing quote denote exactly the original characters.
#[verifier::rlimit(100)]
#[verifier::spinoff_prover]
proof fn lemma_parse_str_of(u: Seq<char>, rest: Seq<char>)
    ensures
        parse_str(esc(u) + seq!['"'] + rest) == Some((u, esc(u).len() + 1 as int)),
    decreases u.len(),
{
    let s = esc(u) + seq!['"'] + rest;
    if u.len() == 0 {
        assert(esc(u) =~= Seq::<char>::empty());
        assert(s[0] == '"');
        assert(parse_str(s) == Some((Seq::<char>::empty(), 1int)));
    } else {
        let c = u[0];
        let tail = u.drop_first();
        lemma_esc_first(u);
        lemma_parse_str_of(tail, rest);
        assert('"' as int == 34);
        assert('\\' as int == 92);
        assert('u' as int == 117);
        if c == '"' || c == '\\' {
            assert(esc_char(c) == seq!['\\', c]);
            assert(s[0] == '\\');
            assert(s[1] == c);
            assert(s[0] != '"');
            assert(s[1] != 'u');
            assert(s.len() >= 2);
            assert(esc_code(c) == Some(c));
            assert(s.skip(2) =~= esc(tail) + seq!['"'] + rest);
            assert(parse_str(s.skip(2)) == Some((tail, esc(tail).len() + 1 as int)));
            assert(seq![esc_code(s[1])->0] + tail =~= u);
            assert(esc(u).len() == 2 + esc(tail).len());
        } else if 0 <= char_code(c) && char_code(c) < 32 {
            let code = char_code(c);
            let hi = code / 16;
            let lo = code % 16;
            vstd::arithmetic::div_mod::lemma_fundamental_div_mod(code, 16);
            assert(0 <= lo < 16);
            assert(0 <= hi < 16);
            lemma_hex_char(hi);
            lemma_hex_char(lo);
            assert(esc_char(c) == seq!['\\', 'u', '0', '0', hex_char(hi), hex_char(lo)]);
            assert(s[0] == '\\');
            assert(s[1] == 'u');
            assert(s[2] == '0');
            assert(s[3] == '0');
            assert(s[4] == hex_char(hi));
            assert(s[5] == hex_char(lo));
            assert(s.len() >= 6);
            assert('0' as int == 48);
            assert(is_hex('0'));
            assert(hex_val('0') == 0);
            let sub = s.subrange(2, 6);
            assert(sub[0] == '0');
            assert(sub[1] == '0');
            assert(sub[2] == hex_char(hi));
            assert(sub[3] == hex_char(lo));
            assert(hex4_val(sub) == hi * 16 + lo);
            assert(hex4_val(sub) == code);
            assert(is_scalar(code));
            lemma_code_char_of(c);
            assert(code_char(hex4_val(sub)) == c);
            assert(s.skip(6) =~= esc(tail) + seq!['"'] + rest);
            assert(parse_str(s.skip(6)) == Some((tail, esc(tail).len() + 1 as int)));
            assert(seq![c] + tail =~= u);
            assert(esc(u).len() == 6 + esc(tail).len());
        } else {
            assert(esc_char(c) == seq![c]);
            assert(s[0] == c);
            assert(s.skip(1) =~= esc(tail) + seq!['"'] + rest);
            assert(parse_str(s.skip(1)) == Some((tail, esc(tail).len() + 1 as int)));
            assert(seq![s[0]] + tail =~= u);
            assert(esc(u).len() == 1 + esc(tail).len());
        }
    }
}

/// Reading a member key back: plain characters followed by the closing
/// quote denote themselves.
proof fn lemma_parse_key(k: Seq<char>, rest: Seq<char>)
    requires
        forall|t: int| 0 <= t < k.len() ==> plain_char(#[trigger] k[t]),
    ensures
        parse_str(k + seq!['"'] + rest) == Some((k, k.len() + 1 as int)),
{
    lemma_esc_plain(k);
    lemma_parse_str_of(k, rest);
}

/// The id member, as the writer lays it out.
proof fn lemma_member_id(t: Seq<char>, id: int, rest: Seq<char>, f: ScoreFields)
    requires
        t == seq!['"', 'i', 'd', '"', ':'] + int_digits(id) + rest,
        -pow10(10) < id < pow10(10),
        rest.len() > 0,
        !is_digit(rest[0]),
        f.id is None,
    ensures
        parse_member(t, f) == Some(
            (
                ScoreFields { id: Some(id), username: f.username, score: f.score },
                5 + int_digits(id).len() as int,
            ),
        ),
{
    let i1 = int_digits(id);
    assert(t[0] == '"');
    assert(!is_ws(t[0]));
    assert(ws_run(t) == 0);
    assert(t.skip(1) =~= key_id() + seq!['"'] + (seq![':'] + i1 + rest));
    assert forall|x: int| 0 <= x < key_id().len() implies plain_char(#[trigger] key_id()[x]) by {
        assert('i' as int == 105);
        assert('d' as int == 100);
    }
    lemma_parse_key(key_id(), seq![':'] + i1 + rest);
    assert(parse_str(t.skip(1)) == Some((key_id(), 3int)));
    assert(t[4] == ':');
    assert(t.skip(4)[0] == ':');
    assert(ws_run(t.skip(4)) == 0);
    assert(t.skip(5) =~= i1 + rest);
    if id >= 0 {
        lemma_dec_digits_props(id);
        assert(i1[0] == dec_digits(id)[0]);
        assert(is_digit(i1[0]));
    } else {
        lemma_dec_digits_props(-id);
        assert(i1[0] == '-');
    }
    assert(t.skip(5)[0] == i1[0]);
    assert(!is_ws(t.skip(5)[0]));
    assert(ws_run(t.skip(5)) == 0);
    assert(key_username().len() == 8);
    assert(key_score().len() == 5);
    lemma_parse_int_of(id, rest);
    assert(parse_int(t.skip(5)) == Some((id, i1.len() as int)));
}

/// The score member, as the writer lays it out.
proof fn lemma_member_score(t: Seq<char>, sc: int, rest: Seq<char>, f: ScoreFields)
    requires
        t == seq!['"', 's', 'c', 'o', 'r', 'e', '"', ':'] + int_digits(sc) + rest,
        -pow10(10) < sc < pow10(10),
        rest.len() > 0,
        !is_digit(rest[0]),
        f.score is None,
    ensures
        parse_member(t, f) == Some(
            (
                ScoreFields { id: f.id, username: f.username, score: Some(sc) },
                8 + int_digits(sc).len() as int,
            ),
        ),
{
    let i2 = int_digits(sc);
    assert(t[0] == '"');
    assert(!is_ws(t[0]));
    assert(ws_run(t) == 0);
    assert(t.skip(1) =~= key_score() + seq!['"'] + (seq![':'] + i2 + rest));
    assert forall|x: int| 0 <= x < key_score().len() implies plain_char(
        #[trigger] key_score()[x],
    ) by {
        assert('s' as int == 115);
        assert('c' as int == 99);
        assert('o' as int == 111);
        assert('r' as int == 114);
        assert('e' as int == 101);
    }
    lemma_parse_key(key_score(), seq![':'] + i2 + rest);
    assert(parse_str(t.skip(1)) == Some((key_score(), 6int)));
    assert(t[7] == ':');
    assert(t.skip(7)[0] == ':');
    assert(ws_run(t.skip(7)) == 0);
    assert(t.skip(8) =~= i2 + rest);
    if sc >= 0 {
        lemma_dec_digits_props(sc);
        assert(i2[0] == dec_digits(sc)[0]);
        assert(is_digit(i2[0]));
    } else {
        lemma_dec_digits_props(-sc);
        assert(i2[0] == '-');
    }
    assert(t.skip(8)[0] == i2[0]);
    assert(!is_ws(t.skip(8)[0]));
    assert(ws_run(t.skip(8)) == 0);
    assert(key_id().len() == 2);
    assert(key_score() != key_id());
    lemma_parse_int_of(sc, rest);
    assert(parse_int(t.skip(8)) == Some((sc, i2.len() as int)));
}

/// The username member, as the writer lays it out.
proof fn lemma_member_username(t: Seq<char>, u: Seq<char>, rest: Seq<char>, f: ScoreFields)
    requires
        t == seq!['"', 'u', 's', 'e', 'r', 'n', 'a', 'm', 'e', '"', ':', '"'] + esc(u)
            + seq!['"'] + rest,
        f.username is None,
    ensures
        parse_member(t, f) == Some(
            (
                ScoreFields { id: f.id, username: Some(u), score: f.score },
                13 + esc(u).len() as int,
            ),
        ),
{
    assert(t[0] == '"');
    assert(!is_ws(t[0]));
    assert(ws_run(t) == 0);
    assert(t.skip(1) =~= key_username() + seq!['"'] + (seq![':', '"'] + esc(u) + seq!['"']
        + rest));
    assert forall|x: int| 0 <= x < key_username().len() implies plain_char(
        #[trigger] key_username()[x],
    ) by {
        assert('u' as int == 117);
        assert('s' as int == 115);
        assert('e' as int == 101);
        assert('r' as int == 114);
        assert('n' as int == 110);
        assert('a' as int == 97);
        assert('m' as int == 109);
    }
    lemma_parse_key(key_username(), seq![':', '"'] + esc(u) + seq!['"'] + rest);
    assert(parse_str(t.skip(1)) == Some((key_username(), 9int)));
    assert(t[10] == ':');
    assert(t.skip(10)[0] == ':');
    assert(ws_run(t.skip(10)) == 0);
    assert(t[11] == '"');
    assert(t.skip(11)[0] == '"');
    assert(ws_run(t.skip(11)) == 0);
    assert(key_id().len() == 2);
    assert(key_score().len() == 5);
    assert(key_username() != key_id());
    assert(key_username() != key_score());
    assert(t.skip(12) =~= esc(u) + seq!['"'] + rest);
    lemma_parse_str_of(u, rest);
    assert(parse_str(t.skip(12)) == Some((u, esc(u).len() + 1 as int)));
}

/// Round trip: the JSON text written for a score row reads back as exactly
/// that row.
#[verifier::rlimit(100)]
#[verifier::spinoff_prover]
pub proof fn lemma_score_json_round_trip(v: ScoreV)
    requires
        in_i32(v.id),
        in_i32(v.score),
    ensures
        parse_score_val(score_json(v)) == Some(v),
{
    lemma_pow10_values();
    let i1 = int_digits(v.id);
    let eu = esc(v.username);
    let i2 = int_digits(v.score);
    let s = score_json(v);
    let n1 = i1.len() as int;
    let nu = eu.len() as int;
    let n2 = i2.len() as int;

    assert(s[0] == '{');
    assert(!is_ws(s[0]));
    assert(ws_run(s) == 0);

    // the id member
    let t1 = s.skip(1);
    let rest1 = lit_pre_username() + eu + lit_post_username() + i2 + lit_close();
    assert(t1 =~= seq!['"', 'i', 'd', '"', ':'] + i1 + rest1);
    assert(rest1[0] == ',');
    lemma_member_id(t1, v.id, rest1, empty_fields());
    let f1 = (ScoreFields { id: Some(v.id), username: None, score: None });
    assert(parse_member(t1, empty_fields()) == Some((f1, 5 + n1)));
    assert(t1.skip(5 + n1) =~= rest1);
    assert(t1.skip(5 + n1)[0] == ',');
    assert(ws_run(t1.skip(5 + n1)) == 0);
    assert(t1[5 + n1] == ',');

    // the username member
    let t2 = t1.skip(5 + n1 + 1);
    let rest2 = seq![',', '"', 's', 'c', 'o', 'r', 'e', '"', ':'] + i2 + lit_close();
    assert(lit_post_username() =~= seq!['"'] + seq![',', '"', 's', 'c', 'o', 'r', 'e', '"', ':']);
    assert(t2 =~= seq!['"', 'u', 's', 'e', 'r', 'n', 'a', 'm', 'e', '"', ':', '"'] + eu
        + seq!['"'] + rest2);
    lemma_member_username(t2, v.username, rest2, f1);
    let f2 = (ScoreFields { id: Some(v.id), username: Some(v.username), score: None });
    assert(parse_member(t2, f1) == Some((f2, 13 + nu)));
    assert(t2.skip(13 + nu) =~= rest2);
    assert(t2.skip(13 + nu)[0] == ',');
    assert(ws_run(t2.skip(13 + nu)) == 0);
    assert(t2[13 + nu] == ',');

    // the score member and the closing brace
    let t3 = t2.skip(13 + nu + 1);
    assert(t3 =~= seq!['"', 's', 'c', 'o', 'r', 'e', '"', ':'] + i2 + lit_close());
    assert(lit_close()[0] == '}');
    lemma_member_score(t3, v.score, lit_close(), f2);
    let f3 = (ScoreFields { id: Some(v.id), username: Some(v.username), score: Some(v.score) });
    assert(parse_member(t3, f2) == Some((f3, 8 + n2)));
    assert(t3.skip(8 + n2) =~= lit_close());
    assert(t3.skip(8 + n2)[0] == '}');
    assert(ws_run(t3.skip(8 + n2)) == 0);
    assert(t3[8 + n2] == '}');
    assert(parse_fields(t3, f2) == Some((f3, 8 + n2 + 1)));

    // the member list, outward
    assert(t2.skip(13 + nu + 1) == t3);
    assert(parse_fields(t2, f1) == Some((f3, 13 + nu + 1 + (8 + n2 + 1))));
    assert(t1.skip(5 + n1 + 1) == t2);
    assert(parse_fields(t1, empty_fields()) == Some((f3, 5 + n1 + 1 + (13 + nu + 1 + (8 + n2
        + 1)))));

    // the whole text
    assert(s.skip(1) == t1);
    assert(s.len() == 30 + n1 + nu + n2);
    assert(1 + (5 + n1 + 1 + (13 + nu + 1 + (8 + n2 + 1))) == s.len());
    assert(s.skip(s.len() as int).len() == 0);
    assert(ws_run(s.skip(s.len() as int)) == 0);
    assert(parse_score_val(s) == Some(ScoreV { id: v.id, username: v.username, score: v.score }));
}

/// The members gathered so far, in executable form.
struct DraftFields {
    id: Option<i64>,
    username: Option<String>,
    score: Option<i64>,
}

spec fn draft_view(d: &DraftFields) -> ScoreFields {
    ScoreFields {
        id: match d.id {
            Some(v) => Some(v as int),
            None => None,
        },
        username: match d.username {
            Some(u) => Some(u@),
            None => None,
        },
        score: match d.score {
            Some(v) => Some(v as int),
            None => None,
        },
    }
}

#[verifier::rlimit(100)]
fn parse_member_at(s: &str, i: usize, n: usize, d: DraftFields) -> (r: Option<(DraftFields, usize)>)
    requires
        i <= n,
        n == s@.len(),
    ensures
        match r {
            Some(p) => i < p.1 <= n && parse_member(s@.skip(i as int), draft_view(&d)) == Some(
                (draft_view(&p.0), p.1 - i as int),
            ),
            None => parse_member(s@.skip(i as int), draft_view(&d)) is None,
        },
{
    let w = scan_ws(s, i, n);
    if w >= n {
        return None;
    }
    proof {
        assert(s@.skip(i as int)[(w - i) as int] == s@[w as int]);
    }
    if s.get_char(w) != '"' {
        return None;
    }
    proof {
        assert(s@.skip(i as int).skip(w - i as int + 1) =~= s@.skip(w as int + 1));
    }
    let (key, a) = match parse_str_at(s, w + 1, n) {
        Some(p) => p,
        None => {
            return None;
        },
    };
    proof {
        assert(s@.skip(i as int).skip(a - i as int) =~= s@.skip(a as int));
    }
    let c = scan_ws(s, a, n);
    if c >= n {
        return None;
    }
    proof {
        assert(s@.skip(i as int)[(c - i) as int] == s@[c as int]);
    }
    if s.get_char(c) != ':' {
        return None;
    }
    proof {
        assert(s@.skip(i as int).skip(c - i as int + 1) =~= s@.skip(c as int + 1));
    }
    let v = scan_ws(s, c + 1, n);
    proof {
        reveal_strlit("id");
        reveal_strlit("username");
        reveal_strlit("score");
        assert("id"@ =~= key_id());
        assert("username"@ =~= key_username());
        assert("score"@ =~= key_score());
        assert(s@.skip(i as int).skip(v - i as int) =~= s@.skip(v as int));
    }
    let kid = String::from_str("id");
    let kuser = String::from_str("username");
    let kscore = String::from_str("score");
    if key == kid && d.id.is_none() {
        match parse_int_at(s, v, n) {
            Some((val, j)) => Some(
                (DraftFields { id: Some(val), username: d.username, score: d.score }, j),
            ),
            None => None,
        }
    } else if key == kscore && d.score.is_none() {
        match parse_int_at(s, v, n) {
            Some((val, j)) => Some(
                (DraftFields { id: d.id, username: d.username, score: Some(val) }, j),
            ),
            None => None,
        }
    } else if key == kuser && d.username.is_none() {
        if v >= n {
            return None;
        }
        proof {
            assert(s@.skip(i as int)[(v - i) as int] == s@[v as int]);
        }
        if s.get_char(v) != '"' {
            return None;
        }
        proof {
            assert(s@.skip(i as int).skip(v - i as int + 1) =~= s@.skip(v as int + 1));
        }
        match parse_str_at(s, v + 1, n) {
            Some((u, j)) => Some(
                (DraftFields { id: d.id, username: Some(u), score: d.score }, j),
            ),
            None => None,
        }
    } else {
        None
    }
}

#[verifier::rlimit(100)]
fn parse_fields_at(s: &str, i: usize, n: usize, d: DraftFields) -> (r: Option<
    (DraftFields, usize),
>)
    requires
        i <= n,
        n == s@.len(),
    ensures
        match r {
            Some(p) => i < p.1 <= n && parse_fields(s@.skip(i as int), draft_view(&d)) == Some(
                (draft_view(&p.0), p.1 - i as int),
            ),
            None => parse_fields(s@.skip(i as int), draft_view(&d)) is None,
        },
    decreases n - i,
{
    let (d2, j) = match parse_member_at(s, i, n, d) {
        Some(p) => p,
        None => {
            return None;
        },
    };
    proof {
        assert(s@.skip(i as int).skip(j - i as int) =~= s@.skip(j as int));
    }
    let p = scan_ws(s, j, n);
    if p >= n {
        return None;
    }
    proof {
        assert(s@.skip(i as int)[(p - i) as int] == s@[p as int]);
    }
    let c = s.get_char(p);
    if c == ',' {
        proof {
            assert(s@.skip(i as int).skip(p - i as int + 1) =~= s@.skip(p as int + 1));
        }
        match parse_fields_at(s, p + 1, n, d2) {
            Some((d3, k)) => Some((d3, k)),
            None => None,
        }
    } else if c == '}' {
        Some((d2, p + 1))
    } else {
        None
    }
}

/// The score row in a JSON text: one object with the members id, username
/// and score in any order, or nothing when the text is not such an object.
#[verifier::rlimit(100)]
#[verifier::spinoff_prover]
pub fn parse_score(s: &str) -> (r: Option<Score>)
    ensures
        match r {
            Some(sc) => parse_score_val(s@) == Some(sc@),
            None => parse_score_val(s@) is None,
        },
{
    let n = s.unicode_len();
    proof {
        assert(s@.skip(0) =~= s@);
    }
    let w0 = scan_ws(s, 0, n);
    if w0 >= n {
        return None;
    }
    if s.get_char(w0) != '{' {
        return None;
    }
    let (d, k) = match parse_fields_at(
        s,
        w0 + 1,
        n,
        DraftFields { id: None, username: None, score: None },
    ) {
        Some(p) => p,
        None => {
            return None;
        },
    };
    let e = scan_ws(s, k, n);
    if e != n {
        return None;
    }
    let idv = match d.id {
        Some(v) => v,
        None => {
            return None;
        },
    };
    let scv = match d.score {
        Some(v) => v,
        None => {
            return None;
        },
    };
    let name = match d.username {
        Some(u) => u,
        None => {
            return None;
        },
    };
    if idv < i32::MIN as i64 || idv > i32::MAX as i64 || scv < i32::MIN as i64 || scv
        > i32::MAX as i64 {
        return None;
    }
    let out = Score { id: idv as i32, username: name, score: scv as i32 };
    proof {
        assert(parse_score_val(s@) == Some(out@));
    }
    Some(out)
}

/// The score submission in a JSON text: one object with the members
/// username and score in any order — an explicit id is forbidden — or
/// nothing when the text is not such an object.
#[verifier::rlimit(100)]
#[verifier::spinoff_prover]
pub fn parse_new_score(s: &str) -> (r: Option<NewScore>)
    ensures
        match r {
            Some(ns) => parse_new_score_val(s@) == Some(ns@),
            None => parse_new_score_val(s@) is None,
        },
{
    let n = s.unicode_len();
    proof {
        assert(s@.skip(0) =~= s@);
    }
    let w0 = scan_ws(s, 0, n);
    if w0 >= n {
        return None;
    }
    if s.get_char(w0) != '{' {
        return None;
    }
    let (d, k) = match parse_fields_at(
        s,
        w0 + 1,
        n,
        DraftFields { id: None, username: None, score: None },
    ) {
        Some(p) => p,
        None => {
            return None;
        },
    };
    let e = scan_ws(s, k, n);
    if e != n {
        return None;
    }
    if d.id.is_some() {
        return None;
    }
    let scv = match d.score {
        Some(v) => v,
        None => {
            return None;
        },
    };
    let name = match d.username {
        Some(u) => u,
        None => {
            return None;
        },
    };
    if scv < i32::MIN as i64 || scv > i32::MAX as i64 {
        return None;
    }
    let out = NewScore { username: name, score: scv as i32 };
    proof {
        assert(parse_new_score_val(s@) == Some(out@));
    }
    Some(out)
}

} // verus!
