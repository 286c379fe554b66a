//! Mail search over Evolution's local summary cache: the SQL each folder is
//! queried with, and how the matches are ordered and rendered.

use vstd::prelude::*;

use crate::calendar::opt_str;
use crate::datetime::{display_text, format_epoch, fits_i64, iso_fits, parse_iso, parse_iso_result};
use crate::order::{insert_by, law_sort_by, lemma_insert_by_split, ordered, sort_by};
use crate::text::{
    chars_of, concat, decimal, join_texts, joined, owned, push_char, push_decimal, push_str,
    replace_all, replace_chars, texts_view,
};
use crate::tools::{notes_section, push_notes, truncate, truncated, MAX_OUTPUT_BYTES};

verus! {

/// Results returned when the model gives no limit.
pub const DEFAULT_LIMIT: usize = 20;

/// The most results one search returns.
pub const MAX_LIMIT: usize = 100;

/// A folder name as a quoted SQL identifier (Camel names the table after it).
pub open spec fn quoted_ident(name: Seq<char>) -> Seq<char> {
    seq!['"'] + replace_all(name, seq!['"'], seq!['"', '"']) + seq!['"']
}

pub fn quote_ident(name: &str) -> (r: String)
    ensures
        r@ == quoted_ident(name@),
{
    let v = chars_of(name);
    let pat = vec!['"'];
    let rep = vec!['"', '"'];
    assert(pat@ == seq!['"']);
    assert(rep@ == seq!['"', '"']);
    let body = replace_chars(v.as_slice(), pat.as_slice(), rep.as_slice());
    let mut out = String::new();
    push_char(&mut out, '"');
    crate::text::push_chars(&mut out, body.as_slice());
    push_char(&mut out, '"');
    out
}

/// The `LIKE` wildcards and the escape character, each written after a
/// backslash.
pub open spec fn like_escaped(s: Seq<char>) -> Seq<char>
    decreases s.len(),
{
    if s.len() == 0 {
        Seq::empty()
    } else {
        let c = s.last();
        let tail = if c == '%' || c == '_' || c == '\\' { seq!['\\', c] } else { seq![c] };
        like_escaped(s.drop_last()) + tail
    }
}

/// A query wrapped for a `LIKE ? ESCAPE '\'` match that treats its text
/// literally.
pub open spec fn like_pattern_of(query: Seq<char>) -> Seq<char> {
    seq!['%'] + like_escaped(query) + seq!['%']
}

pub fn like_pattern(query: &str) -> (r: String)
    ensures
        r@ == like_pattern_of(query@),
{
    let v = chars_of(query);
    let mut out = String::new();
    push_char(&mut out, '%');
    let mut i: usize = 0;
    while i < v.len()
        invariant
            i <= v.len(),
            out@ == seq!['%'] + like_escaped(v@.take(i as int)),
        decreases v.len() - i,
    {
        let c = v[i];
        assert(v@.take(i + 1).drop_last() == v@.take(i as int));
        if c == '%' || c == '_' || c == '\\' {
            push_char(&mut out, '\\');
        }
        push_char(&mut out, c);
        assert(out@ =~= seq!['%'] + like_escaped(v@.take(i + 1)));
        i = i + 1;
    }
    assert(v@.take(v.len() as int) == v@);
    push_char(&mut out, '%');
    out
}

// ---------------------------------------------------------------------------
// Querying a folder
// ---------------------------------------------------------------------------

/// A bound parameter of a folder query.
pub enum SqlParam {
    Integer(i64),
    Text(String),
}

pub enum SqlParamView {
    Integer(int),
    Text(Seq<char>),
}

pub open spec fn param_view(p: SqlParam) -> SqlParamView {
    match p {
        SqlParam::Integer(i) => SqlParamView::Integer(i as int),
        SqlParam::Text(t) => SqlParamView::Text(t@),
    }
}

pub open spec fn params_view(v: Seq<SqlParam>) -> Seq<SqlParamView> {
    v.map_values(|p: SqlParam| param_view(p))
}

pub open spec fn text_match_clause() -> Seq<char> {
    "(subject LIKE ? ESCAPE '\\' OR mail_from LIKE ? ESCAPE '\\' OR mail_to LIKE ? ESCAPE '\\' OR mail_cc LIKE ? ESCAPE '\\' OR IFNULL(preview, '') LIKE ? ESCAPE '\\')"@
}

/// The `WHERE` conditions, in order.
pub open spec fn query_clauses(query: Option<Seq<char>>, start: Option<int>, end: Option<int>, unread_only: bool) -> Seq<Seq<char>> {
    seq!["deleted = 0"@]
        + (if unread_only { seq!["read = 0"@] } else { Seq::empty() })
        + (if start is Some { seq!["COALESCE(dreceived, dsent, 0) >= ?"@] } else { Seq::empty() })
        + (if end is Some { seq!["COALESCE(dreceived, dsent, 0) < ?"@] } else { Seq::empty() })
        + (if query is Some { seq![text_match_clause()] } else { Seq::empty() })
}

/// The SQL text of one folder query.
pub open spec fn folder_sql(folder: Seq<char>, query: Option<Seq<char>>, start: Option<int>, end: Option<int>, unread_only: bool) -> Seq<char> {
    "SELECT IFNULL(subject, ''), IFNULL(mail_from, ''), COALESCE(dreceived, dsent, 0), read, attachment FROM "@
        + quoted_ident(folder) + " WHERE "@ + joined(query_clauses(query, start, end, unread_only), " AND "@)
        + " ORDER BY COALESCE(dreceived, dsent, 0) DESC LIMIT ?"@
}

/// The values bound to the query's `?`s, in order.
pub open spec fn folder_params(query: Option<Seq<char>>, start: Option<int>, end: Option<int>, limit: int) -> Seq<SqlParamView> {
    (match start { Some(s) => seq![SqlParamView::Integer(s)], None => Seq::empty() })
        + (match end { Some(e) => seq![SqlParamView::Integer(e)], None => Seq::empty() })
        + (match query {
            Some(q) => Seq::new(5, |i: int| SqlParamView::Text(like_pattern_of(q))),
            None => Seq::empty(),
        })
        + seq![SqlParamView::Integer(limit)]
}

pub open spec fn opt_int(o: Option<i64>) -> Option<int> {
    match o {
        Some(x) => Some(x as int),
        None => None,
    }
}

fn push_owned(v: &mut Vec<String>, s: &str)
    ensures
        texts_view(final(v)@) == texts_view(old(v)@).push(s@),
{
    let ghost before = v@;
    v.push(owned(s));
    assert(texts_view(v@) =~= texts_view(before).push(s@));
}

fn query_clause_list(has_query: bool, has_start: bool, has_end: bool, unread_only: bool) -> (r: Vec<String>)
    ensures
        texts_view(r@) == query_clauses(
            if has_query { Some(Seq::<char>::empty()) } else { None },
            if has_start { Some(0int) } else { None },
            if has_end { Some(0int) } else { None },
            unread_only),
{
    let mut v: Vec<String> = Vec::new();
    push_owned(&mut v, "deleted = 0");
    if unread_only {
        push_owned(&mut v, "read = 0");
    }
    if has_start {
        push_owned(&mut v, "COALESCE(dreceived, dsent, 0) >= ?");
    }
    if has_end {
        push_owned(&mut v, "COALESCE(dreceived, dsent, 0) < ?");
    }
    if has_query {
        push_owned(&mut v, "(subject LIKE ? ESCAPE '\\' OR mail_from LIKE ? ESCAPE '\\' OR mail_to LIKE ? ESCAPE '\\' OR mail_cc LIKE ? ESCAPE '\\' OR IFNULL(preview, '') LIKE ? ESCAPE '\\')");
    }
    assert(texts_view(v@) =~= query_clauses(
            if has_query { Some(Seq::<char>::empty()) } else { None },
            if has_start { Some(0int) } else { None },
            if has_end { Some(0int) } else { None },
            unread_only));
    v
}

fn push_param(v: &mut Vec<SqlParam>, p: SqlParam)
    ensures
        params_view(final(v)@) == params_view(old(v)@).push(param_view(p)),
{
    let ghost before = v@;
    v.push(p);
    assert(params_view(v@) =~= params_view(before).push(param_view(p)));
}

fn folder_query_params(query: Option<&str>, start: Option<i64>, end: Option<i64>, limit: usize) -> (r: Vec<SqlParam>)
    requires
        limit <= i64::MAX,
    ensures
        params_view(r@) == folder_params(opt_str(query), opt_int(start), opt_int(end), limit as int),
{
    let mut params: Vec<SqlParam> = Vec::new();
    match start {
        Some(s) => push_param(&mut params, SqlParam::Integer(s)),
        None => {},
    }
    match end {
        Some(e) => push_param(&mut params, SqlParam::Integer(e)),
        None => {},
    }
    let ghost p0 = params@;
    match query {
        Some(text) => {
            let pattern = like_pattern(text);
            let mut k: usize = 0;
            while k < 5
                invariant
                    k <= 5,
                    pattern@ == like_pattern_of(text@),
                    params_view(params@) == params_view(p0) + Seq::new(k as nat, |i: int| SqlParamView::Text(like_pattern_of(text@))),
                decreases 5 - k,
            {
                push_param(&mut params, SqlParam::Text(pattern.clone()));
                assert(params_view(params@) =~= params_view(p0) + Seq::new((k + 1) as nat, |i: int| SqlParamView::Text(like_pattern_of(text@))));
                k = k + 1;
            }
        },
        None => {},
    }
    push_param(&mut params, SqlParam::Integer(limit as i64));
    assert(params_view(params@) =~= folder_params(opt_str(query), opt_int(start), opt_int(end), limit as int));
    params
}

/// The SQL and parameters that select one folder's matching messages, newest
/// first, at most `limit` of them.
pub fn folder_query(
    folder: &str,
    query: Option<&str>,
    start: Option<i64>,
    end: Option<i64>,
    unread_only: bool,
    limit: usize,
) -> (r: (String, Vec<SqlParam>))
    requires
        limit <= i64::MAX,
    ensures
        r.0@ == folder_sql(folder@, opt_str(query), opt_int(start), opt_int(end), unread_only),
        params_view(r.1@) == folder_params(opt_str(query), opt_int(start), opt_int(end), limit as int),
{
    let clauses = query_clause_list(query.is_some(), start.is_some(), end.is_some(), unread_only);
    assert(query_clauses(opt_str(query), opt_int(start), opt_int(end), unread_only) == query_clauses(
            if query.is_some() { Some(Seq::<char>::empty()) } else { None },
            if start.is_some() { Some(0int) } else { None },
            if end.is_some() { Some(0int) } else { None },
            unread_only));
    let condition = join_texts(&clauses, " AND ");
    let mut sql = owned("SELECT IFNULL(subject, ''), IFNULL(mail_from, ''), COALESCE(dreceived, dsent, 0), read, attachment FROM ");
    let q = quote_ident(folder);
    push_str(&mut sql, q.as_str());
    push_str(&mut sql, " WHERE ");
    push_str(&mut sql, condition.as_str());
    push_str(&mut sql, " ORDER BY COALESCE(dreceived, dsent, 0) DESC LIMIT ?");
    let params = folder_query_params(query, start, end, limit);
    (sql, params)
}

// ---------------------------------------------------------------------------
// Search arguments
// ---------------------------------------------------------------------------

/// The instant window of a search: messages on/after `start` and before
/// `end`, a date-only `end` including that whole day.
pub open spec fn search_window(start: Option<Seq<char>>, end: Option<Seq<char>>) -> Result<(Option<int>, Option<int>), Seq<char>> {
    let s = match start {
        Some(s) => match parse_iso_result(s) {
            Ok((secs, _)) => Ok(Some(secs)),
            Err(e) => Err(e),
        },
        None => Ok(None),
    };
    match s {
        Err(e) => Err(e),
        Ok(s) => match end {
            Some(e) => match parse_iso_result(e) {
                Ok((secs, has_time)) => Ok((s, Some(if has_time { secs } else { secs + 86400 }))),
                Err(m) => Err(m),
            },
            None => Ok((s, None)),
        },
    }
}

pub open spec fn window_fits(start: Option<Seq<char>>, end: Option<Seq<char>>) -> bool {
    &&& (match start { Some(s) => iso_fits(s), None => true })
    &&& (match end {
        Some(e) => iso_fits(e) && (match parse_iso_result(e) {
            Ok((secs, false)) => fits_i64(secs + 86400),
            _ => true,
        }),
        None => true,
    })
}

pub open spec fn window_view(r: Result<(Option<i64>, Option<i64>), String>) -> Result<(Option<int>, Option<int>), Seq<char>> {
    match r {
        Ok((a, b)) => Ok((opt_int(a), opt_int(b))),
        Err(e) => Err(e@),
    }
}

pub fn search_range(start: Option<&str>, end: Option<&str>) -> (r: Result<(Option<i64>, Option<i64>), String>)
    requires
        window_fits(opt_str(start), opt_str(end)),
    ensures
        window_view(r) == search_window(opt_str(start), opt_str(end)),
{
    let s = match start {
        Some(text) => match parse_iso(text) {
            Ok((secs, _)) => Some(secs),
            Err(e) => {
                return Err(e);
            },
        },
        None => None,
    };
    let e = match end {
        Some(text) => match parse_iso(text) {
            Ok((secs, has_time)) => Some(if has_time { secs } else { secs + 86_400 }),
            Err(m) => {
                return Err(m);
            },
        },
        None => None,
    };
    Ok((s, e))
}

/// The number of results asked for, clamped to `1..=MAX_LIMIT`; the default
/// when none is given.
pub open spec fn limit_of(requested: Option<u64>) -> int {
    match requested {
        Some(n) => {
            let m = (n as usize) as int;
            if m < 1 { 1 } else if m > MAX_LIMIT { MAX_LIMIT as int } else { m }
        },
        None => DEFAULT_LIMIT as int,
    }
}

pub fn clamp_limit(requested: Option<u64>) -> (r: usize)
    ensures
        r == limit_of(requested),
{
    match requested {
        Some(n) => {
            let m = n as usize;
            if m < 1 {
                1
            } else if m > MAX_LIMIT {
                MAX_LIMIT
            } else {
                m
            }
        },
        None => DEFAULT_LIMIT,
    }
}

// ---------------------------------------------------------------------------
// Messages
// ---------------------------------------------------------------------------

/// One matching message.
pub struct Message {
    pub subject: String,
    pub from: String,
    pub folder: String,
    pub account: String,
    pub date: i64,
    pub unread: bool,
    pub attachment: bool,
}

/// How a message is listed: subject with unread/attachment marks, then the
/// sender, where it lives, and when.
pub open spec fn message_text(m: Message, show_account: bool) -> Seq<char> {
    let subject = if m.subject@.len() == 0 { "(no subject)"@ } else { m.subject@ };
    let marks = (if m.unread { " ●"@ } else { Seq::empty() }) + (if m.attachment { " 📎"@ } else { Seq::empty() });
    let location = if show_account { m.account@ + " / "@ + m.folder@ } else { m.folder@ };
    "• "@ + subject + marks + "\n    "@ + m.from@ + "  ·  "@ + location + "  ·  "@ + display_text(m.date as int) + "\n"@
}

pub fn render(msg: &Message, show_account: bool) -> (r: String)
    ensures
        r@ == message_text(*msg, show_account),
{
    let mut out = String::new();
    push_str(&mut out, "• ");
    if msg.subject.as_str().is_empty() {
        push_str(&mut out, "(no subject)");
    } else {
        push_str(&mut out, msg.subject.as_str());
    }
    if msg.unread {
        push_str(&mut out, " ●");
    }
    if msg.attachment {
        push_str(&mut out, " 📎");
    }
    push_str(&mut out, "\n    ");
    push_str(&mut out, msg.from.as_str());
    push_str(&mut out, "  ·  ");
    if show_account {
        push_str(&mut out, msg.account.as_str());
        push_str(&mut out, " / ");
        push_str(&mut out, msg.folder.as_str());
    } else {
        push_str(&mut out, msg.folder.as_str());
    }
    push_str(&mut out, "  ·  ");
    let when = format_epoch(msg.date);
    push_str(&mut out, when.as_str());
    push_str(&mut out, "\n");
    assert(out@ =~= message_text(*msg, show_account));
    out
}

// ---------------------------------------------------------------------------
// The search reply
// ---------------------------------------------------------------------------

/// Messages are listed newest first, ties keeping their order.
pub open spec fn newest_first() -> spec_fn(Message, Message) -> bool {
    |a: Message, b: Message| a.date > b.date
}

fn insert_message(v: &mut Vec<Message>, x: Message)
    ensures
        final(v)@ == insert_by(old(v)@, x, newest_first()),
{
    let ghost s = v@;
    let mut i = v.len();
    while i > 0 && x.date > v[i - 1].date
        invariant
            i <= v.len(),
            s == v@,
            forall|j: int| i <= j < s.len() ==> #[trigger] (newest_first())(x, s[j]),
        decreases i,
    {
        assert((newest_first())(x, s[i - 1]));
        i = i - 1;
    }
    proof {
        lemma_insert_by_split(s, x, newest_first(), i as int);
    }
    v.insert(i, x);
    assert(v@ =~= s.take(i as int).push(x) + s.skip(i as int));
}

/// `messages` stably sorted newest first.
pub fn sort_messages(messages: Vec<Message>) -> (r: Vec<Message>)
    ensures
        r@ == sort_by(messages@, newest_first()),
{
    let mut rest = messages;
    let ghost orig = rest@;
    let mut out: Vec<Message> = Vec::new();
    let ghost mut k: int = 0;
    while rest.len() > 0
        invariant
            0 <= k <= orig.len(),
            rest@ == orig.skip(k),
            out@ == sort_by(orig.take(k), newest_first()),
        decreases rest.len(),
    {
        let x = rest.remove(0);
        proof {
            assert(rest@ =~= orig.skip(k + 1));
            assert(orig.take(k + 1).drop_last() =~= orig.take(k));
            assert(orig.take(k + 1).last() == orig[k]);
        }
        insert_message(&mut out, x);
        proof {
            k = k + 1;
        }
    }
    assert(orig.take(k) =~= orig);
    out
}

/// The reply to a search: the newest `limit` matches, or a line saying there
/// are none; then the sources that could not be read; bounded in size.
pub open spec fn messages_listing(messages: Seq<Message>, limit: int, show_account: bool, notes: Seq<Seq<char>>) -> Seq<
    char,
> {
    let sorted = sort_by(messages, newest_first());
    let shown = if sorted.len() > limit { sorted.take(limit) } else { sorted };
    let body = if shown.len() == 0 {
        "No matching messages found."@
    } else {
        decimal(shown.len()) + " message(s):\n\n"@ + concat(shown.map_values(|m: Message| message_text(m, show_account)))
    };
    truncated(body + notes_section("\nNotes (sources that could not be read):\n"@, notes), MAX_OUTPUT_BYTES as int)
}

/// Render the matches gathered from every folder: newest first, at most
/// `limit`, with the account shown when there are several, and notes on the
/// sources that could not be read.
pub fn messages_report(messages: Vec<Message>, limit: usize, show_account: bool, notes: &Vec<String>) -> (r: String)
    ensures
        r@ == messages_listing(messages@, limit as int, show_account, texts_view(notes@)),
{
    let mut sorted = sort_messages(messages);
    let ghost all = sorted@;
    if sorted.len() > limit {
        sorted.truncate(limit);
        assert(sorted@ =~= all.take(limit as int));
    }
    let ghost sv = sorted@;
    let mut out = String::new();
    if sorted.len() == 0 {
        push_str(&mut out, "No matching messages found.");
    } else {
        push_decimal(&mut out, sorted.len() as u64);
        push_str(&mut out, " message(s):\n\n");
        let ghost head = out@;
        let mut i: usize = 0;
        while i < sorted.len()
            invariant
                i <= sorted.len(),
                sv == sorted@,
                out@ == head + concat(sv.take(i as int).map_values(|m: Message| message_text(m, show_account))),
            decreases sorted.len() - i,
        {
            let piece = render(&sorted[i], show_account);
            push_str(&mut out, piece.as_str());
            assert(sv.take(i + 1).map_values(|m: Message| message_text(m, show_account)).drop_last() =~= sv.take(
                i as int,
            ).map_values(|m: Message| message_text(m, show_account)));
            i = i + 1;
        }
        assert(sv.take(sorted.len() as int) =~= sv);
    }
    push_notes(&mut out, "\nNotes (sources that could not be read):\n", notes);
    truncate(&mut out, MAX_OUTPUT_BYTES);
    out
}

/// `- {account}: {err}`, the note for an account whose store could not be read.
pub fn account_note(account: &str, err: &str) -> (r: String)
    ensures
        r@ == "- "@ + account@ + ": "@ + err@,
{
    let mut s = owned("- ");
    push_str(&mut s, account);
    push_str(&mut s, ": ");
    push_str(&mut s, err);
    s
}

/// `- {account} / {folder}: {err}`, the note for a folder that could not be
/// searched.
pub fn folder_note(account: &str, folder: &str, err: &str) -> (r: String)
    ensures
        r@ == "- "@ + account@ + " / "@ + folder@ + ": "@ + err@,
{
    let mut s = owned("- ");
    push_str(&mut s, account);
    push_str(&mut s, " / ");
    push_str(&mut s, folder);
    push_str(&mut s, ": ");
    push_str(&mut s, err);
    s
}

/// The reply when no local mail store exists at all.
pub fn no_store_reply() -> (r: String)
    ensures
        r@ == "No local mail store found (the Evolution/elementary Mail cache is empty — open Mail and let it sync first)."@,
{
    owned("No local mail store found (the Evolution/elementary Mail cache is empty — open Mail and let it sync first).")
}

/// A search reply lists messages newest first, and sorting keeps every match.
pub proof fn law_messages_newest_first(messages: Seq<Message>)
    ensures
        ordered(sort_by(messages, newest_first()), newest_first()),
        sort_by(messages, newest_first()).to_multiset() == messages.to_multiset(),
{
    law_sort_by(messages, newest_first());
}


/// Each value lines up with its placeholder: the `>= ?` condition comes
/// before the `< ?` one, and the start is bound first, then the end, then the
/// five text patterns, then the limit.
pub proof fn law_params_follow_placeholders(
    query: Option<Seq<char>>,
    start: Option<int>,
    end: Option<int>,
    unread_only: bool,
    limit: int,
)
    ensures
        ({
            let p = folder_params(query, start, end, limit);
            let c = query_clauses(query, start, end, unread_only);
            let ns: int = if start is Some { 1 } else { 0 };
            let ne: int = if end is Some { 1 } else { 0 };
            let nq: int = if query is Some { 5 } else { 0 };
            let u: int = if unread_only { 1 } else { 0 };
            &&& p.len() == ns + ne + nq + 1
            &&& p[p.len() - 1] == SqlParamView::Integer(limit)
            &&& start matches Some(s) ==> p[0] == SqlParamView::Integer(s) && c[1 + u]
                == "COALESCE(dreceived, dsent, 0) >= ?"@
            &&& end matches Some(e) ==> p[ns] == SqlParamView::Integer(e) && c[1 + u + ns]
                == "COALESCE(dreceived, dsent, 0) < ?"@
            &&& query matches Some(q) ==> (forall|k: int| 0 <= k < 5 ==> #[trigger] p[ns + ne + k] == SqlParamView::Text(
                like_pattern_of(q),
            )) && c[1 + u + ns + ne] == text_match_clause()
        }),
{
}

} // verus!
