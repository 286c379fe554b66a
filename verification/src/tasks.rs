//! To-do tasks (VTODO): reading them from iCalendar text, building new ones,
//! the completion trio, and rendering them for the model.

use vstd::prelude::*;

use crate::calendar::{
    crlf, nothing_to_modify, opt_str, optional_line, present_text, push_present, push_title,
    text_view, title_or_placeholder,
};
use crate::datetime::{epoch_to_make_time, iso_fits, make_time_text, now_epoch};
use crate::ical::{
    blocks_view, components, components_of, date_only, display_dt, dt_property, dt_property_result,
    escape, escaped, format_dt, is_date_only, opt_view, property_parts, property_set,
    set_dt_property, set_property, set_text_property, sort_key, sort_key_of, split_property,
    strings_view, unescape, unescaped, unfold, unfold_text, with_dt, with_text, without_names,
    lines_named, named_if, text_line, lemma_with_text_lines, lemma_with_dt_lines, lemma_line_name,
    lemma_set_keeps_unnamed, lemma_set_property_lines,
};
use crate::order::{insert_by, is_order, law_sort_by, lemma_insert_by_split, ordered, sort_by};
use crate::text::{
    contains_seq, chars_of, concat, eq_ignore_ascii_case, eq_ignore_case_chars, join_texts, joined, push_char,
    push_str, text_less, text_lt, texts_view, upper_chars, upper_seq, lemma_text_lt_order,
    lemma_text_not_lt_chain,
};
use crate::tools::{notes_section, push_notes, truncate, truncated, MAX_OUTPUT_BYTES};

verus! {

/// One task as listed to the model.
pub struct Task {
    pub summary: String,
    pub due_raw: Option<String>,
    pub due_all_day: bool,
    pub status: Option<String>,
    pub description: Option<String>,
    pub uid: Option<String>,
    pub list: String,
    pub sort_key: String,
}

pub struct TaskView {
    pub summary: Seq<char>,
    pub due_raw: Option<Seq<char>>,
    pub due_all_day: bool,
    pub status: Option<Seq<char>>,
    pub description: Option<Seq<char>>,
    pub uid: Option<Seq<char>>,
    pub list: Seq<char>,
    pub sort_key: Seq<char>,
}

impl View for Task {
    type V = TaskView;

    open spec fn view(&self) -> TaskView {
        TaskView {
            summary: self.summary@,
            due_raw: opt_view(self.due_raw),
            due_all_day: self.due_all_day,
            status: opt_view(self.status),
            description: opt_view(self.description),
            uid: opt_view(self.uid),
            list: self.list@,
            sort_key: self.sort_key@,
        }
    }
}

/// A task counts as done when EDS marks it `COMPLETED`.
pub open spec fn is_completed(status: Option<Seq<char>>) -> bool {
    match status {
        Some(s) => eq_ignore_ascii_case(s, "COMPLETED"@),
        None => false,
    }
}

impl Task {
    pub fn completed(&self) -> (r: bool)
        ensures
            r == is_completed(self@.status),
    {
        match &self.status {
            Some(s) => {
                let v = chars_of(s.as_str());
                let c = vec!['C', 'O', 'M', 'P', 'L', 'E', 'T', 'E', 'D'];
                proof {
                    reveal_strlit("COMPLETED");
                    assert(c@ == "COMPLETED"@);
                }
                eq_ignore_case_chars(v.as_slice(), c.as_slice())
            },
            None => false,
        }
    }
}

/// The fields read from the lines of a VTODO.
pub open spec fn vtodo_scan(lines: Seq<Seq<char>>) -> TaskView
    decreases lines.len(),
{
    if lines.len() == 0 {
        TaskView {
            summary: Seq::empty(),
            due_raw: None,
            due_all_day: false,
            status: None,
            description: None,
            uid: None,
            list: Seq::empty(),
            sort_key: seq!['0'],
        }
    } else {
        let t = vtodo_scan(lines.drop_last());
        match property_parts(lines.last()) {
            None => t,
            Some((name, params, value)) => {
                if name == "SUMMARY"@ {
                    TaskView { summary: unescaped(value), ..t }
                } else if name == "DUE"@ {
                    TaskView { due_all_day: date_only(params, value), due_raw: Some(value), ..t }
                } else if name == "STATUS"@ {
                    TaskView { status: Some(value), ..t }
                } else if name == "DESCRIPTION"@ {
                    TaskView { description: Some(unescaped(value)), ..t }
                } else if name == "UID"@ {
                    TaskView { uid: Some(value), ..t }
                } else {
                    t
                }
            },
        }
    }
}

/// The task one VTODO's inner lines describe (no list yet).
pub open spec fn vtodo_of(lines: Seq<Seq<char>>) -> TaskView {
    let t = vtodo_scan(lines);
    TaskView { sort_key: sort_key_of(t.due_raw), ..t }
}

fn same_name(name: &String, lit: &str) -> (r: bool)
    ensures
        r == (name@ == lit@),
{
    let a = chars_of(name.as_str());
    let b = chars_of(lit);
    crate::text::chars_eq(a.as_slice(), b.as_slice())
}

/// Parse one VTODO's inner lines into a [`Task`] (list set by caller).
pub fn parse_vtodo(lines: &[String]) -> (task: Task)
    ensures
        task@ == vtodo_of(strings_view(lines@)),
{
    let ghost lv = strings_view(lines@);
    let mut zero = String::new();
    push_char(&mut zero, '0');
    let mut task = Task {
        summary: String::new(),
        due_raw: None,
        due_all_day: false,
        status: None,
        description: None,
        uid: None,
        list: String::new(),
        sort_key: zero,
    };
    let mut i: usize = 0;
    while i < lines.len()
        invariant
            i <= lines.len(),
            lv == strings_view(lines@),
            task@ == vtodo_scan(lv.take(i as int)),
        decreases lines.len() - i,
    {
        assert(lv.take(i + 1).drop_last() == lv.take(i as int));
        assert(lv.take(i + 1).last() == lines@[i as int]@);
        match split_property(lines[i].as_str()) {
            None => {},
            Some((name, params, value)) => {
                if same_name(&name, "SUMMARY") {
                    task.summary = unescape(value.as_str());
                } else if same_name(&name, "DUE") {
                    task.due_all_day = is_date_only(params.as_str(), value.as_str());
                    task.due_raw = Some(value);
                } else if same_name(&name, "STATUS") {
                    task.status = Some(value);
                } else if same_name(&name, "DESCRIPTION") {
                    task.description = Some(unescape(value.as_str()));
                } else if same_name(&name, "UID") {
                    task.uid = Some(value);
                }
            },
        }
        i = i + 1;
    }
    assert(lv.take(lines.len() as int) == lv);
    task.sort_key = sort_key(&task.due_raw);
    task
}

/// Every VTODO of a reply element.
pub open spec fn tasks_of(blob: Seq<char>) -> Seq<TaskView> {
    components_of(blob, "VTODO"@).map_values(|b: Seq<Seq<char>>| vtodo_of(b))
}

pub open spec fn tasks_view(v: Seq<Task>) -> Seq<TaskView> {
    v.map_values(|t: Task| t@)
}

pub fn parse_tasks(blob: &str) -> (r: Vec<Task>)
    ensures
        tasks_view(r@) == tasks_of(blob@),
{
    let blocks = components(blob, "VTODO");
    let ghost bv = blocks_view(blocks@);
    let mut r: Vec<Task> = Vec::new();
    let mut i: usize = 0;
    while i < blocks.len()
        invariant
            i <= blocks.len(),
            bv == blocks_view(blocks@),
            bv == components_of(blob@, "VTODO"@),
            tasks_view(r@) == bv.take(i as int).map_values(|b: Seq<Seq<char>>| vtodo_of(b)),
        decreases blocks.len() - i,
    {
        let t = parse_vtodo(blocks[i].as_slice());
        assert(bv[i as int] == strings_view(blocks@[i as int]@));
        let ghost before = r@;
        r.push(t);
        assert(tasks_view(r@) == tasks_view(before).push(t@));
        assert(tasks_view(r@) =~= bv.take(i + 1).map_values(|b: Seq<Seq<char>>| vtodo_of(b)));
        i = i + 1;
    }
    assert(bv.take(blocks.len() as int) == bv);
    r
}

// ---------------------------------------------------------------------------
// Building a VTODO
// ---------------------------------------------------------------------------

/// The `DUE` line for a non-empty due input (nothing for none or empty).
pub open spec fn due_part(due: Option<Seq<char>>) -> Result<Seq<char>, Seq<char>> {
    match due {
        Some(d) => if d.len() > 0 {
            match dt_property_result("DUE"@, d) {
                Ok(line) => Ok(line + crlf()),
                Err(e) => Err(e),
            }
        } else {
            Ok(Seq::empty())
        },
        None => Ok(Seq::empty()),
    }
}

/// The bare VTODO created for the given fields, stamped at `stamp`: always
/// open (`NEEDS-ACTION`, 0% complete).
pub open spec fn vtodo_text(
    stamp: int,
    uid: Seq<char>,
    summary: Seq<char>,
    due: Option<Seq<char>>,
    description: Option<Seq<char>>,
) -> Result<Seq<char>, Seq<char>> {
    match due_part(due) {
        Err(e) => Err(e),
        Ok(due_line) => Ok("BEGIN:VTODO\r\n"@ + "UID:"@ + uid + crlf() + "DTSTAMP:"@
            + make_time_text(stamp) + crlf() + "SUMMARY:"@ + escaped(summary) + crlf()
            + "STATUS:NEEDS-ACTION\r\n"@ + "PERCENT-COMPLETE:0\r\n"@ + due_line
            + optional_line("DESCRIPTION:"@, description) + "END:VTODO\r\n"@),
    }
}

pub open spec fn due_fits(due: Option<Seq<char>>) -> bool {
    match due {
        Some(d) => d.len() > 0 ==> iso_fits(d),
        None => true,
    }
}

fn push_line(out: &mut String, tag: &str, value: &str)
    ensures
        final(out)@ == old(out)@ + tag@ + value@ + crlf(),
{
    push_str(out, tag);
    push_str(out, value);
    push_str(out, "\r\n");
}

/// Build a bare VTODO for creation, stamped with the given time.
pub fn build_vtodo_at(
    stamp: i64,
    uid: &str,
    summary: &str,
    due: Option<&str>,
    description: Option<&str>,
) -> (r: Result<String, String>)
    requires
        due_fits(opt_str(due)),
    ensures
        text_view(r) == vtodo_text(stamp as int, uid@, summary@, opt_str(due), opt_str(description)),
{
    let mut v = String::new();
    push_str(&mut v, "BEGIN:VTODO\r\n");
    push_line(&mut v, "UID:", uid);
    let st = epoch_to_make_time(stamp);
    push_line(&mut v, "DTSTAMP:", st.as_str());
    let es = escape(summary);
    push_line(&mut v, "SUMMARY:", es.as_str());
    push_str(&mut v, "STATUS:NEEDS-ACTION\r\n");
    push_str(&mut v, "PERCENT-COMPLETE:0\r\n");
    let ghost head = v@;
    match due {
        Some(d) => {
            if !d.is_empty() {
                match dt_property("DUE", d) {
                    Ok(line) => {
                        push_str(&mut v, line.as_str());
                        push_str(&mut v, "\r\n");
                    },
                    Err(e) => {
                        return Err(e);
                    },
                }
            }
        },
        None => {},
    }
    let ghost due_line = due_part(opt_str(due))->Ok_0;
    assert(v@ =~= head + due_line);
    match description {
        Some(desc) => {
            if !desc.is_empty() {
                push_str(&mut v, "DESCRIPTION:");
                let e = escape(desc);
                push_str(&mut v, e.as_str());
                push_str(&mut v, "\r\n");
            }
        },
        None => {},
    }
    push_str(&mut v, "END:VTODO\r\n");
    proof {
        let expected = vtodo_text(stamp as int, uid@, summary@, opt_str(due), opt_str(description));
        assert(expected is Ok);
        assert(v@ =~= expected->Ok_0);
    }
    Ok(v)
}

/// Build a bare VTODO for creation, stamped with the current time.
pub fn build_vtodo(uid: &str, summary: &str, due: Option<&str>, description: Option<&str>)
    -> (r: Result<String, String>)
    requires
        due_fits(opt_str(due)),
    ensures
        exists|stamp: i64| text_view(r) == vtodo_text(stamp as int, uid@, summary@, opt_str(due), opt_str(description)),
{
    let now = now_epoch();
    build_vtodo_at(now, uid, summary, due, description)
}

// ---------------------------------------------------------------------------
// Completion
// ---------------------------------------------------------------------------

/// The completion trio set on unfolded VTODO lines: completing stamps
/// `COMPLETED` with `stamp`; reopening drops it and resets to `NEEDS-ACTION`.
pub open spec fn completion_set(lines: Seq<Seq<char>>, completed: bool, stamp: int) -> Seq<Seq<char>> {
    if completed {
        let a = property_set(lines, "STATUS"@, Some("STATUS:COMPLETED"@));
        let b = property_set(a, "PERCENT-COMPLETE"@, Some("PERCENT-COMPLETE:100"@));
        property_set(b, "COMPLETED"@, Some("COMPLETED:"@ + make_time_text(stamp)))
    } else {
        let a = property_set(lines, "STATUS"@, Some("STATUS:NEEDS-ACTION"@));
        let b = property_set(a, "PERCENT-COMPLETE"@, Some("PERCENT-COMPLETE:0"@));
        property_set(b, "COMPLETED"@, None)
    }
}

fn owned(s: &str) -> (r: String)
    ensures
        r@ == s@,
{
    let mut r = String::new();
    push_str(&mut r, s);
    r
}

/// Set the completion trio (`STATUS`/`PERCENT-COMPLETE`/`COMPLETED`) with
/// `COMPLETED` stamped at `stamp`.
pub fn set_completion_at(lines: &mut Vec<String>, completed: bool, stamp: i64)
    ensures
        strings_view(final(lines)@) == completion_set(strings_view(old(lines)@), completed, stamp as int),
{
    if completed {
        set_property(lines, "STATUS", Some(owned("STATUS:COMPLETED")));
        set_property(lines, "PERCENT-COMPLETE", Some(owned("PERCENT-COMPLETE:100")));
        let mut line = owned("COMPLETED:");
        let t = epoch_to_make_time(stamp);
        push_str(&mut line, t.as_str());
        set_property(lines, "COMPLETED", Some(line));
    } else {
        set_property(lines, "STATUS", Some(owned("STATUS:NEEDS-ACTION")));
        set_property(lines, "PERCENT-COMPLETE", Some(owned("PERCENT-COMPLETE:0")));
        set_property(lines, "COMPLETED", None);
    }
}

/// Set the completion trio on an unfolded VTODO, stamping `COMPLETED` with
/// the current UTC time.
pub fn set_completion(lines: &mut Vec<String>, completed: bool)
    ensures
        exists|stamp: i64| strings_view(final(lines)@) == completion_set(strings_view(old(lines)@), completed, stamp as int),
{
    let now = now_epoch();
    set_completion_at(lines, completed, now);
}

// ---------------------------------------------------------------------------
// Rendering
// ---------------------------------------------------------------------------

/// A status worth showing: anything but `NEEDS-ACTION` and `COMPLETED`,
/// which the checkbox already conveys.
pub open spec fn status_text(status: Option<Seq<char>>) -> Seq<char> {
    match status {
        Some(s) => {
            let u = upper_seq(s);
            if u != "NEEDS-ACTION"@ && u != "COMPLETED"@ { "    Status: "@ + s + "\n"@ } else { Seq::empty() }
        },
        None => Seq::empty(),
    }
}

/// `s` with each newline replaced by a space.
pub open spec fn one_line(s: Seq<char>) -> Seq<char> {
    s.map_values(|c: char| if c == '\n' { ' ' } else { c })
}

pub open spec fn notes_text(description: Option<Seq<char>>) -> Seq<char> {
    match description {
        Some(d) => if d.len() > 0 { "    Notes: "@ + one_line(d) + "\n"@ } else { Seq::empty() },
        None => Seq::empty(),
    }
}

pub open spec fn due_text(due: Option<Seq<char>>, all_day: bool) -> Seq<char> {
    match due {
        Some(d) => "    Due: "@ + display_dt(d, all_day) + "\n"@,
        None => Seq::empty(),
    }
}

/// How a task is listed to the model.
pub open spec fn task_text(t: TaskView) -> Seq<char> {
    let check = if is_completed(t.status) { "[x]"@ } else { "[ ]"@ };
    "• "@ + check + " "@ + title_or_placeholder(t.summary) + "  ["@ + t.list + "]\n"@
        + due_text(t.due_raw, t.due_all_day) + status_text(t.status) + notes_text(t.description)
        + present_text("    uid: "@, t.uid)
}

fn push_status(out: &mut String, status: &Option<String>)
    ensures
        final(out)@ == old(out)@ + status_text(opt_view(*status)),
{
    match status {
        Some(s) => {
            let u = upper_chars(chars_of(s.as_str()).as_slice());
            let na = chars_of("NEEDS-ACTION");
            let co = chars_of("COMPLETED");
            if !crate::text::chars_eq(u.as_slice(), na.as_slice()) && !crate::text::chars_eq(u.as_slice(), co.as_slice()) {
                push_str(out, "    Status: ");
                push_str(out, s.as_str());
                push_str(out, "\n");
            }
        },
        None => {},
    }
}

fn push_description(out: &mut String, description: &Option<String>)
    ensures
        final(out)@ == old(out)@ + notes_text(opt_view(*description)),
{
    match description {
        Some(d) => {
            if !d.as_str().is_empty() {
                push_str(out, "    Notes: ");
                let v = chars_of(d.as_str());
                let ghost start = out@;
                let mut i: usize = 0;
                while i < v.len()
                    invariant
                        i <= v.len(),
                        out@ == start + one_line(v@.take(i as int)),
                    decreases v.len() - i,
                {
                    let c = if v[i] == '\n' { ' ' } else { v[i] };
                    push_char(out, c);
                    assert(one_line(v@.take(i + 1)) =~= one_line(v@.take(i as int)).push(c));
                    i = i + 1;
                }
                assert(v@.take(v.len() as int) == v@);
                push_str(out, "\n");
            }
        },
        None => {},
    }
}

pub fn render_task(task: &Task) -> (r: String)
    ensures
        r@ == task_text(task@),
{
    let mut s = String::new();
    push_str(&mut s, "• ");
    if task.completed() {
        push_str(&mut s, "[x]");
    } else {
        push_str(&mut s, "[ ]");
    }
    push_str(&mut s, " ");
    push_title(&mut s, &task.summary);
    push_str(&mut s, "  [");
    push_str(&mut s, task.list.as_str());
    push_str(&mut s, "]\n");
    match &task.due_raw {
        Some(due) => {
            push_str(&mut s, "    Due: ");
            let d = format_dt(due.as_str(), task.due_all_day);
            push_str(&mut s, d.as_str());
            push_str(&mut s, "\n");
        },
        None => {},
    }
    push_status(&mut s, &task.status);
    push_description(&mut s, &task.description);
    push_present(&mut s, "    uid: ", &task.uid);
    assert(s@ =~= task_text(task@));
    s
}

// ---------------------------------------------------------------------------
// Listing tasks
// ---------------------------------------------------------------------------

/// Tasks are listed in order of their sort keys, ties keeping their order.
pub open spec fn by_task_key() -> spec_fn(TaskView, TaskView) -> bool {
    |a: TaskView, b: TaskView| text_lt(a.sort_key, b.sort_key)
}

/// The tasks a listing shows: all of them, or only the open ones.
pub open spec fn shown_tasks(tasks: Seq<TaskView>, include_completed: bool) -> Seq<TaskView>
    decreases tasks.len(),
{
    if tasks.len() == 0 {
        Seq::empty()
    } else {
        let prev = shown_tasks(tasks.drop_last(), include_completed);
        if include_completed || !is_completed(tasks.last().status) {
            prev.push(tasks.last())
        } else {
            prev
        }
    }
}

fn insert_task(v: &mut Vec<Task>, x: Task)
    ensures
        tasks_view(final(v)@) == insert_by(tasks_view(old(v)@), x@, by_task_key()),
{
    let ghost s = tasks_view(v@);
    let mut i = v.len();
    while i > 0 && text_less(x.sort_key.as_str(), v[i - 1].sort_key.as_str())
        invariant
            i <= v.len(),
            s == tasks_view(v@),
            forall|j: int| i <= j < s.len() ==> #[trigger] (by_task_key())(x@, s[j]),
        decreases i,
    {
        assert((by_task_key())(x@, s[i - 1]));
        i = i - 1;
    }
    proof {
        lemma_insert_by_split(s, x@, by_task_key(), i as int);
    }
    v.insert(i, x);
    assert(tasks_view(v@) =~= s.take(i as int).push(x@) + s.skip(i as int));
}

/// The tasks to show, stably sorted by sort key.
pub fn sort_shown_tasks(tasks: Vec<Task>, include_completed: bool) -> (r: Vec<Task>)
    ensures
        tasks_view(r@) == sort_by(shown_tasks(tasks_view(tasks@), include_completed), by_task_key()),
{
    let mut rest = tasks;
    let ghost orig = tasks_view(rest@);
    let mut out: Vec<Task> = Vec::new();
    let ghost mut k: int = 0;
    while rest.len() > 0
        invariant
            0 <= k <= orig.len(),
            tasks_view(rest@) == orig.skip(k),
            tasks_view(out@) == sort_by(shown_tasks(orig.take(k), include_completed), by_task_key()),
        decreases rest.len(),
    {
        assert(tasks_view(rest@).len() == rest@.len());
        let ghost before_rest = rest@;
        let x = rest.remove(0);
        proof {
            assert forall|j: int| 0 <= j < rest@.len() implies rest@[j]@ == orig[k + 1 + j] by {
                assert(rest@[j] == before_rest[j + 1]);
                assert(tasks_view(before_rest)[j + 1] == orig.skip(k)[j + 1]);
            }
            assert(tasks_view(rest@) =~= orig.skip(k + 1));
            assert(x@ == orig.skip(k)[0]);
            assert(orig.take(k + 1).drop_last() =~= orig.take(k));
            assert(orig.take(k + 1).last() == orig[k]);
        }
        if include_completed || !x.completed() {
            let ghost shown = shown_tasks(orig.take(k), include_completed);
            insert_task(&mut out, x);
            assert(shown_tasks(orig.take(k + 1), include_completed) == shown.push(orig[k]));
            assert(shown.push(orig[k]).drop_last() =~= shown);
        }
        proof {
            k = k + 1;
        }
    }
    assert(orig.take(k) =~= orig);
    out
}

/// The listing of tasks: each shown task in sort-key order, or a line saying
/// there are none; then the task lists that could not be read; bounded in
/// size.
pub open spec fn tasks_listing(tasks: Seq<TaskView>, notes: Seq<Seq<char>>, include_completed: bool) -> Seq<char> {
    let sorted = sort_by(shown_tasks(tasks, include_completed), by_task_key());
    let body = if sorted.len() == 0 {
        if include_completed { "No tasks found."@ } else { "No open tasks found."@ }
    } else {
        concat(sorted.map_values(|t: TaskView| task_text(t)))
    };
    truncated(
        body + notes_section("\nNotes (task lists that could not be read):\n"@, notes),
        MAX_OUTPUT_BYTES as int,
    )
}

/// Render the tasks read from every list (already labelled with their list),
/// leaving out completed ones unless asked, with notes on the lists that
/// could not be read.
pub fn tasks_report(tasks: Vec<Task>, notes: &Vec<String>, include_completed: bool) -> (r: String)
    ensures
        r@ == tasks_listing(tasks_view(tasks@), texts_view(notes@), include_completed),
{
    let sorted = sort_shown_tasks(tasks, include_completed);
    let ghost sv = tasks_view(sorted@);
    let mut out = String::new();
    if sorted.len() == 0 {
        if include_completed {
            push_str(&mut out, "No tasks found.");
        } else {
            push_str(&mut out, "No open tasks found.");
        }
    } else {
        let mut i: usize = 0;
        while i < sorted.len()
            invariant
                i <= sorted.len(),
                sv == tasks_view(sorted@),
                out@ == concat(sv.take(i as int).map_values(|t: TaskView| task_text(t))),
            decreases sorted.len() - i,
        {
            let piece = render_task(&sorted[i]);
            push_str(&mut out, piece.as_str());
            assert(sv.take(i + 1).map_values(|t: TaskView| task_text(t)).drop_last() =~= sv.take(
                i as int,
            ).map_values(|t: TaskView| task_text(t)));
            i = i + 1;
        }
        assert(sv.take(sorted.len() as int) =~= sv);
    }
    push_notes(&mut out, "\nNotes (task lists that could not be read):\n", notes);
    truncate(&mut out, MAX_OUTPUT_BYTES);
    out
}

// ---------------------------------------------------------------------------
// Changing tasks
// ---------------------------------------------------------------------------

/// A modify request must change at least one field.
pub fn check_task_changes(
    summary: Option<&str>,
    due: Option<&str>,
    description: Option<&str>,
    completed: Option<bool>,
) -> (r: Result<(), String>)
    ensures
        r is Ok <==> (summary is Some || due is Some || description is Some || completed is Some),
        r matches Err(m) ==> m@ == nothing_to_modify(),
{
    if summary.is_none() && due.is_none() && description.is_none() && completed.is_none() {
        return Err(owned("nothing to modify: provide at least one field to change"));
    }
    Ok(())
}

/// `lines` with the due date set from ISO input, or removed for an empty one.
pub open spec fn with_due(lines: Seq<Seq<char>>, due: Option<Seq<char>>) -> Result<Seq<Seq<char>>, Seq<char>> {
    match due {
        Some(d) => if d.len() == 0 {
            Ok(property_set(lines, "DUE"@, None))
        } else {
            with_dt(lines, "DUE"@, Some(d))
        },
        None => Ok(lines),
    }
}

/// The text of a task after a modify request: summary, due date and
/// description set when given, then the completion trio when asked (stamped
/// `stamp`), rejoined with CRLF.
pub open spec fn task_edit_of(
    existing: Seq<char>,
    summary: Option<Seq<char>>,
    due: Option<Seq<char>>,
    description: Option<Seq<char>>,
    completed: Option<bool>,
    stamp: int,
) -> Result<Seq<char>, Seq<char>> {
    match task_edit_lines(existing, summary, due, description, completed, stamp) {
        Ok(l) => Ok(joined(l, crlf())),
        Err(e) => Err(e),
    }
}

/// The unfolded lines of a task after a modify request.
pub open spec fn task_edit_lines(
    existing: Seq<char>,
    summary: Option<Seq<char>>,
    due: Option<Seq<char>>,
    description: Option<Seq<char>>,
    completed: Option<bool>,
    stamp: int,
) -> Result<Seq<Seq<char>>, Seq<char>> {
    let l1 = with_text(unfold_text(existing), "SUMMARY"@, summary);
    match with_due(l1, due) {
        Err(e) => Err(e),
        Ok(l2) => {
            let l3 = with_text(l2, "DESCRIPTION"@, description);
            Ok(
                match completed {
                    Some(c) => completion_set(l3, c, stamp),
                    None => l3,
                },
            )
        },
    }
}

/// The properties a modify request names; asking for a completion state
/// names the whole completion trio.
pub open spec fn task_edit_names(
    summary: Option<Seq<char>>,
    due: Option<Seq<char>>,
    description: Option<Seq<char>>,
    completed: Option<bool>,
) -> Set<Seq<char>> {
    named_if("SUMMARY"@, summary).union(named_if("DUE"@, due)).union(named_if("DESCRIPTION"@, description)).union(
        named_if("STATUS"@, completed),
    ).union(named_if("PERCENT-COMPLETE"@, completed)).union(named_if("COMPLETED"@, completed))
}

/// The lines the completion trio is left with for a completion state.
pub open spec fn trio_lines(completed: bool, stamp: int) -> (Seq<Seq<char>>, Seq<Seq<char>>, Seq<Seq<char>>) {
    if completed {
        (seq!["STATUS:COMPLETED"@], seq!["PERCENT-COMPLETE:100"@], seq!["COMPLETED:"@ + make_time_text(stamp)])
    } else {
        (seq!["STATUS:NEEDS-ACTION"@], seq!["PERCENT-COMPLETE:0"@], Seq::empty())
    }
}

proof fn lemma_completion_lines(lines: Seq<Seq<char>>, completed: bool, stamp: int, names: Set<Seq<char>>)
    requires
        names.contains("STATUS"@),
        names.contains("PERCENT-COMPLETE"@),
        names.contains("COMPLETED"@),
    ensures
        without_names(completion_set(lines, completed, stamp), names) == without_names(lines, names),
        lines_named(completion_set(lines, completed, stamp), "STATUS"@) == trio_lines(completed, stamp).0,
        lines_named(completion_set(lines, completed, stamp), "PERCENT-COMPLETE"@) == trio_lines(completed, stamp).1,
        lines_named(completion_set(lines, completed, stamp), "COMPLETED"@) == trio_lines(completed, stamp).2,
        forall|n: Seq<char>|
            n != "STATUS"@ && n != "PERCENT-COMPLETE"@ && n != "COMPLETED"@ ==> #[trigger] lines_named(
                completion_set(lines, completed, stamp),
                n,
            ) == lines_named(lines, n),
{
    reveal_strlit("STATUS");
    reveal_strlit("PERCENT-COMPLETE");
    reveal_strlit("COMPLETED");
    reveal_strlit("STATUS:COMPLETED");
    reveal_strlit("STATUS:NEEDS-ACTION");
    reveal_strlit("PERCENT-COMPLETE:100");
    reveal_strlit("PERCENT-COMPLETE:0");
    reveal_strlit("COMPLETED:");
    let (st, pc, co) = if completed {
        (Some("STATUS:COMPLETED"@), Some("PERCENT-COMPLETE:100"@), Some("COMPLETED:"@ + make_time_text(stamp)))
    } else {
        (Some("STATUS:NEEDS-ACTION"@), Some("PERCENT-COMPLETE:0"@), None)
    };
    assert("STATUS:COMPLETED"@ =~= "STATUS"@ + seq![':'] + "COMPLETED"@);
    assert("STATUS:NEEDS-ACTION"@ =~= "STATUS"@ + seq![':'] + "NEEDS-ACTION"@) by {
        reveal_strlit("NEEDS-ACTION");
    }
    assert("PERCENT-COMPLETE:100"@ =~= "PERCENT-COMPLETE"@ + seq![':'] + "100"@) by {
        reveal_strlit("100");
    }
    assert("PERCENT-COMPLETE:0"@ =~= "PERCENT-COMPLETE"@ + seq![':'] + "0"@) by {
        reveal_strlit("0");
    }
    assert("COMPLETED:"@ + make_time_text(stamp) =~= "COMPLETED"@ + seq![':'] + make_time_text(stamp));
    lemma_line_name("STATUS"@, ':', "COMPLETED"@);
    lemma_line_name("STATUS"@, ':', "NEEDS-ACTION"@);
    lemma_line_name("PERCENT-COMPLETE"@, ':', "100"@);
    lemma_line_name("PERCENT-COMPLETE"@, ':', "0"@);
    lemma_line_name("COMPLETED"@, ':', make_time_text(stamp));
    assert("STATUS"@.len() == 6 && "PERCENT-COMPLETE"@.len() == 16 && "COMPLETED"@.len() == 9);
    let a = property_set(lines, "STATUS"@, st);
    let b = property_set(a, "PERCENT-COMPLETE"@, pc);
    let c = property_set(b, "COMPLETED"@, co);
    assert(c == completion_set(lines, completed, stamp));
    lemma_set_keeps_unnamed(lines, "STATUS"@, st, names);
    lemma_set_keeps_unnamed(a, "PERCENT-COMPLETE"@, pc, names);
    lemma_set_keeps_unnamed(b, "COMPLETED"@, co, names);
    lemma_set_property_lines(lines, "STATUS"@, st);
    lemma_set_property_lines(a, "PERCENT-COMPLETE"@, pc);
    lemma_set_property_lines(b, "COMPLETED"@, co);
    assert(lines_named(c, "STATUS"@) == lines_named(a, "STATUS"@));
    assert(lines_named(c, "PERCENT-COMPLETE"@) == lines_named(b, "PERCENT-COMPLETE"@));
}

/// A modify request changes only the fields it names: the lines of every
/// other property stay, in order, and each named field is left with exactly
/// the lines the request gives it (an empty due date removes it; a
/// completion state sets the whole completion trio).
pub proof fn law_edit_task_changes_only_named(
    existing: Seq<char>,
    summary: Option<Seq<char>>,
    due: Option<Seq<char>>,
    description: Option<Seq<char>>,
    completed: Option<bool>,
    stamp: int,
    edited: Seq<Seq<char>>,
)
    requires
        task_edit_lines(existing, summary, due, description, completed, stamp) == Ok::<
            Seq<Seq<char>>,
            Seq<char>,
        >(edited),
    ensures
        without_names(edited, task_edit_names(summary, due, description, completed)) == without_names(
            unfold_text(existing),
            task_edit_names(summary, due, description, completed),
        ),
        summary matches Some(v) ==> lines_named(edited, "SUMMARY"@) == seq![text_line("SUMMARY"@, v)],
        due matches Some(d) ==> (if d.len() == 0 {
            lines_named(edited, "DUE"@) == Seq::<Seq<char>>::empty()
        } else {
            dt_property_result("DUE"@, d) matches Ok(p) && lines_named(edited, "DUE"@) == seq![p]
        }),
        description matches Some(v) ==> lines_named(edited, "DESCRIPTION"@) == seq![
            text_line("DESCRIPTION"@, v),
        ],
        completed matches Some(c) ==> {
            &&& lines_named(edited, "STATUS"@) == trio_lines(c, stamp).0
            &&& lines_named(edited, "PERCENT-COMPLETE"@) == trio_lines(c, stamp).1
            &&& lines_named(edited, "COMPLETED"@) == trio_lines(c, stamp).2
        },
{
    reveal_strlit("SUMMARY");
    reveal_strlit("DUE");
    reveal_strlit("DESCRIPTION");
    reveal_strlit("STATUS");
    reveal_strlit("PERCENT-COMPLETE");
    reveal_strlit("COMPLETED");
    assert("SUMMARY"@.len() == 7 && "DUE"@.len() == 3 && "DESCRIPTION"@.len() == 11);
    assert("STATUS"@.len() == 6 && "PERCENT-COMPLETE"@.len() == 16 && "COMPLETED"@.len() == 9);
    let names = task_edit_names(summary, due, description, completed);
    let l0 = unfold_text(existing);
    let l1 = with_text(l0, "SUMMARY"@, summary);
    let l2 = with_due(l1, due)->Ok_0;
    let l3 = with_text(l2, "DESCRIPTION"@, description);
    lemma_with_text_lines(l0, "SUMMARY"@, summary, names);
    match due {
        Some(d) => {
            if d.len() == 0 {
                lemma_set_keeps_unnamed(l1, "DUE"@, None, names);
                lemma_set_property_lines(l1, "DUE"@, None);
            } else {
                lemma_with_dt_lines(l1, "DUE"@, Some(d), names, l2);
            }
        },
        None => {},
    }
    lemma_with_text_lines(l2, "DESCRIPTION"@, description, names);
    if let Some(c) = completed {
        lemma_completion_lines(l3, c, stamp, names);
    }
    assert(lines_named(edited, "SUMMARY"@) == lines_named(l1, "SUMMARY"@));
    assert(lines_named(edited, "DUE"@) == lines_named(l2, "DUE"@));
    assert(lines_named(edited, "DESCRIPTION"@) == lines_named(l3, "DESCRIPTION"@));
}

/// Apply a modify request to a task's current text; `stamp` is the
/// completion time recorded when the task is marked done.
pub fn edit_task(
    existing: &str,
    summary: Option<&str>,
    due: Option<&str>,
    description: Option<&str>,
    completed: Option<bool>,
    stamp: i64,
) -> (r: Result<String, String>)
    requires
        due matches Some(t) ==> iso_fits(t@) || t@.len() == 0,
    ensures
        text_view(r) == task_edit_of(
            existing@,
            opt_str(summary),
            opt_str(due),
            opt_str(description),
            completed,
            stamp as int,
        ),
{
    let mut lines = unfold(existing);
    set_text_property(&mut lines, "SUMMARY", summary);
    match due {
        Some(d) => {
            if d.is_empty() {
                set_property(&mut lines, "DUE", None);
            } else {
                set_dt_property(&mut lines, "DUE", Some(d))?;
            }
        },
        None => {},
    }
    set_text_property(&mut lines, "DESCRIPTION", description);
    match completed {
        Some(done) => set_completion_at(&mut lines, done, stamp),
        None => {},
    }
    assert(strings_view(lines@) =~= texts_view(lines@));
    Ok(join_texts(&lines, "\r\n"))
}

/// `Created task "{summary}" in {list} (uid: {uid}).`
pub fn task_created_reply(summary: &str, list: &str, uid: &str) -> (r: String)
    ensures
        r@ == "Created task \""@ + summary@ + "\" in "@ + list@ + " (uid: "@ + uid@ + ")."@,
{
    let mut s = owned("Created task \"");
    push_str(&mut s, summary);
    push_str(&mut s, "\" in ");
    push_str(&mut s, list);
    push_str(&mut s, " (uid: ");
    push_str(&mut s, uid);
    push_str(&mut s, ").");
    s
}

/// `Modified task {uid} in {list}.`
pub fn task_modified_reply(uid: &str, list: &str) -> (r: String)
    ensures
        r@ == "Modified task "@ + uid@ + " in "@ + list@ + "."@,
{
    let mut s = owned("Modified task ");
    push_str(&mut s, uid);
    push_str(&mut s, " in ");
    push_str(&mut s, list);
    push_str(&mut s, ".");
    s
}

/// `Deleted task {uid} from {list}.`
pub fn task_deleted_reply(uid: &str, list: &str) -> (r: String)
    ensures
        r@ == "Deleted task "@ + uid@ + " from "@ + list@ + "."@,
{
    let mut s = owned("Deleted task ");
    push_str(&mut s, uid);
    push_str(&mut s, " from ");
    push_str(&mut s, list);
    push_str(&mut s, ".");
    s
}

/// Listed tasks come in sort-key order, and sorting keeps every shown task.
pub proof fn law_tasks_in_order(tasks: Seq<TaskView>)
    ensures
        ordered(sort_by(tasks, by_task_key()), by_task_key()),
        sort_by(tasks, by_task_key()).to_multiset() == tasks.to_multiset(),
{
    assert(is_order(by_task_key())) by {
        assert forall|a: TaskView, b: TaskView| #[trigger] (by_task_key())(a, b) implies !(by_task_key())(b, a) by {
            lemma_text_lt_order(a.sort_key, b.sort_key, a.sort_key);
        }
        assert forall|a: TaskView, b: TaskView, c: TaskView|
            #![trigger (by_task_key())(a, b), (by_task_key())(b, c)]
            !(by_task_key())(a, b) && !(by_task_key())(b, c) implies !(by_task_key())(a, c) by {
            lemma_text_not_lt_chain(a.sort_key, b.sort_key, c.sort_key);
        }
    }
    law_sort_by(tasks, by_task_key());
}


/// A task whose status is not one the checkbox already conveys (anything but
/// `NEEDS-ACTION` and `COMPLETED`, in any case) is listed with a line naming
/// that status, right after its title and due lines.
pub proof fn law_unusual_status_listed(t: TaskView)
    requires
        t.status matches Some(s) && upper_seq(s) != "NEEDS-ACTION"@ && upper_seq(s) != "COMPLETED"@,
    ensures
        contains_seq(task_text(t), "    Status: "@ + t.status->0 + "\n"@),
{
    let s = t.status->0;
    let check = if is_completed(t.status) { "[x]"@ } else { "[ ]"@ };
    let head = "• "@ + check + " "@ + title_or_placeholder(t.summary) + "  ["@ + t.list + "]\n"@ + due_text(
        t.due_raw,
        t.due_all_day,
    );
    let line = "    Status: "@ + s + "\n"@;
    let tail = notes_text(t.description) + present_text("    uid: "@, t.uid);
    assert(task_text(t) =~= head + line + tail);
    assert(task_text(t).subrange(head.len() as int, (head.len() + line.len()) as int) =~= line);
}

} // verus!
