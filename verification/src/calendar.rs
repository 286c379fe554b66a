//! Calendar events (VEVENT): reading them from iCalendar text, building new
//! ones, and rendering them for the model.

use vstd::prelude::*;

use crate::datetime::{
    date_digits, epoch_to_date, epoch_to_make_time, iso_fits, make_time_text, now_epoch,
    parse_iso, parse_iso_result, fits_i64,
};
use crate::ical::{
    blocks_view, components, components_of, date_only, display_dt, escape, escaped, format_dt,
    is_date_only, opt_view, property_parts, set_dt_property, set_text_property, sort_key,
    sort_key_of, split_property, strings_view, unescape, unescaped, unfold, unfold_text, with_dt,
    with_text, without_names, lines_named, named_if, text_line, lemma_with_text_lines,
    lemma_with_dt_lines, dt_property_result,
};
use crate::order::{insert_by, is_order, law_sort_by, lemma_insert_by_split, ordered, sort_by};
use crate::text::{
    contains_seq, chars_of, concat, join_texts, joined, lemma_text_lt_order, lemma_text_not_lt_chain, push_str,
    text_less, text_lt, texts_view,
};
use crate::tools::{notes_section, push_notes, truncate, truncated, MAX_OUTPUT_BYTES};

verus! {

/// One calendar event as listed to the model.
pub struct Event {
    pub summary: String,
    pub start_raw: Option<String>,
    pub end_raw: Option<String>,
    pub all_day: bool,
    pub location: Option<String>,
    pub uid: Option<String>,
    pub calendar: String,
    pub sort_key: String,
}

pub struct EventView {
    pub summary: Seq<char>,
    pub start_raw: Option<Seq<char>>,
    pub end_raw: Option<Seq<char>>,
    pub all_day: bool,
    pub location: Option<Seq<char>>,
    pub uid: Option<Seq<char>>,
    pub calendar: Seq<char>,
    pub sort_key: Seq<char>,
}

impl View for Event {
    type V = EventView;

    open spec fn view(&self) -> EventView {
        EventView {
            summary: self.summary@,
            start_raw: opt_view(self.start_raw),
            end_raw: opt_view(self.end_raw),
            all_day: self.all_day,
            location: opt_view(self.location),
            uid: opt_view(self.uid),
            calendar: self.calendar@,
            sort_key: self.sort_key@,
        }
    }
}

/// The fields read from the first `n` lines of a VEVENT.
pub open spec fn vevent_scan(lines: Seq<Seq<char>>) -> EventView
    decreases lines.len(),
{
    if lines.len() == 0 {
        EventView {
            summary: Seq::empty(),
            start_raw: None,
            end_raw: None,
            all_day: false,
            location: None,
            uid: None,
            calendar: Seq::empty(),
            sort_key: seq!['0'],
        }
    } else {
        let ev = vevent_scan(lines.drop_last());
        match property_parts(lines.last()) {
            None => ev,
            Some((name, params, value)) => {
                if name == "SUMMARY"@ {
                    EventView { summary: unescaped(value), ..ev }
                } else if name == "DTSTART"@ {
                    EventView { all_day: date_only(params, value), start_raw: Some(value), ..ev }
                } else if name == "DTEND"@ {
                    EventView { end_raw: Some(value), ..ev }
                } else if name == "LOCATION"@ {
                    EventView { location: Some(unescaped(value)), ..ev }
                } else if name == "UID"@ {
                    EventView { uid: Some(value), ..ev }
                } else {
                    ev
                }
            },
        }
    }
}

/// The event one VEVENT's inner lines describe (no calendar yet).
pub open spec fn vevent_of(lines: Seq<Seq<char>>) -> EventView {
    let ev = vevent_scan(lines);
    EventView { sort_key: sort_key_of(ev.start_raw), ..ev }
}

fn same_name(name: &String, lit: &str) -> (r: bool)
    ensures
        r == (name@ == lit@),
{
    let a = chars_of(name.as_str());
    let b = chars_of(lit);
    crate::text::chars_eq(a.as_slice(), b.as_slice())
}

/// Parse one VEVENT's inner lines into an [`Event`] (calendar set by caller).
pub fn parse_vevent(lines: &[String]) -> (ev: Event)
    ensures
        ev@ == vevent_of(strings_view(lines@)),
{
    let ghost lv = strings_view(lines@);
    let mut ev = Event {
        summary: String::new(),
        start_raw: None,
        end_raw: None,
        all_day: false,
        location: None,
        uid: None,
        calendar: String::new(),
        sort_key: String::new(),
    };
    let mut zero = String::new();
    crate::text::push_char(&mut zero, '0');
    ev.sort_key = zero;
    let mut i: usize = 0;
    while i < lines.len()
        invariant
            i <= lines.len(),
            lv == strings_view(lines@),
            ev@ == vevent_scan(lv.take(i as int)),
        decreases lines.len() - i,
    {
        assert(lv.take(i + 1).drop_last() == lv.take(i as int));
        assert(lv.take(i + 1).last() == lines@[i as int]@);
        match split_property(lines[i].as_str()) {
            None => {},
            Some((name, params, value)) => {
                if same_name(&name, "SUMMARY") {
                    ev.summary = unescape(value.as_str());
                } else if same_name(&name, "DTSTART") {
                    ev.all_day = is_date_only(params.as_str(), value.as_str());
                    ev.start_raw = Some(value);
                } else if same_name(&name, "DTEND") {
                    ev.end_raw = Some(value);
                } else if same_name(&name, "LOCATION") {
                    ev.location = Some(unescape(value.as_str()));
                } else if same_name(&name, "UID") {
                    ev.uid = Some(value);
                }
            },
        }
        i = i + 1;
    }
    assert(lv.take(lines.len() as int) == lv);
    ev.sort_key = sort_key(&ev.start_raw);
    ev
}

/// Every VEVENT of a reply element (a bare VEVENT or a VCALENDAR holding
/// one or more).
pub open spec fn events_of(blob: Seq<char>) -> Seq<EventView> {
    components_of(blob, "VEVENT"@).map_values(|b: Seq<Seq<char>>| vevent_of(b))
}

pub open spec fn events_view(v: Seq<Event>) -> Seq<EventView> {
    v.map_values(|e: Event| e@)
}

pub fn parse_events(blob: &str) -> (r: Vec<Event>)
    ensures
        events_view(r@) == events_of(blob@),
{
    let blocks = components(blob, "VEVENT");
    let ghost bv = blocks_view(blocks@);
    let mut r: Vec<Event> = Vec::new();
    let mut i: usize = 0;
    while i < blocks.len()
        invariant
            i <= blocks.len(),
            bv == blocks_view(blocks@),
            bv == components_of(blob@, "VEVENT"@),
            events_view(r@) == bv.take(i as int).map_values(|b: Seq<Seq<char>>| vevent_of(b)),
        decreases blocks.len() - i,
    {
        let ev = parse_vevent(blocks[i].as_slice());
        assert(bv[i as int] == strings_view(blocks@[i as int]@));
        assert(ev@ == vevent_of(bv[i as int]));
        let ghost before = r@;
        r.push(ev);
        assert(events_view(r@) == events_view(before).push(ev@));
        assert(events_view(r@) =~= bv.take(i + 1).map_values(|b: Seq<Seq<char>>| vevent_of(b)));
        i = i + 1;
    }
    assert(bv.take(blocks.len() as int) == bv);
    r
}

// ---------------------------------------------------------------------------
// Building a VEVENT
// ---------------------------------------------------------------------------

pub open spec fn crlf() -> Seq<char> {
    "\r\n"@
}

/// `tag` + escaped value + CRLF when a non-empty value is given.
pub open spec fn optional_line(tag: Seq<char>, value: Option<Seq<char>>) -> Seq<char> {
    match value {
        Some(v) => if v.len() > 0 { tag + escaped(v) + crlf() } else { Seq::empty() },
        None => Seq::empty(),
    }
}

pub open spec fn opt_str(o: Option<&str>) -> Option<Seq<char>> {
    match o {
        Some(s) => Some(s@),
        None => None,
    }
}

/// The instant of an ISO input, or its error.
pub open spec fn iso_instant(iso: Seq<char>) -> Result<int, Seq<char>> {
    match parse_iso_result(iso) {
        Ok((secs, _)) => Ok(secs),
        Err(e) => Err(e),
    }
}

/// The end instant: the given one, else a day (all-day) or an hour after
/// the start.
pub open spec fn event_end(start_secs: int, all_day: bool, end: Option<Seq<char>>) -> Result<int, Seq<char>> {
    match end {
        Some(e) => iso_instant(e),
        None => Ok(if all_day { start_secs + 86400 } else { start_secs + 3600 }),
    }
}

/// The bare VEVENT created for the given fields, stamped at `stamp`.
pub open spec fn vevent_text(
    stamp: int,
    uid: Seq<char>,
    start: Seq<char>,
    all_day: bool,
    end: Option<Seq<char>>,
    summary: Seq<char>,
    location: Option<Seq<char>>,
    description: Option<Seq<char>>,
) -> Result<Seq<char>, Seq<char>> {
    match iso_instant(start) {
        Err(e) => Err(e),
        Ok(s) => match event_end(s, all_day, end) {
            Err(e) => Err(e),
            Ok(es) => {
                let times = vevent_times(all_day, s, es);
                Ok("BEGIN:VEVENT\r\n"@ + "UID:"@ + uid + crlf() + "DTSTAMP:"@ + make_time_text(stamp)
                    + crlf() + times + "SUMMARY:"@ + escaped(summary) + crlf()
                    + optional_line("LOCATION:"@, location) + optional_line("DESCRIPTION:"@, description)
                    + "END:VEVENT\r\n"@)
            },
        },
    }
}

/// The `DTSTART` and `DTEND` lines of an event from instant `s` to instant
/// `e`: dates for an all-day event, UTC times otherwise.
pub open spec fn start_end_lines(all_day: bool, s: int, e: int) -> Seq<char> {
    if all_day {
        "DTSTART;VALUE=DATE:"@ + date_digits(s) + "\r\n"@ + "DTEND;VALUE=DATE:"@ + date_digits(e) + "\r\n"@
    } else {
        "DTSTART:"@ + make_time_text(s) + "\r\n"@ + "DTEND:"@ + make_time_text(e) + "\r\n"@
    }
}

/// A created event starts at the given start and, when an end is given,
/// ends at that end: its text holds the `DTSTART` line of the start instant
/// followed by the `DTEND` line of the end instant.
pub proof fn law_created_event_times(
    stamp: int,
    uid: Seq<char>,
    start: Seq<char>,
    all_day: bool,
    end: Seq<char>,
    summary: Seq<char>,
    location: Option<Seq<char>>,
    description: Option<Seq<char>>,
    text: Seq<char>,
)
    requires
        vevent_text(stamp, uid, start, all_day, Some(end), summary, location, description) == Ok::<
            Seq<char>,
            Seq<char>,
        >(text),
    ensures
        parse_iso_result(start) matches Ok((s, _)) && parse_iso_result(end) matches Ok((e, _)) && contains_seq(
            text,
            start_end_lines(all_day, s, e),
        ),
{
    let s = iso_instant(start)->Ok_0;
    let e = iso_instant(end)->Ok_0;
    let times = vevent_times(all_day, s, e);
    assert(times == start_end_lines(all_day, s, e));
    let head = "BEGIN:VEVENT\r\n"@ + "UID:"@ + uid + crlf() + "DTSTAMP:"@ + make_time_text(stamp) + crlf();
    let tail = "SUMMARY:"@ + escaped(summary) + crlf() + optional_line("LOCATION:"@, location) + optional_line(
        "DESCRIPTION:"@,
        description,
    ) + "END:VEVENT\r\n"@;
    assert(text =~= head + times + tail);
    assert(text.subrange(head.len() as int, (head.len() + times.len()) as int) =~= times);
}

/// No step of computing the event's instants leaves `i64`.
pub open spec fn vevent_fits(start: Seq<char>, all_day: bool, end: Option<Seq<char>>) -> bool {
    &&& iso_fits(start)
    &&& (match end { Some(e) => iso_fits(e), None => true })
    &&& (match (iso_instant(start), end) {
        (Ok(s), None) => fits_i64(if all_day { s + 86400 } else { s + 3600 }),
        _ => true,
    })
}

pub open spec fn text_view(r: Result<String, String>) -> Result<Seq<char>, Seq<char>> {
    match r {
        Ok(s) => Ok(s@),
        Err(e) => Err(e@),
    }
}

fn push_optional_line(out: &mut String, tag: &str, value: Option<&str>)
    ensures
        final(out)@ == old(out)@ + optional_line(tag@, opt_str(value)),
{
    match value {
        Some(v) => {
            if !v.is_empty() {
                push_str(out, tag);
                let e = escape(v);
                push_str(out, e.as_str());
                push_str(out, "\r\n");
            }
        },
        None => {},
    }
}

pub open spec fn vevent_times(all_day: bool, s: int, es: int) -> Seq<char> {
    if all_day {
        "DTSTART;VALUE=DATE:"@ + date_digits(s) + crlf() + "DTEND;VALUE=DATE:"@ + date_digits(es) + crlf()
    } else {
        "DTSTART:"@ + make_time_text(s) + crlf() + "DTEND:"@ + make_time_text(es) + crlf()
    }
}

fn push_line(out: &mut String, tag: &str, value: &str)
    ensures
        final(out)@ == old(out)@ + tag@ + value@ + crlf(),
{
    push_str(out, tag);
    push_str(out, value);
    push_str(out, "\r\n");
}

fn push_vevent_times(out: &mut String, all_day: bool, s: i64, es: i64)
    ensures
        final(out)@ == old(out)@ + vevent_times(all_day, s as int, es as int),
{
    if all_day {
        let a = epoch_to_date(s);
        push_line(out, "DTSTART;VALUE=DATE:", a.as_str());
        let b = epoch_to_date(es);
        push_line(out, "DTEND;VALUE=DATE:", b.as_str());
    } else {
        let a = epoch_to_make_time(s);
        push_line(out, "DTSTART:", a.as_str());
        let b = epoch_to_make_time(es);
        push_line(out, "DTEND:", b.as_str());
    }
    assert(out@ =~= old(out)@ + vevent_times(all_day, s as int, es as int));
}

/// Build a bare VEVENT for creation, stamped with the given time.
pub fn build_vevent_at(
    stamp: i64,
    uid: &str,
    start: &str,
    all_day: bool,
    end: Option<&str>,
    summary: &str,
    location: Option<&str>,
    description: Option<&str>,
) -> (r: Result<String, String>)
    requires
        vevent_fits(start@, all_day, opt_str(end)),
    ensures
        text_view(r) == vevent_text(stamp as int, uid@, start@, all_day, opt_str(end), summary@,
            opt_str(location), opt_str(description)),
{
    let (start_secs, _) = match parse_iso(start) {
        Ok(p) => p,
        Err(e) => {
            return Err(e);
        },
    };
    let end_secs = match end {
        Some(e) => match parse_iso(e) {
            Ok((x, _)) => x,
            Err(m) => {
                return Err(m);
            },
        },
        None => if all_day { start_secs + 86_400 } else { start_secs + 3600 },
    };
    let mut v = String::new();
    push_str(&mut v, "BEGIN:VEVENT\r\n");
    push_line(&mut v, "UID:", uid);
    let st = epoch_to_make_time(stamp);
    push_line(&mut v, "DTSTAMP:", st.as_str());
    push_vevent_times(&mut v, all_day, start_secs, end_secs);
    let es = escape(summary);
    push_line(&mut v, "SUMMARY:", es.as_str());
    push_optional_line(&mut v, "LOCATION:", location);
    push_optional_line(&mut v, "DESCRIPTION:", description);
    push_str(&mut v, "END:VEVENT\r\n");
    proof {
        assert(iso_instant(start@) == Ok::<int, Seq<char>>(start_secs as int));
        assert(event_end(start_secs as int, all_day, opt_str(end)) == Ok::<int, Seq<char>>(end_secs as int));
        let expected = vevent_text(stamp as int, uid@, start@, all_day, opt_str(end), summary@,
            opt_str(location), opt_str(description));
        assert(expected is Ok);
        assert(v@ =~= expected->Ok_0);
    }
    Ok(v)
}

/// Build a bare VEVENT for creation, stamped with the current time.
pub fn build_vevent(
    uid: &str,
    start: &str,
    all_day: bool,
    end: Option<&str>,
    summary: &str,
    location: Option<&str>,
    description: Option<&str>,
) -> (r: Result<String, String>)
    requires
        vevent_fits(start@, all_day, opt_str(end)),
    ensures
        exists|stamp: i64| text_view(r) == vevent_text(stamp as int, uid@, start@, all_day, opt_str(end),
            summary@, opt_str(location), opt_str(description)),
{
    let now = now_epoch();
    build_vevent_at(now, uid, start, all_day, end, summary, location, description)
}

// ---------------------------------------------------------------------------
// Rendering
// ---------------------------------------------------------------------------

/// The `    start – end` line of an event.
pub open spec fn when_text(start: Option<Seq<char>>, end: Option<Seq<char>>, all_day: bool) -> Seq<char> {
    match (start, end) {
        (Some(s), Some(e)) => "    "@ + display_dt(s, all_day) + " – "@ + display_dt(e, all_day) + "\n"@,
        (Some(s), None) => "    "@ + display_dt(s, all_day) + "\n"@,
        _ => Seq::empty(),
    }
}

/// `label` + value + newline for a present, non-empty value.
pub open spec fn detail_text(label: Seq<char>, value: Option<Seq<char>>) -> Seq<char> {
    match value {
        Some(v) => if v.len() > 0 { label + v + "\n"@ } else { Seq::empty() },
        None => Seq::empty(),
    }
}

/// `label` + value + newline for a present value.
pub open spec fn present_text(label: Seq<char>, value: Option<Seq<char>>) -> Seq<char> {
    match value {
        Some(v) => label + v + "\n"@,
        None => Seq::empty(),
    }
}

pub open spec fn title_or_placeholder(summary: Seq<char>) -> Seq<char> {
    if summary.len() == 0 { "(no title)"@ } else { summary }
}

/// How an event is listed to the model.
pub open spec fn event_text(ev: EventView) -> Seq<char> {
    "• "@ + title_or_placeholder(ev.summary) + "  ["@ + ev.calendar + "]\n"@
        + when_text(ev.start_raw, ev.end_raw, ev.all_day)
        + detail_text("    Location: "@, ev.location)
        + present_text("    uid: "@, ev.uid)
}

pub(crate) fn push_title(out: &mut String, summary: &String)
    ensures
        final(out)@ == old(out)@ + title_or_placeholder(summary@),
{
    if summary.as_str().is_empty() {
        push_str(out, "(no title)");
    } else {
        push_str(out, summary.as_str());
    }
}

pub(crate) fn push_detail(out: &mut String, label: &str, value: &Option<String>)
    ensures
        final(out)@ == old(out)@ + detail_text(label@, opt_view(*value)),
{
    match value {
        Some(v) => {
            if !v.as_str().is_empty() {
                push_str(out, label);
                push_str(out, v.as_str());
                push_str(out, "\n");
            }
        },
        None => {},
    }
}

pub(crate) fn push_present(out: &mut String, label: &str, value: &Option<String>)
    ensures
        final(out)@ == old(out)@ + present_text(label@, opt_view(*value)),
{
    match value {
        Some(v) => {
            push_str(out, label);
            push_str(out, v.as_str());
            push_str(out, "\n");
        },
        None => {},
    }
}

fn push_when(out: &mut String, start: &Option<String>, end: &Option<String>, all_day: bool)
    ensures
        final(out)@ == old(out)@ + when_text(opt_view(*start), opt_view(*end), all_day),
{
    match start {
        Some(st) => {
            push_str(out, "    ");
            let a = format_dt(st.as_str(), all_day);
            push_str(out, a.as_str());
            match end {
                Some(e) => {
                    push_str(out, " – ");
                    let b = format_dt(e.as_str(), all_day);
                    push_str(out, b.as_str());
                },
                None => {},
            }
            push_str(out, "\n");
            assert(out@ =~= old(out)@ + when_text(opt_view(*start), opt_view(*end), all_day));
        },
        None => {},
    }
}

pub fn render_event(ev: &Event) -> (r: String)
    ensures
        r@ == event_text(ev@),
{
    let mut s = String::new();
    push_str(&mut s, "• ");
    push_title(&mut s, &ev.summary);
    push_str(&mut s, "  [");
    push_str(&mut s, ev.calendar.as_str());
    push_str(&mut s, "]\n");
    push_when(&mut s, &ev.start_raw, &ev.end_raw, ev.all_day);
    push_detail(&mut s, "    Location: ", &ev.location);
    push_present(&mut s, "    uid: ", &ev.uid);
    assert(s@ =~= event_text(ev@));
    s
}

// ---------------------------------------------------------------------------
// Listing events
// ---------------------------------------------------------------------------

/// Events are listed in order of their sort keys, ties keeping their order.
pub open spec fn by_sort_key() -> spec_fn(EventView, EventView) -> bool {
    |a: EventView, b: EventView| text_lt(a.sort_key, b.sort_key)
}

fn insert_event(v: &mut Vec<Event>, x: Event)
    ensures
        events_view(final(v)@) == insert_by(events_view(old(v)@), x@, by_sort_key()),
{
    let ghost s = events_view(v@);
    let mut i = v.len();
    while i > 0 && text_less(x.sort_key.as_str(), v[i - 1].sort_key.as_str())
        invariant
            i <= v.len(),
            s == events_view(v@),
            forall|j: int| i <= j < s.len() ==> #[trigger] (by_sort_key())(x@, s[j]),
        decreases i,
    {
        assert((by_sort_key())(x@, s[i - 1]));
        i = i - 1;
    }
    proof {
        lemma_insert_by_split(s, x@, by_sort_key(), i as int);
    }
    v.insert(i, x);
    assert(events_view(v@) =~= s.take(i as int).push(x@) + s.skip(i as int));
}

/// `events` stably sorted by sort key.
pub fn sort_events(events: Vec<Event>) -> (r: Vec<Event>)
    ensures
        events_view(r@) == sort_by(events_view(events@), by_sort_key()),
{
    let mut rest = events;
    let ghost orig = events_view(rest@);
    let mut out: Vec<Event> = Vec::new();
    let ghost mut k: int = 0;
    while rest.len() > 0
        invariant
            0 <= k <= orig.len(),
            events_view(rest@) == orig.skip(k),
            events_view(out@) == sort_by(orig.take(k), by_sort_key()),
        decreases rest.len(),
    {
        assert(events_view(rest@).len() == rest@.len());
        let ghost before_rest = rest@;
        let x = rest.remove(0);
        proof {
            assert forall|j: int| 0 <= j < rest@.len() implies rest@[j]@ == orig[k + 1 + j] by {
                assert(rest@[j] == before_rest[j + 1]);
                assert(events_view(before_rest)[j + 1] == orig.skip(k)[j + 1]);
            }
            assert(events_view(rest@) =~= orig.skip(k + 1));
            assert(x@ == orig.skip(k)[0]);
            assert(orig.take(k + 1).drop_last() =~= orig.take(k));
            assert(orig.take(k + 1).last() == orig[k]);
        }
        insert_event(&mut out, x);
        proof {
            k = k + 1;
        }
    }
    assert(orig.take(k) =~= orig);
    out
}

/// The listing of events found in a range: each event in sort-key order, or
/// a line saying there are none; then the calendars that could not be read;
/// bounded in size.
pub open spec fn events_listing(events: Seq<EventView>, notes: Seq<Seq<char>>, start: int, end: int) -> Seq<char> {
    let sorted = sort_by(events, by_sort_key());
    let body = if sorted.len() == 0 {
        "No events found between "@ + display_dt(make_time_text(start), false) + " and "@ + display_dt(
            make_time_text(end),
            false,
        ) + "."@
    } else {
        concat(sorted.map_values(|e: EventView| event_text(e)))
    };
    truncated(
        body + notes_section("\nNotes (calendars that could not be read):\n"@, notes),
        MAX_OUTPUT_BYTES as int,
    )
}

/// Render the events found between `start_secs` and `end_secs` (already
/// labelled with their calendar), with notes on the calendars that could not
/// be read.
pub fn events_report(events: Vec<Event>, notes: &Vec<String>, start_secs: i64, end_secs: i64) -> (r: String)
    ensures
        r@ == events_listing(events_view(events@), texts_view(notes@), start_secs as int, end_secs as int),
{
    let sorted = sort_events(events);
    let ghost sv = events_view(sorted@);
    let mut out = String::new();
    if sorted.len() == 0 {
        push_str(&mut out, "No events found between ");
        let a = format_dt(epoch_to_make_time(start_secs).as_str(), false);
        push_str(&mut out, a.as_str());
        push_str(&mut out, " and ");
        let b = format_dt(epoch_to_make_time(end_secs).as_str(), false);
        push_str(&mut out, b.as_str());
        push_str(&mut out, ".");
    } else {
        let mut i: usize = 0;
        while i < sorted.len()
            invariant
                i <= sorted.len(),
                sv == events_view(sorted@),
                out@ == concat(sv.take(i as int).map_values(|e: EventView| event_text(e))),
            decreases sorted.len() - i,
        {
            let piece = render_event(&sorted[i]);
            push_str(&mut out, piece.as_str());
            assert(sv.take(i + 1).map_values(|e: EventView| event_text(e)).drop_last() =~= sv.take(
                i as int,
            ).map_values(|e: EventView| event_text(e)));
            i = i + 1;
        }
        assert(sv.take(sorted.len() as int) =~= sv);
    }
    push_notes(&mut out, "\nNotes (calendars that could not be read):\n", notes);
    truncate(&mut out, MAX_OUTPUT_BYTES);
    out
}

/// The EDS query for events occurring between two instants.
pub open spec fn occurrence_query_text(start: int, end: int) -> Seq<char> {
    "(occur-in-time-range? (make-time \""@ + make_time_text(start) + "\") (make-time \""@ + make_time_text(end)
        + "\"))"@
}

pub fn occurrence_query(start_secs: i64, end_secs: i64) -> (r: String)
    ensures
        r@ == occurrence_query_text(start_secs as int, end_secs as int),
{
    let mut q = String::new();
    push_str(&mut q, "(occur-in-time-range? (make-time \"");
    push_str(&mut q, epoch_to_make_time(start_secs).as_str());
    push_str(&mut q, "\") (make-time \"");
    push_str(&mut q, epoch_to_make_time(end_secs).as_str());
    push_str(&mut q, "\"))");
    assert(q@ =~= occurrence_query_text(start_secs as int, end_secs as int));
    q
}

/// The range a listing covers: from `start` (default now) to `end` (default
/// seven days after the start).
pub open spec fn event_window_of(start: Option<Seq<char>>, end: Option<Seq<char>>, now: int) -> Result<(int, int), Seq<char>> {
    let s = match start {
        Some(t) => iso_instant(t),
        None => Ok(now),
    };
    match s {
        Err(e) => Err(e),
        Ok(s) => match end {
            Some(t) => match iso_instant(t) {
                Ok(e) => Ok((s, e)),
                Err(m) => Err(m),
            },
            None => Ok((s, s + 7 * 86400)),
        },
    }
}

pub open spec fn event_window_fits(start: Option<Seq<char>>, end: Option<Seq<char>>, now: int) -> bool {
    &&& (match start { Some(t) => iso_fits(t), None => true })
    &&& (match end {
        Some(t) => iso_fits(t),
        None => match start {
            Some(t) => match iso_instant(t) {
                Ok(s) => fits_i64(s + 7 * 86400),
                Err(_) => true,
            },
            None => fits_i64(now + 7 * 86400),
        },
    })
}

pub open spec fn pair_view(r: Result<(i64, i64), String>) -> Result<(int, int), Seq<char>> {
    match r {
        Ok((a, b)) => Ok((a as int, b as int)),
        Err(e) => Err(e@),
    }
}

/// The instants a listing covers, from the optional ISO arguments.
pub fn event_window(start: Option<&str>, end: Option<&str>, now: i64) -> (r: Result<(i64, i64), String>)
    requires
        event_window_fits(opt_str(start), opt_str(end), now as int),
    ensures
        pair_view(r) == event_window_of(opt_str(start), opt_str(end), now as int),
{
    let s = match start {
        Some(t) => match parse_iso(t) {
            Ok((secs, _)) => secs,
            Err(e) => {
                return Err(e);
            },
        },
        None => now,
    };
    match end {
        Some(t) => match parse_iso(t) {
            Ok((secs, _)) => Ok((s, secs)),
            Err(e) => Err(e),
        },
        None => Ok((s, s + 7 * 86400)),
    }
}

// ---------------------------------------------------------------------------
// Changing events
// ---------------------------------------------------------------------------

/// The refusal of a change request that changes nothing.
pub open spec fn nothing_to_modify() -> Seq<char> {
    "nothing to modify: provide at least one field to change"@
}

/// A modify request must change at least one field.
pub fn check_event_changes(
    summary: Option<&str>,
    start: Option<&str>,
    end: Option<&str>,
    location: Option<&str>,
    description: Option<&str>,
) -> (r: Result<(), String>)
    ensures
        r is Ok <==> (summary is Some || start is Some || end is Some || location is Some || description is Some),
        r matches Err(m) ==> m@ == nothing_to_modify(),
{
    if summary.is_none() && start.is_none() && end.is_none() && location.is_none() && description.is_none() {
        let mut m = String::new();
        push_str(&mut m, "nothing to modify: provide at least one field to change");
        return Err(m);
    }
    Ok(())
}

/// The text of an event after a modify request: each given field set
/// (summary, start, end, location, description, in that order) on the
/// unfolded lines, rejoined with CRLF.
pub open spec fn event_edit_of(
    existing: Seq<char>,
    summary: Option<Seq<char>>,
    start: Option<Seq<char>>,
    end: Option<Seq<char>>,
    location: Option<Seq<char>>,
    description: Option<Seq<char>>,
) -> Result<Seq<char>, Seq<char>> {
    match event_edit_lines(existing, summary, start, end, location, description) {
        Ok(l) => Ok(joined(l, crlf())),
        Err(e) => Err(e),
    }
}

/// The unfolded lines of an event after a modify request.
pub open spec fn event_edit_lines(
    existing: Seq<char>,
    summary: Option<Seq<char>>,
    start: Option<Seq<char>>,
    end: Option<Seq<char>>,
    location: Option<Seq<char>>,
    description: Option<Seq<char>>,
) -> Result<Seq<Seq<char>>, Seq<char>> {
    let l1 = with_text(unfold_text(existing), "SUMMARY"@, summary);
    match with_dt(l1, "DTSTART"@, start) {
        Err(e) => Err(e),
        Ok(l2) => match with_dt(l2, "DTEND"@, end) {
            Err(e) => Err(e),
            Ok(l3) => Ok(with_text(with_text(l3, "LOCATION"@, location), "DESCRIPTION"@, description)),
        },
    }
}

/// The properties a modify request names.
pub open spec fn event_edit_names(
    summary: Option<Seq<char>>,
    start: Option<Seq<char>>,
    end: Option<Seq<char>>,
    location: Option<Seq<char>>,
    description: Option<Seq<char>>,
) -> Set<Seq<char>> {
    named_if("SUMMARY"@, summary).union(named_if("DTSTART"@, start)).union(named_if("DTEND"@, end)).union(
        named_if("LOCATION"@, location),
    ).union(named_if("DESCRIPTION"@, description))
}

/// A modify request changes only the fields it names: the lines of every
/// other property stay, in order, and each named field is left with exactly
/// the one line the request gives it.
pub proof fn law_edit_event_changes_only_named(
    existing: Seq<char>,
    summary: Option<Seq<char>>,
    start: Option<Seq<char>>,
    end: Option<Seq<char>>,
    location: Option<Seq<char>>,
    description: Option<Seq<char>>,
    edited: Seq<Seq<char>>,
)
    requires
        event_edit_lines(existing, summary, start, end, location, description) == Ok::<Seq<Seq<char>>, Seq<char>>(
            edited,
        ),
    ensures
        without_names(edited, event_edit_names(summary, start, end, location, description)) == without_names(
            unfold_text(existing),
            event_edit_names(summary, start, end, location, description),
        ),
        summary matches Some(v) ==> lines_named(edited, "SUMMARY"@) == seq![text_line("SUMMARY"@, v)],
        start matches Some(t) ==> (dt_property_result("DTSTART"@, t) matches Ok(p) && lines_named(edited, "DTSTART"@)
            == seq![p]),
        end matches Some(t) ==> (dt_property_result("DTEND"@, t) matches Ok(p) && lines_named(edited, "DTEND"@)
            == seq![p]),
        location matches Some(v) ==> lines_named(edited, "LOCATION"@) == seq![text_line("LOCATION"@, v)],
        description matches Some(v) ==> lines_named(edited, "DESCRIPTION"@) == seq![
            text_line("DESCRIPTION"@, v),
        ],
{
    reveal_strlit("SUMMARY");
    reveal_strlit("DTSTART");
    reveal_strlit("DTEND");
    reveal_strlit("LOCATION");
    reveal_strlit("DESCRIPTION");
    let names = event_edit_names(summary, start, end, location, description);
    let l0 = unfold_text(existing);
    let l1 = with_text(l0, "SUMMARY"@, summary);
    let l2 = with_dt(l1, "DTSTART"@, start)->Ok_0;
    let l3 = with_dt(l2, "DTEND"@, end)->Ok_0;
    let l4 = with_text(l3, "LOCATION"@, location);
    assert("SUMMARY"@.len() == 7 && "DTSTART"@.len() == 7 && "DTEND"@.len() == 5);
    assert("LOCATION"@.len() == 8 && "DESCRIPTION"@.len() == 11);
    assert("SUMMARY"@[0] != "DTSTART"@[0]);
    lemma_with_text_lines(l0, "SUMMARY"@, summary, names);
    lemma_with_dt_lines(l1, "DTSTART"@, start, names, l2);
    lemma_with_dt_lines(l2, "DTEND"@, end, names, l3);
    lemma_with_text_lines(l3, "LOCATION"@, location, names);
    lemma_with_text_lines(l4, "DESCRIPTION"@, description, names);
    assert(lines_named(edited, "SUMMARY"@) == lines_named(l1, "SUMMARY"@));
    assert(lines_named(edited, "DTSTART"@) == lines_named(l2, "DTSTART"@));
    assert(lines_named(edited, "DTEND"@) == lines_named(l3, "DTEND"@));
    assert(lines_named(edited, "LOCATION"@) == lines_named(l4, "LOCATION"@));
}

/// Apply a modify request to an event's current text.
pub fn edit_event(
    existing: &str,
    summary: Option<&str>,
    start: Option<&str>,
    end: Option<&str>,
    location: Option<&str>,
    description: Option<&str>,
) -> (r: Result<String, String>)
    requires
        start matches Some(t) ==> iso_fits(t@),
        end matches Some(t) ==> iso_fits(t@),
    ensures
        text_view(r) == event_edit_of(
            existing@,
            opt_str(summary),
            opt_str(start),
            opt_str(end),
            opt_str(location),
            opt_str(description),
        ),
{
    let mut lines = unfold(existing);
    set_text_property(&mut lines, "SUMMARY", summary);
    set_dt_property(&mut lines, "DTSTART", start)?;
    set_dt_property(&mut lines, "DTEND", end)?;
    set_text_property(&mut lines, "LOCATION", location);
    set_text_property(&mut lines, "DESCRIPTION", description);
    assert(strings_view(lines@) =~= texts_view(lines@));
    Ok(join_texts(&lines, "\r\n"))
}

/// `Created "{summary}" in {calendar} (uid: {uid}).`
pub fn event_created_reply(summary: &str, calendar: &str, uid: &str) -> (r: String)
    ensures
        r@ == "Created \""@ + summary@ + "\" in "@ + calendar@ + " (uid: "@ + uid@ + ")."@,
{
    let mut s = String::new();
    push_str(&mut s, "Created \"");
    push_str(&mut s, summary);
    push_str(&mut s, "\" in ");
    push_str(&mut s, calendar);
    push_str(&mut s, " (uid: ");
    push_str(&mut s, uid);
    push_str(&mut s, ").");
    s
}

/// `Modified event {uid} in {calendar}.`
pub fn event_modified_reply(uid: &str, calendar: &str) -> (r: String)
    ensures
        r@ == "Modified event "@ + uid@ + " in "@ + calendar@ + "."@,
{
    let mut s = String::new();
    push_str(&mut s, "Modified event ");
    push_str(&mut s, uid);
    push_str(&mut s, " in ");
    push_str(&mut s, calendar);
    push_str(&mut s, ".");
    s
}

/// `Deleted event {uid} from {calendar}.`
pub fn event_deleted_reply(uid: &str, calendar: &str) -> (r: String)
    ensures
        r@ == "Deleted event "@ + uid@ + " from "@ + calendar@ + "."@,
{
    let mut s = String::new();
    push_str(&mut s, "Deleted event ");
    push_str(&mut s, uid);
    push_str(&mut s, " from ");
    push_str(&mut s, calendar);
    push_str(&mut s, ".");
    s
}

/// Listed events come in sort-key order, and sorting keeps every event.
pub proof fn law_events_in_order(events: Seq<EventView>)
    ensures
        ordered(sort_by(events, by_sort_key()), by_sort_key()),
        sort_by(events, by_sort_key()).to_multiset() == events.to_multiset(),
{
    assert(is_order(by_sort_key())) by {
        assert forall|a: EventView, b: EventView| #[trigger] (by_sort_key())(a, b) implies !(by_sort_key())(b, a) by {
            lemma_text_lt_order(a.sort_key, b.sort_key, a.sort_key);
        }
        assert forall|a: EventView, b: EventView, c: EventView|
            #![trigger (by_sort_key())(a, b), (by_sort_key())(b, c)]
            !(by_sort_key())(a, b) && !(by_sort_key())(b, c) implies !(by_sort_key())(a, c) by {
            lemma_text_not_lt_chain(a.sort_key, b.sort_key, c.sort_key);
        }
    }
    law_sort_by(events, by_sort_key());
}

/// Whether a new event starting at `start` is all-day: a start without a
/// time of day makes one.
pub fn start_is_all_day(start: &str) -> (r: Result<bool, String>)
    requires
        iso_fits(start@),
    ensures
        match parse_iso_result(start@) {
            Ok((_, has_time)) => r == Ok::<bool, String>(!has_time),
            Err(e) => r matches Err(m) && m@ == e,
        },
{
    match parse_iso(start) {
        Ok((_, has_time)) => Ok(!has_time),
        Err(e) => Err(e),
    }
}

} // verus!
