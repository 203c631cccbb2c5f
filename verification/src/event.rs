//! The retention and normalization engine for one VEVENT block: decide
//! whether the event still has an occurrence on or after the cutoff, and if it
//! is kept, optionally strip exception dates and rewrite timezone-qualified
//! date-time lines to UTC.
use vstd::prelude::*;
use vstd::slice::slice_subrange;
use vstd::slice::slice_to_vec;
use crate::datetime::DateTime;
use crate::datetime::date_str;
use crate::datetime::format_date;
use crate::datetime::lex_ge;
use crate::datetime::lex_ge_bytes;
use crate::datetime::parse_datetime;
use crate::datetime::parse_datetime_spec;
use crate::datetime::push_utc;
use crate::datetime::utc_str;
use crate::recurrence::anchored_desc;
use crate::recurrence::recurrence_live;
use crate::recurrence::rrule_has_occurrence;
use crate::text::contains_bytes;
use crate::text::contains_sub;
use crate::text::join_bytes;
use crate::text::join_on;
use crate::text::split_bytes;
use crate::text::split_on;
use crate::text::starts_with_bytes;
use crate::text::starts_with_spec;
use crate::text::views_of;
use crate::tz::string_into_tz;
use crate::tz::to_utc;
use crate::tz::tz_of_name;
use crate::tz::utc_of;

verus! {

/// Conditions under which a whole run is abandoned, mirroring the error
/// taxonomy of the engine: an event without RRULE must carry a well-formed
/// DTSTART, and a kept event's timezone-qualified lines must be rewritable.
#[derive(Clone, Copy, Debug, PartialEq, Eq, Structural)]
pub enum TransformError {
    /// An event without an RRULE line has no DTSTART line.
    MissingDtstart,
    /// The first DTSTART line of an event without RRULE has no colon.
    DtstartNoColon,
    /// A timezone-qualified line is missing its colon or equals sign.
    MalformedTzLine,
    /// No supported timezone has the name the line declares.
    UnknownTimezone,
    /// The date-time value is not a well-formed `YYYYMMDDTHHMMSS`.
    MalformedDateTime,
    /// The wall clock of the timezone skips or repeats the local date-time.
    SkippedLocalTime,
}

/// "\r\n"
pub open spec fn crlf() -> Seq<u8> {
    seq![13u8, 10u8]
}

/// "\n"
pub open spec fn nl() -> Seq<u8> {
    seq![10u8]
}

/// "DTSTART"
pub open spec fn lit_dtstart() -> Seq<u8> {
    seq![68u8, 84u8, 83u8, 84u8, 65u8, 82u8, 84u8]
}

/// "RRULE"
pub open spec fn lit_rrule() -> Seq<u8> {
    seq![82u8, 82u8, 85u8, 76u8, 69u8]
}

/// "RRULE:"
pub open spec fn lit_rrule_colon() -> Seq<u8> {
    seq![82u8, 82u8, 85u8, 76u8, 69u8, 58u8]
}

/// "EXDATE"
pub open spec fn lit_exdate() -> Seq<u8> {
    seq![69u8, 88u8, 68u8, 65u8, 84u8, 69u8]
}

/// "DTSTART;TZID"
pub open spec fn lit_dtstart_tzid() -> Seq<u8> {
    seq![68u8, 84u8, 83u8, 84u8, 65u8, 82u8, 84u8, 59u8, 84u8, 90u8, 73u8, 68u8]
}

/// "DTEND;TZID"
pub open spec fn lit_dtend_tzid() -> Seq<u8> {
    seq![68u8, 84u8, 69u8, 78u8, 68u8, 59u8, 84u8, 90u8, 73u8, 68u8]
}

/// "EXDATE;TZID"
pub open spec fn lit_exdate_tzid() -> Seq<u8> {
    seq![69u8, 88u8, 68u8, 65u8, 84u8, 69u8, 59u8, 84u8, 90u8, 73u8, 68u8]
}

pub fn crlf_bytes() -> (r: Vec<u8>)
    ensures
        r@ == crlf(),
{
    let r = vec![13u8, 10u8];
    proof {
        assert(r@ =~= crlf());
    }
    r
}

pub fn nl_bytes() -> (r: Vec<u8>)
    ensures
        r@ == nl(),
{
    let r = vec![10u8];
    proof {
        assert(r@ =~= nl());
    }
    r
}

fn dtstart_bytes() -> (r: Vec<u8>)
    ensures
        r@ == lit_dtstart(),
{
    let r = vec![68u8, 84u8, 83u8, 84u8, 65u8, 82u8, 84u8];
    proof {
        assert(r@ =~= lit_dtstart());
    }
    r
}

fn rrule_bytes() -> (r: Vec<u8>)
    ensures
        r@ == lit_rrule(),
{
    let r = vec![82u8, 82u8, 85u8, 76u8, 69u8];
    proof {
        assert(r@ =~= lit_rrule());
    }
    r
}

fn rrule_colon_bytes() -> (r: Vec<u8>)
    ensures
        r@ == lit_rrule_colon(),
{
    let r = vec![82u8, 82u8, 85u8, 76u8, 69u8, 58u8];
    proof {
        assert(r@ =~= lit_rrule_colon());
    }
    r
}

fn exdate_bytes() -> (r: Vec<u8>)
    ensures
        r@ == lit_exdate(),
{
    let r = vec![69u8, 88u8, 68u8, 65u8, 84u8, 69u8];
    proof {
        assert(r@ =~= lit_exdate());
    }
    r
}

fn dtstart_tzid_bytes() -> (r: Vec<u8>)
    ensures
        r@ == lit_dtstart_tzid(),
{
    let r = vec![68u8, 84u8, 83u8, 84u8, 65u8, 82u8, 84u8, 59u8, 84u8, 90u8, 73u8, 68u8];
    proof {
        assert(r@ =~= lit_dtstart_tzid());
    }
    r
}

fn dtend_tzid_bytes() -> (r: Vec<u8>)
    ensures
        r@ == lit_dtend_tzid(),
{
    let r = vec![68u8, 84u8, 69u8, 78u8, 68u8, 59u8, 84u8, 90u8, 73u8, 68u8];
    proof {
        assert(r@ =~= lit_dtend_tzid());
    }
    r
}

fn exdate_tzid_bytes() -> (r: Vec<u8>)
    ensures
        r@ == lit_exdate_tzid(),
{
    let r = vec![69u8, 88u8, 68u8, 65u8, 84u8, 69u8, 59u8, 84u8, 90u8, 73u8, 68u8];
    proof {
        assert(r@ =~= lit_exdate_tzid());
    }
    r
}

/// What comes strictly before and strictly after the first occurrence of byte
/// `b` in `s`, as `str::split_once` yields it.
pub open spec fn split_once_sp(s: Seq<u8>, b: u8) -> Option<(Seq<u8>, Seq<u8>)>
    decreases s.len(),
{
    if s.len() == 0 {
        None
    } else if s[0] == b {
        Some((Seq::empty(), s.drop_first()))
    } else {
        match split_once_sp(s.drop_first(), b) {
            None => None,
            Some((pre, post)) => Some((seq![s[0]] + pre, post)),
        }
    }
}

pub proof fn lemma_split_once_found(s: Seq<u8>, b: u8, k: int)
    requires
        0 <= k < s.len(),
        s[k] == b,
        forall|j: int| 0 <= j < k ==> s[j] != b,
    ensures
        split_once_sp(s, b) == Some((s.take(k), s.skip(k + 1))),
    decreases k,
{
    if k == 0 {
        assert(s.take(0) =~= Seq::<u8>::empty());
        assert(s.skip(1) =~= s.drop_first());
    } else {
        lemma_split_once_found(s.drop_first(), b, k - 1);
        assert(s.drop_first()[k - 1] == s[k]);
        assert(seq![s[0]] + s.drop_first().take(k - 1) =~= s.take(k));
        assert(s.drop_first().skip(k) =~= s.skip(k + 1));
    }
}

proof fn lemma_split_once_none(s: Seq<u8>, b: u8)
    requires
        forall|j: int| 0 <= j < s.len() ==> s[j] != b,
    ensures
        split_once_sp(s, b) == None::<(Seq<u8>, Seq<u8>)>,
    decreases s.len(),
{
    if s.len() > 0 {
        lemma_split_once_none(s.drop_first(), b);
    }
}

/// Splits at the first occurrence of `b`, dropping that byte.
pub fn split_once_byte(s: &[u8], b: u8) -> (r: Option<(Vec<u8>, Vec<u8>)>)
    ensures
        match (r, split_once_sp(s@, b)) {
            (Some((x, y)), Some((xs, ys))) => x@ == xs && y@ == ys,
            (None, None) => true,
            _ => false,
        },
{
    let mut k: usize = 0;
    while k < s.len()
        invariant
            k <= s.len(),
            forall|j: int| 0 <= j < k ==> s@[j] != b,
        decreases s.len() - k,
    {
        if s[k] == b {
            let pre = slice_to_vec(slice_subrange(s, 0, k));
            let post = slice_to_vec(slice_subrange(s, k + 1, s.len()));
            proof {
                lemma_split_once_found(s@, b, k as int);
                assert(s@.subrange(0, k as int) =~= s@.take(k as int));
                assert(s@.subrange(k + 1, s@.len() as int) =~= s@.skip(k + 1));
            }
            return Some((pre, post));
        }
        k = k + 1;
    }
    proof {
        lemma_split_once_none(s@, b);
    }
    None
}

pub open spec fn is_space(b: u8) -> bool {
    b == 9 || b == 10 || b == 11 || b == 12 || b == 13 || b == 32
}

/// `s` without its trailing ASCII whitespace.
pub open spec fn trim_end_sp(s: Seq<u8>) -> Seq<u8>
    decreases s.len(),
{
    if s.len() == 0 {
        s
    } else if is_space(s.last()) {
        trim_end_sp(s.drop_last())
    } else {
        s
    }
}

fn is_space_byte(c: u8) -> (r: bool)
    ensures
        r == is_space(c),
{
    c == 9 || c == 10 || c == 11 || c == 12 || c == 13 || c == 32
}

pub fn trim_end_bytes(s: &[u8]) -> (r: Vec<u8>)
    ensures
        r@ == trim_end_sp(s@),
{
    let mut j: usize = s.len();
    proof {
        assert(s@.take(s@.len() as int) =~= s@);
    }
    while j > 0 && is_space_byte(s[j - 1])
        invariant
            j <= s.len(),
            trim_end_sp(s@) == trim_end_sp(s@.take(j as int)),
        decreases j,
    {
        proof {
            assert(s@.take(j as int).last() == s@[j - 1]);
            assert(s@.take(j as int).drop_last() =~= s@.take(j - 1));
        }
        j = j - 1;
    }
    let r = slice_to_vec(slice_subrange(s, 0, j));
    proof {
        assert(s@.subrange(0, j as int) =~= s@.take(j as int));
        if j > 0 {
            assert(!is_space(s@.take(j as int).last()));
        }
    }
    r
}

pub open spec fn is_dtstart_line(l: Seq<u8>) -> bool {
    starts_with_spec(l, lit_dtstart())
}

/// A line the recurrence evaluator is fed: DTSTART, RRULE or EXDATE.
pub open spec fn is_desc_line(l: Seq<u8>) -> bool {
    starts_with_spec(l, lit_dtstart()) || starts_with_spec(l, lit_rrule()) || starts_with_spec(
        l,
        lit_exdate(),
    )
}

pub open spec fn is_exdate_line(l: Seq<u8>) -> bool {
    starts_with_spec(l, lit_exdate())
}

/// A line rewritten to UTC: DTSTART, DTEND or EXDATE qualified with a TZID.
pub open spec fn needs_rewrite(l: Seq<u8>) -> bool {
    starts_with_spec(l, lit_dtstart_tzid()) || starts_with_spec(l, lit_dtend_tzid())
        || starts_with_spec(l, lit_exdate_tzid())
}

/// The first DTSTART line among `ls`, if any.
pub open spec fn first_dtstart(ls: Seq<Seq<u8>>) -> Option<Seq<u8>>
    decreases ls.len(),
{
    if ls.len() == 0 {
        None
    } else if is_dtstart_line(ls[0]) {
        Some(ls[0])
    } else {
        first_dtstart(ls.drop_first())
    }
}

/// The DTSTART, RRULE and EXDATE lines among `ls`, in order.
pub open spec fn desc_lines_sp(ls: Seq<Seq<u8>>) -> Seq<Seq<u8>>
    decreases ls.len(),
{
    if ls.len() == 0 {
        Seq::empty()
    } else {
        desc_lines_sp(ls.drop_last()) + (if is_desc_line(ls.last()) {
            seq![ls.last()]
        } else {
            Seq::empty()
        })
    }
}

/// `ls` without its EXDATE lines.
pub open spec fn strip_exdate_sp(ls: Seq<Seq<u8>>) -> Seq<Seq<u8>>
    decreases ls.len(),
{
    if ls.len() == 0 {
        Seq::empty()
    } else {
        strip_exdate_sp(ls.drop_last()) + (if is_exdate_line(ls.last()) {
            Seq::empty()
        } else {
            seq![ls.last()]
        })
    }
}

/// The recurrence description of an event: its DTSTART, RRULE and EXDATE
/// lines (split on CRLF), joined with line feeds.
pub open spec fn rrule_desc(ev: Seq<u8>) -> Seq<u8> {
    join_on(desc_lines_sp(split_on(ev, crlf())), nl())
}

/// The evaluator may consult the machine's timezone for this event: it has an
/// RRULE line and its recurrence description is not anchored, so the keep
/// verdict is not a function of the event's bytes.
pub open spec fn verdict_open(ev: Seq<u8>) -> bool {
    contains_sub(ev, lit_rrule_colon()) && !anchored_desc(rrule_desc(ev))
}

/// The settled keep decision. An event with an RRULE line is kept when the
/// recurrence evaluator finds an occurrence after the cutoff; one without is
/// kept when the value after the colon of its first DTSTART line compares
/// lexicographically at or above the cutoff's `YYYYMMDD` form. For an event
/// whose verdict is open, `keep_matches` says what deciding it may return.
pub open spec fn keep_decision(ev: Seq<u8>, cutoff: DateTime) -> Result<bool, TransformError> {
    if contains_sub(ev, lit_rrule_colon()) {
        Ok(recurrence_live(rrule_desc(ev), cutoff))
    } else {
        match first_dtstart(split_on(ev, crlf())) {
            None => Err(TransformError::MissingDtstart),
            Some(line) => match split_once_sp(line, 58u8) {
                None => Err(TransformError::DtstartNoColon),
                Some((_pre, date)) => Ok(lex_ge(date, date_str(cutoff))),
            },
        }
    }
}

/// What deciding an event may return: the settled decision, except that an
/// event whose verdict is open may get either verdict.
pub open spec fn keep_matches(ev: Seq<u8>, cutoff: DateTime, r: Result<bool, TransformError>) -> bool {
    if verdict_open(ev) {
        r is Ok
    } else {
        r == keep_decision(ev, cutoff)
    }
}

/// How one line of a kept event is emitted: a DTSTART/DTEND/EXDATE line
/// qualified with a TZID is trimmed, its local value converted to UTC, and
/// re-emitted as `KEY:YYYYMMDDTHHMMSSZ`; every other line is unchanged.
pub open spec fn rewrite_line_sp(line: Seq<u8>) -> Result<Seq<u8>, TransformError> {
    if !needs_rewrite(line) {
        Ok(line)
    } else {
        match split_once_sp(trim_end_sp(line), 59u8) {
            None => Err(TransformError::MalformedTzLine),
            Some((key, val)) => match split_once_sp(val, 58u8) {
                None => Err(TransformError::MalformedTzLine),
                Some((tzpart, datepart)) => match split_once_sp(tzpart, 61u8) {
                    None => Err(TransformError::MalformedTzLine),
                    Some((_eq_pre, tzname)) => match tz_of_name(tzname) {
                        None => Err(TransformError::UnknownTimezone),
                        Some(id) => match parse_datetime_spec(datepart) {
                            None => Err(TransformError::MalformedDateTime),
                            Some(local) => match utc_of(id, local) {
                                None => Err(TransformError::SkippedLocalTime),
                                Some(u) => Ok(key + seq![58u8] + utc_str(u)),
                            },
                        },
                    },
                },
            },
        }
    }
}

/// All lines rewritten, stopping at the first failing line.
pub open spec fn rewrite_lines_sp(ls: Seq<Seq<u8>>) -> Result<Seq<Seq<u8>>, TransformError>
    decreases ls.len(),
{
    if ls.len() == 0 {
        Ok(Seq::empty())
    } else {
        match rewrite_lines_sp(ls.drop_last()) {
            Err(e) => Err(e),
            Ok(rs) => match rewrite_line_sp(ls.last()) {
                Err(e) => Err(e),
                Ok(l) => Ok(rs.push(l)),
            },
        }
    }
}

/// A kept event's text with every timezone-qualified date-time line rewritten
/// to UTC: split on line feeds, each piece rewritten, joined back.
pub open spec fn rewrite_event_sp(ev: Seq<u8>) -> Result<Seq<u8>, TransformError> {
    match rewrite_lines_sp(split_on(ev, nl())) {
        Err(e) => Err(e),
        Ok(ls) => Ok(join_on(ls, nl())),
    }
}

/// An event's text without its EXDATE lines.
pub open spec fn remove_exdates_sp(ev: Seq<u8>) -> Seq<u8> {
    join_on(strip_exdate_sp(split_on(ev, nl())), nl())
}

/// What a kept event's text becomes: exceptions stripped when asked, then
/// every timezone-qualified line rewritten to UTC.
pub open spec fn kept_render_sp(ev: Seq<u8>, remove_exceptions: bool) -> Result<
    Seq<u8>,
    TransformError,
> {
    rewrite_event_sp(
        if remove_exceptions {
            remove_exdates_sp(ev)
        } else {
            ev
        },
    )
}

/// What the engine does with one complete event when its keep verdict is
/// settled: drop it, keep a rewrite of it, or abandon the run.
pub open spec fn evaluate_sp(ev: Seq<u8>, cutoff: DateTime, remove_exceptions: bool) -> Result<
    Option<Seq<u8>>,
    TransformError,
> {
    match keep_decision(ev, cutoff) {
        Err(e) => Err(e),
        Ok(false) => Ok(None),
        Ok(true) => match kept_render_sp(ev, remove_exceptions) {
            Err(e) => Err(e),
            Ok(out) => Ok(Some(out)),
        },
    }
}

/// What evaluating an event may return: the settled result, except that an
/// event whose verdict is open may be dropped or kept-and-rendered either
/// way.
pub open spec fn evaluate_matches(
    ev: Seq<u8>,
    cutoff: DateTime,
    remove_exceptions: bool,
    r: Result<Option<Seq<u8>>, TransformError>,
) -> bool {
    if verdict_open(ev) {
        r == Ok::<Option<Seq<u8>>, TransformError>(None) || r == (match kept_render_sp(
            ev,
            remove_exceptions,
        ) {
            Err(e) => Err::<Option<Seq<u8>>, TransformError>(e),
            Ok(out) => Ok::<Option<Seq<u8>>, TransformError>(Some(out)),
        })
    } else {
        r == evaluate_sp(ev, cutoff, remove_exceptions)
    }
}

pub open spec fn vec_result_view(r: Result<Vec<u8>, TransformError>) -> Result<
    Seq<u8>,
    TransformError,
> {
    match r {
        Ok(v) => Ok(v@),
        Err(e) => Err(e),
    }
}

pub open spec fn opt_vec_result_view(r: Result<Option<Vec<u8>>, TransformError>) -> Result<
    Option<Seq<u8>>,
    TransformError,
> {
    match r {
        Ok(None) => Ok(None),
        Ok(Some(v)) => Ok(Some(v@)),
        Err(e) => Err(e),
    }
}

fn is_desc_line_bytes(l: &[u8]) -> (r: bool)
    ensures
        r == is_desc_line(l@),
{
    starts_with_bytes(l, dtstart_bytes().as_slice()) || starts_with_bytes(
        l,
        rrule_bytes().as_slice(),
    ) || starts_with_bytes(l, exdate_bytes().as_slice())
}

fn filter_desc_lines(ls: &Vec<Vec<u8>>) -> (r: Vec<Vec<u8>>)
    ensures
        views_of(r@) == desc_lines_sp(views_of(ls@)),
{
    let ghost lv = views_of(ls@);
    let mut r: Vec<Vec<u8>> = Vec::new();
    let mut i: usize = 0;
    proof {
        assert(lv.take(0) =~~= Seq::<Seq<u8>>::empty());
        assert(views_of(r@) =~~= desc_lines_sp(lv.take(0)));
    }
    while i < ls.len()
        invariant
            i <= ls.len(),
            lv == views_of(ls@),
            views_of(r@) == desc_lines_sp(lv.take(i as int)),
        decreases ls.len() - i,
    {
        let ghost old_r = views_of(r@);
        if is_desc_line_bytes(ls[i].as_slice()) {
            r.push(slice_to_vec(ls[i].as_slice()));
            proof {
                assert(views_of(r@) =~~= old_r.push(lv[i as int]));
            }
        }
        proof {
            assert(lv.take(i + 1).drop_last() =~~= lv.take(i as int));
            assert(lv.take(i + 1).last() == lv[i as int]);
            assert(views_of(r@) =~~= desc_lines_sp(lv.take(i + 1)));
        }
        i = i + 1;
    }
    proof {
        assert(lv.take(ls@.len() as int) =~~= lv);
    }
    r
}

fn filter_out_exdates(ls: &Vec<Vec<u8>>) -> (r: Vec<Vec<u8>>)
    ensures
        views_of(r@) == strip_exdate_sp(views_of(ls@)),
{
    let ghost lv = views_of(ls@);
    let mut r: Vec<Vec<u8>> = Vec::new();
    let mut i: usize = 0;
    proof {
        assert(lv.take(0) =~~= Seq::<Seq<u8>>::empty());
        assert(views_of(r@) =~~= strip_exdate_sp(lv.take(0)));
    }
    while i < ls.len()
        invariant
            i <= ls.len(),
            lv == views_of(ls@),
            views_of(r@) == strip_exdate_sp(lv.take(i as int)),
        decreases ls.len() - i,
    {
        let ghost old_r = views_of(r@);
        if !starts_with_bytes(ls[i].as_slice(), exdate_bytes().as_slice()) {
            r.push(slice_to_vec(ls[i].as_slice()));
            proof {
                assert(views_of(r@) =~~= old_r.push(lv[i as int]));
            }
        }
        proof {
            assert(lv.take(i + 1).drop_last() =~~= lv.take(i as int));
            assert(lv.take(i + 1).last() == lv[i as int]);
            assert(views_of(r@) =~~= strip_exdate_sp(lv.take(i + 1)));
        }
        i = i + 1;
    }
    proof {
        assert(lv.take(ls@.len() as int) =~~= lv);
    }
    r
}

fn find_first_dtstart(ls: &Vec<Vec<u8>>) -> (r: Option<usize>)
    ensures
        match r {
            Some(i) => i < ls@.len() && first_dtstart(views_of(ls@)) == Some(views_of(ls@)[i as int]),
            None => first_dtstart(views_of(ls@)) == None::<Seq<u8>>,
        },
{
    let ghost lv = views_of(ls@);
    let mut i: usize = 0;
    proof {
        assert(lv.skip(0) =~~= lv);
    }
    while i < ls.len()
        invariant
            i <= ls.len(),
            lv == views_of(ls@),
            first_dtstart(lv) == first_dtstart(lv.skip(i as int)),
        decreases ls.len() - i,
    {
        if starts_with_bytes(ls[i].as_slice(), dtstart_bytes().as_slice()) {
            proof {
                assert(lv.skip(i as int)[0] == lv[i as int]);
            }
            return Some(i);
        }
        proof {
            assert(lv.skip(i as int)[0] == lv[i as int]);
            assert(lv.skip(i as int).drop_first() =~~= lv.skip(i + 1));
        }
        i = i + 1;
    }
    proof {
        assert(lv.skip(i as int).len() == 0);
    }
    None
}

/// Rewrites one line of a kept event.
pub fn rewrite_line(line: &[u8]) -> (r: Result<Vec<u8>, TransformError>)
    ensures
        vec_result_view(r) == rewrite_line_sp(line@),
{
    let needs = starts_with_bytes(line, dtstart_tzid_bytes().as_slice()) || starts_with_bytes(
        line,
        dtend_tzid_bytes().as_slice(),
    ) || starts_with_bytes(line, exdate_tzid_bytes().as_slice());
    if !needs {
        return Ok(slice_to_vec(line));
    }
    let t = trim_end_bytes(line);
    match split_once_byte(t.as_slice(), 59) {
        None => Err(TransformError::MalformedTzLine),
        Some((key, val)) => match split_once_byte(val.as_slice(), 58) {
            None => Err(TransformError::MalformedTzLine),
            Some((tzpart, datepart)) => match split_once_byte(tzpart.as_slice(), 61) {
                None => Err(TransformError::MalformedTzLine),
                Some((_eq_pre, tzname)) => match string_into_tz(tzname.as_slice()) {
                    None => Err(TransformError::UnknownTimezone),
                    Some(id) => match parse_datetime(datepart.as_slice()) {
                        None => Err(TransformError::MalformedDateTime),
                        Some(local) => match to_utc(id, &local) {
                            None => Err(TransformError::SkippedLocalTime),
                            Some(u) => {
                                let mut out = key;
                                out.push(58);
                                push_utc(&mut out, &u);
                                proof {
                                    let spec_out = rewrite_line_sp(line@);
                                    assert(out@ =~= spec_out->Ok_0);
                                }
                                Ok(out)
                            },
                        },
                    },
                },
            },
        },
    }
}

proof fn lemma_rewrite_lines_extend(ls: Seq<Seq<u8>>, k: int, m: int)
    requires
        0 <= k <= m <= ls.len(),
        rewrite_lines_sp(ls.take(k)) is Err,
    ensures
        rewrite_lines_sp(ls.take(m)) == rewrite_lines_sp(ls.take(k)),
    decreases m - k,
{
    if m > k {
        lemma_rewrite_lines_extend(ls, k, m - 1);
        assert(ls.take(m).drop_last() =~~= ls.take(m - 1));
    }
}

fn rewrite_all_lines(ls: &Vec<Vec<u8>>) -> (r: Result<Vec<Vec<u8>>, TransformError>)
    ensures
        match (r, rewrite_lines_sp(views_of(ls@))) {
            (Ok(v), Ok(s)) => views_of(v@) == s,
            (Err(e1), Err(e2)) => e1 == e2,
            _ => false,
        },
{
    let ghost lv = views_of(ls@);
    let mut out: Vec<Vec<u8>> = Vec::new();
    let mut i: usize = 0;
    proof {
        assert(lv.take(0) =~~= Seq::<Seq<u8>>::empty());
        assert(rewrite_lines_sp(lv.take(0)) == Ok::<Seq<Seq<u8>>, TransformError>(Seq::empty()));
        assert(views_of(out@) =~~= Seq::<Seq<u8>>::empty());
    }
    while i < ls.len()
        invariant
            i <= ls.len(),
            lv == views_of(ls@),
            rewrite_lines_sp(lv.take(i as int)) == Ok::<Seq<Seq<u8>>, TransformError>(
                views_of(out@),
            ),
        decreases ls.len() - i,
    {
        let ghost old_out = views_of(out@);
        match rewrite_line(ls[i].as_slice()) {
            Err(e) => {
                proof {
                    assert(lv.take(i + 1).drop_last() =~~= lv.take(i as int));
                    assert(lv.take(i + 1).last() == lv[i as int]);
                    assert(rewrite_lines_sp(lv.take(i + 1)) == Err::<Seq<Seq<u8>>, TransformError>(
                        e,
                    ));
                    lemma_rewrite_lines_extend(lv, i + 1, lv.len() as int);
                    assert(lv.take(lv.len() as int) =~~= lv);
                }
                return Err(e);
            },
            Ok(l) => {
                let ghost lview = l@;
                out.push(l);
                proof {
                    assert(views_of(out@) =~~= old_out.push(lview));
                    assert(lv.take(i + 1).drop_last() =~~= lv.take(i as int));
                    assert(lv.take(i + 1).last() == lv[i as int]);
                }
            },
        }
        i = i + 1;
    }
    proof {
        assert(lv.take(lv.len() as int) =~~= lv);
    }
    Ok(out)
}

/// Removes every EXDATE line from an event's text.
pub fn remove_exdates(event_buf: &[u8]) -> (r: Vec<u8>)
    ensures
        r@ == remove_exdates_sp(event_buf@),
{
    let lines = split_bytes(event_buf, nl_bytes().as_slice());
    let kept = filter_out_exdates(&lines);
    join_bytes(&kept, nl_bytes().as_slice())
}

/// Rewrites every timezone-qualified DTSTART/DTEND/EXDATE line of an event to
/// its UTC form; other lines pass through unchanged.
pub fn replace_dtstart(event_buf: &[u8]) -> (r: Result<Vec<u8>, TransformError>)
    ensures
        vec_result_view(r) == rewrite_event_sp(event_buf@),
{
    let lines = split_bytes(event_buf, nl_bytes().as_slice());
    match rewrite_all_lines(&lines) {
        Err(e) => Err(e),
        Ok(ls) => Ok(join_bytes(&ls, nl_bytes().as_slice())),
    }
}

/// Decides whether one complete event block is kept: exactly the settled
/// decision, unless the event's verdict is open to the evaluator's machine.
pub fn should_keep_event(event: &[u8], keep_after: &DateTime) -> (r: Result<bool, TransformError>)
    requires
        keep_after.valid(),
    ensures
        keep_matches(event@, *keep_after, r),
        !verdict_open(event@) ==> r == keep_decision(event@, *keep_after),
{
    if contains_bytes(event, rrule_colon_bytes().as_slice()) {
        let lines = split_bytes(event, crlf_bytes().as_slice());
        let desc = filter_desc_lines(&lines);
        let joined = join_bytes(&desc, nl_bytes().as_slice());
        proof {
            assert(joined@ == rrule_desc(event@));
        }
        Ok(rrule_has_occurrence(joined.as_slice(), keep_after))
    } else {
        let lines = split_bytes(event, crlf_bytes().as_slice());
        match find_first_dtstart(&lines) {
            None => Err(TransformError::MissingDtstart),
            Some(idx) => match split_once_byte(lines[idx].as_slice(), 58) {
                None => Err(TransformError::DtstartNoColon),
                Some((_key, date)) => {
                    let cut = format_date(keep_after);
                    Ok(lex_ge_bytes(date.as_slice(), cut.as_slice()))
                },
            },
        }
    }
}

/// The engine's work on one complete event block: `Ok(None)` drops the event,
/// `Ok(Some(text))` keeps the rewritten text, `Err` abandons the run. The
/// result is the settled one, unless the event's verdict is open.
pub fn evaluate_and_rewrite(event: &[u8], cutoff: &DateTime, remove_exceptions: bool) -> (r: Result<
    Option<Vec<u8>>,
    TransformError,
>)
    requires
        cutoff.valid(),
    ensures
        evaluate_matches(event@, *cutoff, remove_exceptions, opt_vec_result_view(r)),
        !verdict_open(event@) ==> opt_vec_result_view(r) == evaluate_sp(
            event@,
            *cutoff,
            remove_exceptions,
        ),
{
    match should_keep_event(event, cutoff) {
        Err(e) => Err(e),
        Ok(false) => Ok(None),
        Ok(true) => {
            let base: Vec<u8> = if remove_exceptions {
                remove_exdates(event)
            } else {
                slice_to_vec(event)
            };
            match replace_dtstart(base.as_slice()) {
                Err(e) => Err(e),
                Ok(v) => Ok(Some(v)),
            }
        },
    }
}

} // verus!
