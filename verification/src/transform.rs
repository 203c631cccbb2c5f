//! The streaming pass over a whole document: lines outside events pass
//! through unchanged, each complete `BEGIN:VEVENT`..`END:VEVENT` block is
//! handed to the engine, and a truncated final event is dropped.
use vstd::prelude::*;
use crate::datetime::DateTime;
use crate::event::TransformError;
use crate::event::evaluate_and_rewrite;
use crate::event::evaluate_matches;
use crate::event::evaluate_sp;
use crate::event::kept_render_sp;
use crate::event::verdict_open;
use crate::text::append_bytes;
use crate::text::lines_of;
use crate::text::read_lines;
use crate::text::starts_with_bytes;
use crate::text::starts_with_spec;
use crate::text::views_of;

verus! {

/// "BEGIN:VEVENT"
pub open spec fn lit_begin_vevent() -> Seq<u8> {
    seq![66u8, 69u8, 71u8, 73u8, 78u8, 58u8, 86u8, 69u8, 86u8, 69u8, 78u8, 84u8]
}

/// "END:VEVENT"
pub open spec fn lit_end_vevent() -> Seq<u8> {
    seq![69u8, 78u8, 68u8, 58u8, 86u8, 69u8, 86u8, 69u8, 78u8, 84u8]
}

pub fn begin_vevent_bytes() -> (r: Vec<u8>)
    ensures
        r@ == lit_begin_vevent(),
{
    let r = vec![66u8, 69u8, 71u8, 73u8, 78u8, 58u8, 86u8, 69u8, 86u8, 69u8, 78u8, 84u8];
    proof {
        assert(r@ =~= lit_begin_vevent());
    }
    r
}

pub fn end_vevent_bytes() -> (r: Vec<u8>)
    ensures
        r@ == lit_end_vevent(),
{
    let r = vec![69u8, 78u8, 68u8, 58u8, 86u8, 69u8, 86u8, 69u8, 78u8, 84u8];
    proof {
        assert(r@ =~= lit_end_vevent());
    }
    r
}

pub open spec fn is_begin_line(l: Seq<u8>) -> bool {
    starts_with_spec(l, lit_begin_vevent())
}

pub open spec fn is_end_line(l: Seq<u8>) -> bool {
    starts_with_spec(l, lit_end_vevent())
}

/// The output for the remaining lines `ls`, given the bytes `buf` of an event
/// block under accumulation (`None` outside an event). A line outside an
/// event that opens no block is emitted as it is; a `BEGIN:VEVENT` line opens
/// a block; every line of a block joins `buf`; the `END:VEVENT` line closes
/// it and the engine decides what, if anything, is emitted for the block; a
/// block still open at the end of input is dropped.
pub open spec fn transform_lines_sp(
    ls: Seq<Seq<u8>>,
    buf: Option<Seq<u8>>,
    cutoff: DateTime,
    remove_exceptions: bool,
) -> Result<Seq<u8>, TransformError>
    decreases ls.len(),
{
    if ls.len() == 0 {
        Ok(Seq::empty())
    } else {
        let l = ls[0];
        match buf {
            None => {
                if is_begin_line(l) {
                    transform_lines_sp(ls.drop_first(), Some(l), cutoff, remove_exceptions)
                } else {
                    match transform_lines_sp(ls.drop_first(), None, cutoff, remove_exceptions) {
                        Err(e) => Err(e),
                        Ok(rest) => Ok(l + rest),
                    }
                }
            },
            Some(b) => {
                let b2 = b + l;
                if is_end_line(l) {
                    match evaluate_sp(b2, cutoff, remove_exceptions) {
                        Err(e) => Err(e),
                        Ok(None) => transform_lines_sp(
                            ls.drop_first(),
                            None,
                            cutoff,
                            remove_exceptions,
                        ),
                        Ok(Some(out)) => match transform_lines_sp(
                            ls.drop_first(),
                            None,
                            cutoff,
                            remove_exceptions,
                        ) {
                            Err(e) => Err(e),
                            Ok(rest) => Ok(out + rest),
                        },
                    }
                } else {
                    transform_lines_sp(ls.drop_first(), Some(b2), cutoff, remove_exceptions)
                }
            },
        }
    }
}

/// The transform of a whole document.
pub open spec fn transform_sp(input: Seq<u8>, cutoff: DateTime, remove_exceptions: bool) -> Result<
    Seq<u8>,
    TransformError,
> {
    transform_lines_sp(lines_of(input), None, cutoff, remove_exceptions)
}

pub open spec fn bytes_result_view(r: Result<Vec<u8>, TransformError>) -> Result<
    Seq<u8>,
    TransformError,
> {
    match r {
        Ok(v) => Ok(v@),
        Err(e) => Err(e),
    }
}

/// A piece of output in front of what the rest of the walk produces; an
/// abandoned run stays abandoned.
pub open spec fn prepend_result(x: Seq<u8>, rr: Result<Seq<u8>, TransformError>) -> Result<
    Seq<u8>,
    TransformError,
> {
    match rr {
        Ok(y) => Ok(x + y),
        Err(e) => Err(e),
    }
}

/// The results a run of the walk may produce. It differs from
/// `transform_lines_sp` in one place: an event whose verdict is open to the
/// evaluator's machine may be dropped or kept either way, so each such event
/// contributes a choice rather than a value. A kept piece `x` stands in front
/// of what the rest of the walk produces; an abandoned rest stays abandoned.
pub open spec fn transform_lines_rel(
    ls: Seq<Seq<u8>>,
    buf: Option<Seq<u8>>,
    cutoff: DateTime,
    remove_exceptions: bool,
    r: Result<Seq<u8>, TransformError>,
) -> bool
    decreases ls.len(),
{
    if ls.len() == 0 {
        r == Ok::<Seq<u8>, TransformError>(Seq::empty())
    } else {
        let l = ls[0];
        match buf {
            None => {
                if is_begin_line(l) {
                    transform_lines_rel(ls.drop_first(), Some(l), cutoff, remove_exceptions, r)
                } else {
                    match r {
                        Err(e) => transform_lines_rel(
                            ls.drop_first(),
                            None,
                            cutoff,
                            remove_exceptions,
                            Err(e),
                        ),
                        Ok(y) => l.len() <= y.len() && y.take(l.len() as int) == l
                            && transform_lines_rel(
                            ls.drop_first(),
                            None,
                            cutoff,
                            remove_exceptions,
                            Ok(y.skip(l.len() as int)),
                        ),
                    }
                }
            },
            Some(b) => {
                let b2 = b + l;
                if is_end_line(l) {
                    if verdict_open(b2) {
                        transform_lines_rel(ls.drop_first(), None, cutoff, remove_exceptions, r)
                            || (match (kept_render_sp(b2, remove_exceptions), r) {
                            (Err(e), _) => r == Err::<Seq<u8>, TransformError>(e),
                            (Ok(o), Err(e)) => transform_lines_rel(
                                ls.drop_first(),
                                None,
                                cutoff,
                                remove_exceptions,
                                Err(e),
                            ),
                            (Ok(o), Ok(y)) => o.len() <= y.len() && y.take(o.len() as int) == o
                                && transform_lines_rel(
                                ls.drop_first(),
                                None,
                                cutoff,
                                remove_exceptions,
                                Ok(y.skip(o.len() as int)),
                            ),
                        })
                    } else {
                        match (evaluate_sp(b2, cutoff, remove_exceptions), r) {
                            (Err(e), _) => r == Err::<Seq<u8>, TransformError>(e),
                            (Ok(None), _) => transform_lines_rel(
                                ls.drop_first(),
                                None,
                                cutoff,
                                remove_exceptions,
                                r,
                            ),
                            (Ok(Some(o)), Err(e)) => transform_lines_rel(
                                ls.drop_first(),
                                None,
                                cutoff,
                                remove_exceptions,
                                Err(e),
                            ),
                            (Ok(Some(o)), Ok(y)) => o.len() <= y.len() && y.take(o.len() as int)
                                == o && transform_lines_rel(
                                ls.drop_first(),
                                None,
                                cutoff,
                                remove_exceptions,
                                Ok(y.skip(o.len() as int)),
                            ),
                        }
                    }
                } else {
                    transform_lines_rel(ls.drop_first(), Some(b2), cutoff, remove_exceptions, r)
                }
            },
        }
    }
}

/// The results a transform of a whole document may produce.
pub open spec fn transform_rel(
    input: Seq<u8>,
    cutoff: DateTime,
    remove_exceptions: bool,
    r: Result<Seq<u8>, TransformError>,
) -> bool {
    transform_lines_rel(lines_of(input), None, cutoff, remove_exceptions, r)
}

/// The events the walk hands to the engine, each a complete
/// `BEGIN:VEVENT`..`END:VEVENT` block; the block boundaries do not depend on
/// any verdict.
pub open spec fn event_blocks(ls: Seq<Seq<u8>>, buf: Option<Seq<u8>>) -> Seq<Seq<u8>>
    decreases ls.len(),
{
    if ls.len() == 0 {
        Seq::empty()
    } else {
        let l = ls[0];
        match buf {
            None => {
                if is_begin_line(l) {
                    event_blocks(ls.drop_first(), Some(l))
                } else {
                    event_blocks(ls.drop_first(), None)
                }
            },
            Some(b) => {
                if is_end_line(l) {
                    seq![b + l] + event_blocks(ls.drop_first(), None)
                } else {
                    event_blocks(ls.drop_first(), Some(b + l))
                }
            },
        }
    }
}

/// No event of the document leaves its verdict to the evaluator's machine.
pub open spec fn blocks_decided(ls: Seq<Seq<u8>>, buf: Option<Seq<u8>>) -> bool {
    forall|i: int|
        0 <= i < event_blocks(ls, buf).len() ==> !verdict_open(#[trigger] event_blocks(ls, buf)[i])
}

/// Filters a calendar document against a UTC cutoff instant: lines outside
/// `BEGIN:VEVENT`..`END:VEVENT` blocks pass through byte for byte; each
/// complete event is kept exactly when it still has an occurrence on or after
/// the cutoff, its timezone-qualified date-time lines rewritten to UTC and,
/// when `remove_exceptions` is set, its EXDATE lines removed; a truncated
/// final event is dropped; an event the run cannot handle abandons the run
/// with the reason. The result is one the walk allows; when every recurring
/// event's description is anchored, it is exactly the settled one.
pub fn transform(input: &[u8], cutoff: &DateTime, remove_exceptions: bool) -> (r: Result<
    Vec<u8>,
    TransformError,
>)
    requires
        cutoff.valid(),
    ensures
        transform_rel(input@, *cutoff, remove_exceptions, bytes_result_view(r)),
        blocks_decided(lines_of(input@), None) ==> bytes_result_view(r) == transform_sp(
            input@,
            *cutoff,
            remove_exceptions,
        ),
{
    let lines = read_lines(input);
    let ghost lv = views_of(lines@);
    let begin_marker = begin_vevent_bytes();
    let end_marker = end_vevent_bytes();
    let mut out: Vec<u8> = Vec::new();
    let mut in_event: bool = false;
    let mut buf: Vec<u8> = Vec::new();
    let mut j: usize = 0;
    proof {
        assert(lv.skip(0) =~~= lv);
        assert forall|rr: Result<Seq<u8>, TransformError>|
            #[trigger] transform_lines_rel(lv, None, *cutoff, remove_exceptions, rr) implies
            transform_lines_rel(lv, None, *cutoff, remove_exceptions, prepend_result(out@, rr)) by {
            match rr {
                Ok(y) => {
                    assert(out@ + y =~= y);
                },
                Err(e) => {},
            }
        };
    }
    while j < lines.len()
        invariant
            j <= lines.len(),
            lv == views_of(lines@),
            lv == lines_of(input@),
            begin_marker@ == lit_begin_vevent(),
            end_marker@ == lit_end_vevent(),
            cutoff.valid(),
            !in_event ==> buf@.len() == 0,
            in_event ==> forall|rr: Result<Seq<u8>, TransformError>|
                #[trigger] transform_lines_rel(
                    lv.skip(j as int),
                    Some(buf@),
                    *cutoff,
                    remove_exceptions,
                    rr,
                ) ==> transform_lines_rel(
                    lv,
                    None,
                    *cutoff,
                    remove_exceptions,
                    prepend_result(out@, rr),
                ),
            !in_event ==> forall|rr: Result<Seq<u8>, TransformError>|
                #[trigger] transform_lines_rel(
                    lv.skip(j as int),
                    None,
                    *cutoff,
                    remove_exceptions,
                    rr,
                ) ==> transform_lines_rel(
                    lv,
                    None,
                    *cutoff,
                    remove_exceptions,
                    prepend_result(out@, rr),
                ),
        decreases lines.len() - j,
    {
        proof {
            assert(lv.skip(j as int)[0] == lv[j as int]);
            assert(lv.skip(j as int).drop_first() =~~= lv.skip(j + 1));
        }
        let line = &lines[j];
        let ghost l = lv[j as int];
        let ghost old_out = out@;
        let ghost old_buf = buf@;
        let ghost old_in = in_event;
        if !in_event {
            if starts_with_bytes(line.as_slice(), begin_marker.as_slice()) {
                buf = Vec::new();
                append_bytes(&mut buf, line.as_slice());
                in_event = true;
                proof {
                    assert(buf@ =~= l);
                    assert forall|rr: Result<Seq<u8>, TransformError>|
                        #[trigger] transform_lines_rel(
                            lv.skip(j + 1),
                            Some(buf@),
                            *cutoff,
                            remove_exceptions,
                            rr,
                        ) implies transform_lines_rel(
                        lv,
                        None,
                        *cutoff,
                        remove_exceptions,
                        prepend_result(out@, rr),
                    ) by {
                        assert(transform_lines_rel(
                            lv.skip(j as int),
                            None,
                            *cutoff,
                            remove_exceptions,
                            rr,
                        ));
                    };
                }
            } else {
                append_bytes(&mut out, line.as_slice());
                proof {
                    assert forall|rr: Result<Seq<u8>, TransformError>|
                        #[trigger] transform_lines_rel(
                            lv.skip(j + 1),
                            None,
                            *cutoff,
                            remove_exceptions,
                            rr,
                        ) implies transform_lines_rel(
                        lv,
                        None,
                        *cutoff,
                        remove_exceptions,
                        prepend_result(out@, rr),
                    ) by {
                        let lifted = prepend_result(l, rr);
                        match rr {
                            Ok(y) => {
                                assert((l + y).take(l.len() as int) =~= l);
                                assert((l + y).skip(l.len() as int) =~= y);
                                assert(old_out + (l + y) =~= (old_out + l) + y);
                            },
                            Err(e) => {},
                        }
                        assert(transform_lines_rel(
                            lv.skip(j as int),
                            None,
                            *cutoff,
                            remove_exceptions,
                            lifted,
                        ));
                        assert(prepend_result(old_out, lifted) == prepend_result(out@, rr));
                    };
                }
            }
        } else {
            append_bytes(&mut buf, line.as_slice());
            proof {
                assert(buf@ == old_buf + l);
            }
            if !starts_with_bytes(line.as_slice(), end_marker.as_slice()) {
                proof {
                    assert forall|rr: Result<Seq<u8>, TransformError>|
                        #[trigger] transform_lines_rel(
                            lv.skip(j + 1),
                            Some(buf@),
                            *cutoff,
                            remove_exceptions,
                            rr,
                        ) implies transform_lines_rel(
                        lv,
                        None,
                        *cutoff,
                        remove_exceptions,
                        prepend_result(out@, rr),
                    ) by {
                        assert(transform_lines_rel(
                            lv.skip(j as int),
                            Some(old_buf),
                            *cutoff,
                            remove_exceptions,
                            rr,
                        ));
                    };
                }
            } else {
                match evaluate_and_rewrite(buf.as_slice(), cutoff, remove_exceptions) {
                    Err(e) => {
                        proof {
                            assert(evaluate_matches(
                                old_buf + l,
                                *cutoff,
                                remove_exceptions,
                                Err::<Option<Seq<u8>>, TransformError>(e),
                            ));
                            assert(transform_lines_rel(
                                lv.skip(j as int),
                                Some(old_buf),
                                *cutoff,
                                remove_exceptions,
                                Err::<Seq<u8>, TransformError>(e),
                            ));
                            assert(transform_lines_rel(
                                lv,
                                None,
                                *cutoff,
                                remove_exceptions,
                                Err::<Seq<u8>, TransformError>(e),
                            ));
                            if blocks_decided(lv, None) {
                                crate::laws::lemma_rel_det(
                                    lv,
                                    None,
                                    *cutoff,
                                    remove_exceptions,
                                    Err::<Seq<u8>, TransformError>(e),
                                );
                            }
                        }
                        return Err(e);
                    },
                    Ok(None) => {
                        in_event = false;
                        buf = Vec::new();
                        proof {
                            assert forall|rr: Result<Seq<u8>, TransformError>|
                                #[trigger] transform_lines_rel(
                                    lv.skip(j + 1),
                                    None,
                                    *cutoff,
                                    remove_exceptions,
                                    rr,
                                ) implies transform_lines_rel(
                                lv,
                                None,
                                *cutoff,
                                remove_exceptions,
                                prepend_result(out@, rr),
                            ) by {
                                assert(evaluate_matches(
                                    old_buf + l,
                                    *cutoff,
                                    remove_exceptions,
                                    Ok::<Option<Seq<u8>>, TransformError>(None),
                                ));
                                assert(transform_lines_rel(
                                    lv.skip(j as int),
                                    Some(old_buf),
                                    *cutoff,
                                    remove_exceptions,
                                    rr,
                                ));
                            };
                        }
                    },
                    Ok(Some(block)) => {
                        append_bytes(&mut out, block.as_slice());
                        in_event = false;
                        buf = Vec::new();
                        proof {
                            assert forall|rr: Result<Seq<u8>, TransformError>|
                                #[trigger] transform_lines_rel(
                                    lv.skip(j + 1),
                                    None,
                                    *cutoff,
                                    remove_exceptions,
                                    rr,
                                ) implies transform_lines_rel(
                                lv,
                                None,
                                *cutoff,
                                remove_exceptions,
                                prepend_result(out@, rr),
                            ) by {
                                assert(evaluate_matches(
                                    old_buf + l,
                                    *cutoff,
                                    remove_exceptions,
                                    Ok::<Option<Seq<u8>>, TransformError>(Some(block@)),
                                ));
                                let lifted = prepend_result(block@, rr);
                                match rr {
                                    Ok(y) => {
                                        assert((block@ + y).take(block@.len() as int) =~= block@);
                                        assert((block@ + y).skip(block@.len() as int) =~= y);
                                        assert(old_out + (block@ + y) =~= (old_out + block@) + y);
                                    },
                                    Err(e) => {},
                                }
                                assert(transform_lines_rel(
                                    lv.skip(j as int),
                                    Some(old_buf),
                                    *cutoff,
                                    remove_exceptions,
                                    lifted,
                                ));
                                assert(prepend_result(old_out, lifted) == prepend_result(
                                    out@,
                                    rr,
                                ));
                            };
                        }
                    },
                }
            }
        }
        j = j + 1;
    }
    proof {
        assert(lv.skip(j as int).len() == 0);
        assert(transform_lines_rel(
            lv.skip(j as int),
            if in_event {
                Some(buf@)
            } else {
                None
            },
            *cutoff,
            remove_exceptions,
            Ok::<Seq<u8>, TransformError>(Seq::empty()),
        ));
        assert(out@ + Seq::<u8>::empty() =~= out@);
        assert(transform_lines_rel(
            lv,
            None,
            *cutoff,
            remove_exceptions,
            Ok::<Seq<u8>, TransformError>(out@),
        ));
        if blocks_decided(lv, None) {
            crate::laws::lemma_rel_det(
                lv,
                None,
                *cutoff,
                remove_exceptions,
                Ok::<Seq<u8>, TransformError>(out@),
            );
        }
    }
    Ok(out)
}

} // verus!
