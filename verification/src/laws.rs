//! Document-level laws of the transform: lines outside events pass through
//! unchanged whatever the cutoff decides, and a pass over input that is
//! already in normalized form is idempotent.
use vstd::prelude::*;
use crate::datetime::DateTime;
use crate::event::TransformError;
use crate::event::evaluate_sp;
use crate::event::kept_render_sp;
use crate::event::verdict_open;
use crate::event::is_exdate_line;
use crate::event::keep_decision;
use crate::event::lit_dtstart_tzid;
use crate::event::lit_dtend_tzid;
use crate::event::lit_exdate;
use crate::event::lit_exdate_tzid;
use crate::event::needs_rewrite;
use crate::event::nl;
use crate::event::remove_exdates_sp;
use crate::event::rewrite_event_sp;
use crate::event::rewrite_lines_sp;
use crate::event::rewrite_line_sp;
use crate::event::strip_exdate_sp;
use crate::event::is_space;
use crate::event::lemma_split_once_found;
use crate::event::trim_end_sp;
use crate::datetime::dec2;
use crate::datetime::dec4;
use crate::datetime::digit;
use crate::datetime::utc_str;
use crate::text::join_on;
use crate::text::lemma_join_split;
use crate::text::lines_of;
use crate::text::split_on;
use crate::text::starts_with_spec;
use crate::transform::is_begin_line;
use crate::transform::is_end_line;
use crate::transform::lit_begin_vevent;
use crate::transform::lit_end_vevent;
use crate::transform::blocks_decided;
use crate::transform::event_blocks;
use crate::transform::transform_lines_rel;
use crate::transform::transform_lines_sp;
use crate::transform::transform_rel;
use crate::transform::transform_sp;

verus! {

/// The bytes of the given lines, in order.
pub open spec fn concat_all(ls: Seq<Seq<u8>>) -> Seq<u8>
    decreases ls.len(),
{
    if ls.len() == 0 {
        Seq::empty()
    } else {
        ls[0] + concat_all(ls.drop_first())
    }
}

proof fn lemma_concat_push(ls: Seq<Seq<u8>>, l: Seq<u8>)
    ensures
        concat_all(ls.push(l)) == concat_all(ls) + l,
    decreases ls.len(),
{
    if ls.len() == 0 {
        assert(ls.push(l).drop_first() =~~= Seq::<Seq<u8>>::empty());
        assert(ls.push(l)[0] == l);
        assert(concat_all(Seq::<Seq<u8>>::empty()) == Seq::<u8>::empty());
        assert(l + Seq::<u8>::empty() =~= l);
        assert(Seq::<u8>::empty() + l =~= l);
    } else {
        lemma_concat_push(ls.drop_first(), l);
        assert(ls.push(l).drop_first() =~~= ls.drop_first().push(l));
        assert(ls[0] + (concat_all(ls.drop_first()) + l) =~= (ls[0] + concat_all(ls.drop_first()))
            + l);
    }
}

/// A line: nonempty, with a line feed at most as its final byte.
pub open spec fn line_shape(l: Seq<u8>) -> bool {
    l.len() > 0 && forall|k: int| 0 <= k < l.len() - 1 ==> l[k] != 10u8
}

/// A line terminated by its line feed.
pub open spec fn complete_line(l: Seq<u8>) -> bool {
    line_shape(l) && l.last() == 10u8
}

/// What `lines_of` produces: every element a line, and every element but the
/// last terminated.
pub open spec fn doc_lines_wf(ls: Seq<Seq<u8>>) -> bool {
    (forall|i: int| 0 <= i < ls.len() ==> line_shape(ls[i])) && (forall|i: int|
        0 <= i < ls.len() - 1 ==> complete_line(ls[i]))
}

pub proof fn lemma_lines_of_wf(s: Seq<u8>)
    ensures
        doc_lines_wf(lines_of(s)),
    decreases s.len(),
{
    if s.len() == 0 {
    } else {
        lemma_lines_of_wf(s.drop_first());
        let r = lines_of(s.drop_first());
        if s[0] == 10u8 {
            let out = seq![seq![10u8]] + r;
            assert(forall|i: int| 1 <= i < out.len() ==> out[i] == r[i - 1]);
            assert(line_shape(out[0]));
            if r.len() > 0 {
                assert(complete_line(out[0]));
            }
        } else {
            if r.len() == 0 {
                assert(line_shape(seq![s[0]]));
            } else {
                let out = seq![seq![s[0]] + r[0]] + r.drop_first();
                assert(line_shape(r[0]));
                assert(forall|k: int|
                    0 <= k < (seq![s[0]] + r[0]).len() - 1 ==> (seq![s[0]] + r[0])[k] != 10u8)
                    by {
                    assert(forall|k: int| 1 <= k < r[0].len() ==> (seq![s[0]] + r[0])[k] == r[0][k
                        - 1]);
                };
                assert(line_shape(out[0]));
                if r.len() > 1 {
                    assert(complete_line(r[0]));
                    assert((seq![s[0]] + r[0]).last() == r[0].last());
                }
                assert(forall|i: int| 1 <= i < out.len() ==> out[i] == r[i - 1 + 1]);
            }
        }
    }
}

/// A terminated line followed by anything splits off as the first line.
pub proof fn lemma_lines_of_line(a: Seq<u8>, s2: Seq<u8>)
    requires
        complete_line(a),
    ensures
        lines_of(a + s2) == seq![a] + lines_of(s2),
    decreases a.len(),
{
    if a.len() == 1 {
        assert(a[0] == 10u8);
        assert((a + s2)[0] == 10u8);
        assert((a + s2).drop_first() =~= s2);
        assert(seq![seq![10u8]] =~~= seq![a]);
    } else {
        assert(a[0] != 10u8);
        assert((a + s2)[0] == a[0]);
        assert((a + s2).drop_first() =~= a.drop_first() + s2);
        assert(complete_line(a.drop_first())) by {
            assert(forall|k: int| 0 <= k < a.drop_first().len() - 1 ==> a.drop_first()[k] == a[k
                + 1]);
        };
        lemma_lines_of_line(a.drop_first(), s2);
        let r = lines_of(a.drop_first() + s2);
        assert(r[0] == a.drop_first());
        assert(seq![a[0]] + a.drop_first() =~= a);
        assert(r.drop_first() =~~= lines_of(s2));
        assert(seq![seq![(a + s2)[0]] + r[0]] + r.drop_first() =~~= seq![a] + lines_of(s2));
    }
}

/// A single line is its own line decomposition.
pub proof fn lemma_lines_of_single(a: Seq<u8>)
    requires
        line_shape(a),
    ensures
        lines_of(a) == seq![a],
    decreases a.len(),
{
    if a.len() == 1 {
        if a[0] == 10u8 {
            assert(seq![seq![10u8]] =~~= seq![a]);
        } else {
            assert(lines_of(a.drop_first()).len() == 0);
            assert(seq![seq![a[0]]] =~~= seq![a]);
        }
    } else {
        assert(a[0] != 10u8);
        assert(line_shape(a.drop_first())) by {
            assert(forall|k: int| 0 <= k < a.drop_first().len() - 1 ==> a.drop_first()[k] == a[k
                + 1]);
        };
        lemma_lines_of_single(a.drop_first());
        let r = lines_of(a.drop_first());
        assert(r.len() == 1);
        assert(seq![seq![a[0]] + r[0]] + r.drop_first() =~~= seq![a]);
    }
}

/// Shaped lines, all but possibly the last terminated, are exactly the line
/// decomposition of their bytes.
pub proof fn lemma_lines_of_concat(ls: Seq<Seq<u8>>)
    requires
        ls.len() >= 1,
        forall|i: int| 0 <= i < ls.len() ==> line_shape(ls[i]),
        forall|i: int| 0 <= i < ls.len() - 1 ==> complete_line(ls[i]),
    ensures
        lines_of(concat_all(ls)) == ls,
    decreases ls.len(),
{
    if ls.len() == 1 {
        assert(concat_all(ls) == ls[0] + concat_all(ls.drop_first()));
        assert(ls[0] + Seq::<u8>::empty() =~= ls[0]);
        lemma_lines_of_single(ls[0]);
        assert(seq![ls[0]] =~~= ls);
    } else {
        assert(forall|i: int|
            0 <= i < ls.drop_first().len() ==> ls.drop_first()[i] == ls[i + 1]);
        lemma_lines_of_concat(ls.drop_first());
        lemma_lines_of_line(ls[0], concat_all(ls.drop_first()));
        assert(seq![ls[0]] + ls.drop_first() =~~= ls);
    }
}

/// Terminated lines followed by anything decompose line by line.
pub proof fn lemma_lines_of_concat_plus(ls: Seq<Seq<u8>>, s2: Seq<u8>)
    requires
        forall|i: int| 0 <= i < ls.len() ==> complete_line(ls[i]),
    ensures
        lines_of(concat_all(ls) + s2) == ls + lines_of(s2),
    decreases ls.len(),
{
    if ls.len() == 0 {
        assert(concat_all(ls) + s2 =~= s2);
        assert(ls + lines_of(s2) =~~= lines_of(s2));
    } else {
        assert(forall|i: int|
            0 <= i < ls.drop_first().len() ==> ls.drop_first()[i] == ls[i + 1]);
        lemma_lines_of_concat_plus(ls.drop_first(), s2);
        assert((ls[0] + concat_all(ls.drop_first())) + s2 =~= ls[0] + (concat_all(ls.drop_first())
            + s2));
        lemma_lines_of_line(ls[0], concat_all(ls.drop_first()) + s2);
        assert(seq![ls[0]] + (ls.drop_first() + lines_of(s2)) =~~= ls + lines_of(s2));
    }
}

/// A terminated line splits off its unterminated bytes as the first piece.
proof fn lemma_split_nl_line(a: Seq<u8>, s2: Seq<u8>)
    requires
        complete_line(a),
    ensures
        split_on(a + s2, nl()) == seq![a.drop_last()] + split_on(s2, nl()),
    decreases a.len(),
{
    let s = a + s2;
    if a.len() == 1 {
        assert(s[0] == 10u8);
        assert(s.take(1) =~= seq![10u8]);
        assert(starts_with_spec(s, nl()));
        assert(s.skip(1) =~= s2);
        assert(a.drop_last() =~= Seq::<u8>::empty());
        assert(seq![Seq::<u8>::empty()] + split_on(s2, nl()) =~~= seq![a.drop_last()] + split_on(
            s2,
            nl(),
        ));
    } else {
        assert(s[0] == a[0]);
        assert(a[0] != 10u8);
        assert(s.take(1)[0] == s[0]);
        assert(nl()[0] == 10u8);
        assert(!starts_with_spec(s, nl()));
        assert(s.drop_first() =~= a.drop_first() + s2);
        assert(complete_line(a.drop_first())) by {
            assert(forall|k: int| 0 <= k < a.drop_first().len() - 1 ==> a.drop_first()[k] == a[k
                + 1]);
        };
        lemma_split_nl_line(a.drop_first(), s2);
        let r = split_on(s.drop_first(), nl());
        assert(r[0] == a.drop_first().drop_last());
        assert(seq![s[0]] + a.drop_first().drop_last() =~= a.drop_last());
        assert(r.drop_first() =~~= split_on(s2, nl()));
        assert(seq![seq![s[0]] + r[0]] + r.drop_first() =~~= seq![a.drop_last()] + split_on(
            s2,
            nl(),
        ));
    }
}

/// An unterminated line is its own single piece.
proof fn lemma_split_nl_last(a: Seq<u8>)
    requires
        line_shape(a),
        a.last() != 10u8,
    ensures
        split_on(a, nl()) == seq![a],
    decreases a.len(),
{
    if a.len() == 1 {
        assert(a.take(1)[0] == a[0]);
        assert(nl()[0] == 10u8);
        assert(!starts_with_spec(a, nl()));
        assert(split_on(a.drop_first(), nl()) == seq![a.drop_first()]);
        assert(seq![seq![a[0]] + a.drop_first()] + seq![a.drop_first()].drop_first() =~~= seq![a]);
    } else {
        assert(a[0] != 10u8);
        assert(a.take(1)[0] == a[0]);
        assert(nl()[0] == 10u8);
        assert(!starts_with_spec(a, nl()));
        assert(line_shape(a.drop_first()) && a.drop_first().last() != 10u8) by {
            assert(forall|k: int| 0 <= k < a.drop_first().len() - 1 ==> a.drop_first()[k] == a[k
                + 1]);
        };
        lemma_split_nl_last(a.drop_first());
        let r = split_on(a.drop_first(), nl());
        assert(seq![seq![a[0]] + r[0]] + r.drop_first() =~~= seq![a]);
    }
}

/// The pieces of a block's bytes split on line feeds: each terminated line
/// minus its line feed, an unterminated final line as it is, and a final
/// empty piece when the last line is terminated.
pub open spec fn chomp_lines(bbl: Seq<Seq<u8>>) -> Seq<Seq<u8>>
    decreases bbl.len(),
{
    if bbl.len() == 0 {
        seq![Seq::<u8>::empty()]
    } else if bbl.len() == 1 {
        if bbl[0].len() > 0 && bbl[0].last() == 10u8 {
            seq![bbl[0].drop_last(), Seq::<u8>::empty()]
        } else {
            seq![bbl[0]]
        }
    } else {
        seq![bbl[0].drop_last()] + chomp_lines(bbl.drop_first())
    }
}

proof fn lemma_split_block(bbl: Seq<Seq<u8>>)
    requires
        forall|i: int| 0 <= i < bbl.len() ==> line_shape(bbl[i]),
        forall|i: int| 0 <= i < bbl.len() - 1 ==> complete_line(bbl[i]),
    ensures
        split_on(concat_all(bbl), nl()) == chomp_lines(bbl),
    decreases bbl.len(),
{
    if bbl.len() == 0 {
        assert(concat_all(bbl).len() == 0);
    } else if bbl.len() == 1 {
        assert(concat_all(bbl.drop_first()) == Seq::<u8>::empty());
        assert(concat_all(bbl) =~= bbl[0]);
        if bbl[0].last() == 10u8 {
            lemma_split_nl_line(bbl[0], Seq::empty());
            assert(bbl[0] + Seq::<u8>::empty() =~= bbl[0]);
            assert(split_on(Seq::empty(), nl()) == seq![Seq::<u8>::empty()]);
            assert(seq![bbl[0].drop_last()] + seq![Seq::<u8>::empty()] =~~= seq![
                bbl[0].drop_last(),
                Seq::<u8>::empty(),
            ]);
        } else {
            lemma_split_nl_last(bbl[0]);
        }
    } else {
        assert(forall|i: int|
            0 <= i < bbl.drop_first().len() ==> bbl.drop_first()[i] == bbl[i + 1]);
        lemma_split_block(bbl.drop_first());
        lemma_split_nl_line(bbl[0], concat_all(bbl.drop_first()));
    }
}

/// Stripping exception lines leaves pieces without any untouched.
proof fn lemma_strip_identity(ps: Seq<Seq<u8>>)
    requires
        forall|i: int| 0 <= i < ps.len() ==> !is_exdate_line(ps[i]),
    ensures
        strip_exdate_sp(ps) == ps,
    decreases ps.len(),
{
    if ps.len() > 0 {
        assert(forall|i: int| 0 <= i < ps.drop_last().len() ==> ps.drop_last()[i] == ps[i]);
        lemma_strip_identity(ps.drop_last());
        assert(ps.drop_last() + seq![ps.last()] =~~= ps);
    } else {
        assert(strip_exdate_sp(ps) =~~= ps);
    }
}

/// Rewriting leaves pieces that need no rewrite untouched.
proof fn lemma_rewrite_identity(ps: Seq<Seq<u8>>)
    requires
        forall|i: int| 0 <= i < ps.len() ==> !needs_rewrite(ps[i]),
    ensures
        rewrite_lines_sp(ps) == Ok::<Seq<Seq<u8>>, TransformError>(ps),
    decreases ps.len(),
{
    if ps.len() > 0 {
        assert(forall|i: int| 0 <= i < ps.drop_last().len() ==> ps.drop_last()[i] == ps[i]);
        lemma_rewrite_identity(ps.drop_last());
        assert(rewrite_line_sp(ps.last()) == Ok::<Seq<u8>, TransformError>(ps.last()));
        assert(ps.drop_last().push(ps.last()) =~~= ps);
    } else {
        assert(rewrite_lines_sp(ps) == Ok::<Seq<Seq<u8>>, TransformError>(Seq::empty()));
        assert(Seq::<Seq<u8>>::empty() =~~= ps);
    }
}

/// A kept event whose pieces need no rewrite, and hold no exception line when
/// those are being removed, is emitted exactly as it came in.
pub proof fn lemma_evaluate_identity(ev: Seq<u8>, cutoff: DateTime, remove_exceptions: bool)
    requires
        keep_decision(ev, cutoff) == Ok::<bool, TransformError>(true),
        forall|i: int|
            0 <= i < split_on(ev, nl()).len() ==> !needs_rewrite(split_on(ev, nl())[i]),
        remove_exceptions ==> forall|i: int|
            0 <= i < split_on(ev, nl()).len() ==> !is_exdate_line(split_on(ev, nl())[i]),
    ensures
        evaluate_sp(ev, cutoff, remove_exceptions) == Ok::<Option<Seq<u8>>, TransformError>(
            Some(ev),
        ),
{
    let ps = split_on(ev, nl());
    lemma_join_split(ev, nl());
    if remove_exceptions {
        lemma_strip_identity(ps);
        assert(remove_exdates_sp(ev) == ev);
    }
    lemma_rewrite_identity(ps);
    assert(rewrite_event_sp(ev) == Ok::<Seq<u8>, TransformError>(ev));
}

/// The lines forwarded outside events by the streaming walk.
pub open spec fn outside_lines(ls: Seq<Seq<u8>>, in_event: bool) -> Seq<Seq<u8>>
    decreases ls.len(),
{
    if ls.len() == 0 {
        Seq::empty()
    } else if in_event {
        outside_lines(ls.drop_first(), !is_end_line(ls[0]))
    } else if is_begin_line(ls[0]) {
        outside_lines(ls.drop_first(), true)
    } else {
        seq![ls[0]] + outside_lines(ls.drop_first(), false)
    }
}

proof fn lemma_outside_inblock(bl: Seq<Seq<u8>>, tail: Seq<Seq<u8>>)
    requires
        bl.len() >= 1,
        is_end_line(bl.last()),
        forall|i: int| 0 <= i < bl.len() - 1 ==> !is_end_line(bl[i]),
    ensures
        outside_lines(bl + tail, true) == outside_lines(tail, false),
    decreases bl.len(),
{
    let s = bl + tail;
    assert(s[0] == bl[0]);
    assert(s.drop_first() =~~= bl.drop_first() + tail);
    if bl.len() == 1 {
        assert(is_end_line(bl[0]));
        assert(bl.drop_first() + tail =~~= tail);
    } else {
        assert(!is_end_line(bl[0]));
        assert(forall|i: int| 0 <= i < bl.drop_first().len() ==> bl.drop_first()[i] == bl[i + 1]);
        lemma_outside_inblock(bl.drop_first(), tail);
    }
}

proof fn lemma_outside_block(bl: Seq<Seq<u8>>, tail: Seq<Seq<u8>>)
    requires
        bl.len() >= 2,
        is_begin_line(bl[0]),
        is_end_line(bl.last()),
        forall|i: int| 1 <= i < bl.len() - 1 ==> !is_end_line(bl[i]),
    ensures
        outside_lines(bl + tail, false) == outside_lines(tail, false),
{
    let s = bl + tail;
    assert(s[0] == bl[0]);
    assert(s.drop_first() =~~= bl.drop_first() + tail);
    assert(forall|i: int| 0 <= i < bl.drop_first().len() ==> bl.drop_first()[i] == bl[i + 1]);
    assert(bl.drop_first().last() == bl.last());
    lemma_outside_inblock(bl.drop_first(), tail);
}

proof fn lemma_tf_inblock(
    bl: Seq<Seq<u8>>,
    tail: Seq<Seq<u8>>,
    b: Seq<u8>,
    cutoff: DateTime,
    remove_exceptions: bool,
)
    requires
        bl.len() >= 1,
        is_end_line(bl.last()),
        forall|i: int| 0 <= i < bl.len() - 1 ==> !is_end_line(bl[i]),
    ensures
        transform_lines_sp(bl + tail, Some(b), cutoff, remove_exceptions) == (match evaluate_sp(
            b + concat_all(bl),
            cutoff,
            remove_exceptions,
        ) {
            Err(e) => Err::<Seq<u8>, TransformError>(e),
            Ok(None) => transform_lines_sp(tail, None, cutoff, remove_exceptions),
            Ok(Some(o)) => match transform_lines_sp(tail, None, cutoff, remove_exceptions) {
                Err(e) => Err::<Seq<u8>, TransformError>(e),
                Ok(rest) => Ok::<Seq<u8>, TransformError>(o + rest),
            },
        }),
    decreases bl.len(),
{
    let s = bl + tail;
    assert(s.len() > 0);
    assert(s[0] == bl[0]);
    assert(s.drop_first() =~~= bl.drop_first() + tail);
    if bl.len() == 1 {
        assert(is_end_line(bl[0]));
        assert(concat_all(bl.drop_first()) == Seq::<u8>::empty());
        assert(b + concat_all(bl) =~= b + bl[0]);
        assert(bl.drop_first() + tail =~~= tail);
    } else {
        assert(!is_end_line(bl[0]));
        assert(forall|i: int| 0 <= i < bl.drop_first().len() ==> bl.drop_first()[i] == bl[i + 1]);
        assert(bl.drop_first().last() == bl.last());
        lemma_tf_inblock(bl.drop_first(), tail, b + bl[0], cutoff, remove_exceptions);
        assert((b + bl[0]) + concat_all(bl.drop_first()) =~= b + concat_all(bl));
    }
}

proof fn lemma_tf_enters_block(
    bl: Seq<Seq<u8>>,
    tail: Seq<Seq<u8>>,
    cutoff: DateTime,
    remove_exceptions: bool,
)
    requires
        bl.len() >= 2,
        is_begin_line(bl[0]),
        is_end_line(bl.last()),
        forall|i: int| 1 <= i < bl.len() - 1 ==> !is_end_line(bl[i]),
    ensures
        transform_lines_sp(bl + tail, None, cutoff, remove_exceptions) == (match evaluate_sp(
            concat_all(bl),
            cutoff,
            remove_exceptions,
        ) {
            Err(e) => Err::<Seq<u8>, TransformError>(e),
            Ok(None) => transform_lines_sp(tail, None, cutoff, remove_exceptions),
            Ok(Some(o)) => match transform_lines_sp(tail, None, cutoff, remove_exceptions) {
                Err(e) => Err::<Seq<u8>, TransformError>(e),
                Ok(rest) => Ok::<Seq<u8>, TransformError>(o + rest),
            },
        }),
{
    let s = bl + tail;
    assert(s[0] == bl[0]);
    assert(s.drop_first() =~~= bl.drop_first() + tail);
    assert(forall|i: int| 0 <= i < bl.drop_first().len() ==> bl.drop_first()[i] == bl[i + 1]);
    assert(bl.drop_first().last() == bl.last());
    lemma_tf_inblock(bl.drop_first(), tail, bl[0], cutoff, remove_exceptions);
    assert(bl[0] + concat_all(bl.drop_first()) =~= concat_all(bl));
}

/// None of the field markers contains a line feed.
proof fn lemma_markers_no_nl()
    ensures
        forall|k: int| 0 <= k < lit_dtstart_tzid().len() ==> lit_dtstart_tzid()[k] != 10u8,
        forall|k: int| 0 <= k < lit_dtend_tzid().len() ==> lit_dtend_tzid()[k] != 10u8,
        forall|k: int| 0 <= k < lit_exdate_tzid().len() ==> lit_exdate_tzid()[k] != 10u8,
        forall|k: int| 0 <= k < lit_exdate().len() ==> lit_exdate()[k] != 10u8,
{
}

/// Dropping a terminated line's line feed does not change whether a
/// feed-free marker is its prefix.
proof fn lemma_chomp_prefix(l: Seq<u8>, p: Seq<u8>)
    requires
        complete_line(l),
        p.len() > 0,
        forall|k: int| 0 <= k < p.len() ==> p[k] != 10u8,
    ensures
        starts_with_spec(l.drop_last(), p) == starts_with_spec(l, p),
{
    if starts_with_spec(l, p) {
        if l.len() == p.len() {
            assert(l.take(p.len() as int) =~= l);
            assert(p.last() == l.last());
        }
        assert(l.drop_last().take(p.len() as int) =~= l.take(p.len() as int));
    }
    if starts_with_spec(l.drop_last(), p) {
        assert(l.take(p.len() as int) =~= l.drop_last().take(p.len() as int));
    }
}

proof fn lemma_chomp_flags(l: Seq<u8>)
    requires
        complete_line(l),
    ensures
        needs_rewrite(l.drop_last()) == needs_rewrite(l),
        is_exdate_line(l.drop_last()) == is_exdate_line(l),
{
    lemma_markers_no_nl();
    lemma_chomp_prefix(l, lit_dtstart_tzid());
    lemma_chomp_prefix(l, lit_dtend_tzid());
    lemma_chomp_prefix(l, lit_exdate_tzid());
    lemma_chomp_prefix(l, lit_exdate());
}

/// A document in normalized form: no timezone-qualified date-time line, and,
/// when exceptions are being removed, no exception line either.
pub open spec fn norm_lines(ls: Seq<Seq<u8>>, remove_exceptions: bool) -> bool {
    forall|i: int|
        0 <= i < ls.len() ==> (!needs_rewrite(ls[i]) && (remove_exceptions ==> !is_exdate_line(
            ls[i],
        )))
}

/// The pieces of a normalized block's bytes are normalized too.
proof fn lemma_block_parts_norm(bbl: Seq<Seq<u8>>, remove_exceptions: bool)
    requires
        forall|i: int| 0 <= i < bbl.len() ==> line_shape(bbl[i]),
        forall|i: int| 0 <= i < bbl.len() - 1 ==> complete_line(bbl[i]),
        norm_lines(bbl, remove_exceptions),
    ensures
        norm_lines(chomp_lines(bbl), remove_exceptions),
    decreases bbl.len(),
{
    let e = Seq::<u8>::empty();
    assert(!needs_rewrite(e) && !is_exdate_line(e));
    if bbl.len() == 0 {
    } else if bbl.len() == 1 {
        if bbl[0].last() == 10u8 {
            lemma_chomp_flags(bbl[0]);
            assert(forall|i: int|
                0 <= i < chomp_lines(bbl).len() ==> (chomp_lines(bbl)[i] == bbl[0].drop_last()
                    || chomp_lines(bbl)[i] == e));
        }
    } else {
        assert(forall|i: int|
            0 <= i < bbl.drop_first().len() ==> bbl.drop_first()[i] == bbl[i + 1]);
        lemma_block_parts_norm(bbl.drop_first(), remove_exceptions);
        lemma_chomp_flags(bbl[0]);
        let out = seq![bbl[0].drop_last()] + chomp_lines(bbl.drop_first());
        assert(forall|i: int|
            1 <= i < out.len() ==> out[i] == chomp_lines(bbl.drop_first())[i - 1]);
    }
}

/// The induction behind idempotence: whatever the walk emits for the
/// remaining lines of a normalized document, running the transform on that
/// emission reproduces it.
proof fn lemma_idem_gen(
    ls: Seq<Seq<u8>>,
    buf: Option<Seq<u8>>,
    stl: Seq<Seq<u8>>,
    cutoff: DateTime,
    remove_exceptions: bool,
    y: Seq<u8>,
)
    requires
        doc_lines_wf(ls),
        norm_lines(ls, remove_exceptions),
        transform_lines_sp(ls, buf, cutoff, remove_exceptions) == Ok::<Seq<u8>, TransformError>(y),
        buf matches Some(b) ==> {
            &&& b == concat_all(stl)
            &&& stl.len() >= 1
            &&& is_begin_line(stl[0])
            &&& (forall|i: int| 1 <= i < stl.len() ==> !is_end_line(stl[i]))
            &&& (forall|i: int| 0 <= i < stl.len() ==> line_shape(stl[i]))
            &&& norm_lines(stl, remove_exceptions)
            &&& (ls.len() > 0 ==> forall|i: int| 0 <= i < stl.len() ==> complete_line(stl[i]))
        },
    ensures
        transform_lines_sp(lines_of(y), None, cutoff, remove_exceptions) == Ok::<
            Seq<u8>,
            TransformError,
        >(y),
    decreases ls.len(),
{
    if ls.len() == 0 {
        assert(y =~= Seq::<u8>::empty());
        assert(lines_of(y).len() == 0);
    } else {
        let l = ls[0];
        let rest = ls.drop_first();
        assert(forall|i: int| 0 <= i < rest.len() ==> rest[i] == ls[i + 1]);
        match buf {
            None => {
                if is_begin_line(l) {
                    assert(concat_all(seq![l].drop_first()) == Seq::<u8>::empty());
                    assert(l + Seq::<u8>::empty() =~= l);
                    assert(concat_all(seq![l]) == l);
                    lemma_idem_gen(rest, Some(l), seq![l], cutoff, remove_exceptions, y);
                } else {
                    let rest_r = transform_lines_sp(rest, None, cutoff, remove_exceptions);
                    let rest_y = rest_r->Ok_0;
                    assert(y == l + rest_y);
                    lemma_idem_gen(rest, None, stl, cutoff, remove_exceptions, rest_y);
                    if ls.len() > 1 {
                        lemma_lines_of_line(l, rest_y);
                        let out_ls = seq![l] + lines_of(rest_y);
                        assert(out_ls[0] == l);
                        assert(out_ls.drop_first() =~~= lines_of(rest_y));
                    } else {
                        assert(rest_y =~= Seq::<u8>::empty());
                        assert(y =~= l);
                        lemma_lines_of_single(l);
                        let out_ls = seq![l];
                        assert(out_ls[0] == l);
                        assert(out_ls.drop_first() =~~= lines_of(rest_y));
                        assert(l + rest_y =~= l);
                    }
                }
            },
            Some(b) => {
                let b2 = b + l;
                if !is_end_line(l) {
                    lemma_concat_push(stl, l);
                    assert(forall|i: int| 0 <= i < stl.len() ==> stl.push(l)[i] == stl[i]);
                    assert(stl.push(l)[stl.len() as int] == l);
                    lemma_idem_gen(rest, Some(b2), stl.push(l), cutoff, remove_exceptions, y);
                } else {
                    let bbl = stl.push(l);
                    lemma_concat_push(stl, l);
                    assert(concat_all(bbl) == b2);
                    assert(forall|i: int| 0 <= i < stl.len() ==> bbl[i] == stl[i]);
                    assert(bbl[stl.len() as int] == l);
                    match evaluate_sp(b2, cutoff, remove_exceptions) {
                        Err(e) => {
                            assert(false);
                        },
                        Ok(None) => {
                            lemma_idem_gen(
                                rest,
                                None,
                                Seq::empty(),
                                cutoff,
                                remove_exceptions,
                                y,
                            );
                        },
                        Ok(Some(o)) => {
                            let rest_r = transform_lines_sp(
                                rest,
                                None,
                                cutoff,
                                remove_exceptions,
                            );
                            let rest_y = rest_r->Ok_0;
                            assert(y == o + rest_y);
                            lemma_idem_gen(rest, None, Seq::empty(), cutoff, remove_exceptions, rest_y);
                            lemma_split_block(bbl);
                            lemma_block_parts_norm(bbl, remove_exceptions);
                            assert(keep_decision(b2, cutoff) == Ok::<bool, TransformError>(true));
                            lemma_evaluate_identity(b2, cutoff, remove_exceptions);
                            assert(o == b2);
                            if ls.len() > 1 {
                                lemma_lines_of_concat_plus(bbl, rest_y);
                                assert(lines_of(y) =~~= bbl + lines_of(rest_y));
                            } else {
                                assert(rest_y =~= Seq::<u8>::empty());
                                assert(y =~= b2);
                                lemma_lines_of_concat(bbl);
                                assert(lines_of(rest_y).len() == 0);
                                assert(lines_of(y) =~~= bbl + lines_of(rest_y));
                            }
                            lemma_begin_not_end(bbl[0]);
                            lemma_tf_enters_block(
                                bbl,
                                lines_of(rest_y),
                                cutoff,
                                remove_exceptions,
                            );
                        },
                    }
                }
            },
        }
    }
}

/// Idempotence on normalized input: when no line of the document carries a
/// TZID-qualified date-time, no line is an EXDATE line while exceptions are
/// being removed, and no event leaves its verdict to the evaluator's machine,
/// a run's output is the settled one, and a second pass over it, with the
/// same cutoff and flag, emits that output unchanged.
pub proof fn transform_idempotent_normalized(
    input: Seq<u8>,
    cutoff: DateTime,
    remove_exceptions: bool,
    y: Seq<u8>,
)
    requires
        transform_rel(input, cutoff, remove_exceptions, Ok::<Seq<u8>, TransformError>(y)),
        norm_lines(lines_of(input), remove_exceptions),
        blocks_decided(lines_of(input), None),
    ensures
        transform_sp(input, cutoff, remove_exceptions) == Ok::<Seq<u8>, TransformError>(y),
        transform_sp(y, cutoff, remove_exceptions) == Ok::<Seq<u8>, TransformError>(y),
        transform_rel(y, cutoff, remove_exceptions, Ok::<Seq<u8>, TransformError>(y)),
{
    lemma_lines_of_wf(input);
    lemma_rel_det(lines_of(input), None, cutoff, remove_exceptions, Ok::<Seq<u8>, TransformError>(y));
    lemma_idem_gen(lines_of(input), None, Seq::empty(), cutoff, remove_exceptions, y);
    lemma_rel_of_sp(lines_of(y), None, cutoff, remove_exceptions);
}

/// A `BEGIN:VEVENT` line is no `END:VEVENT` line.
proof fn lemma_begin_not_end(l: Seq<u8>)
    requires
        is_begin_line(l),
    ensures
        !is_end_line(l),
{
    assert(l.take(lit_begin_vevent().len() as int)[0] == l[0]);
    assert(l[0] == 66u8);
    if is_end_line(l) {
        assert(l.take(lit_end_vevent().len() as int)[0] == l[0]);
        assert(l[0] == 69u8);
    }
}

/// Bytes free of line feeds.
pub open spec fn no_nl(x: Seq<u8>) -> bool {
    forall|k: int| 0 <= k < x.len() ==> x[k] != 10u8
}

proof fn lemma_no_nl_concat(a: Seq<u8>, b: Seq<u8>)
    requires
        no_nl(a),
        no_nl(b),
    ensures
        no_nl(a + b),
{
    assert(forall|k: int| 0 <= k < (a + b).len() ==> (a + b)[k] == (if k < a.len() {
        a[k]
    } else {
        b[k - a.len()]
    }));
}

/// Byte-level facts about the markers, read off their literals.
proof fn lemma_marker_bytes()
    ensures
        lit_dtstart_tzid().len() == 12,
        lit_dtstart_tzid()[0] == 68u8,
        lit_dtstart_tzid()[1] == 84u8,
        lit_dtstart_tzid()[7] == 59u8,
        forall|k: int| 0 <= k < 7 ==> lit_dtstart_tzid()[k] != 59u8,
        forall|k: int| 0 <= k < 12 ==> !is_space(lit_dtstart_tzid()[k]),
        lit_dtend_tzid().len() == 10,
        lit_dtend_tzid()[0] == 68u8,
        lit_dtend_tzid()[1] == 84u8,
        lit_dtend_tzid()[5] == 59u8,
        forall|k: int| 0 <= k < 5 ==> lit_dtend_tzid()[k] != 59u8,
        forall|k: int| 0 <= k < 10 ==> !is_space(lit_dtend_tzid()[k]),
        lit_exdate_tzid().len() == 11,
        lit_exdate_tzid()[0] == 69u8,
        lit_exdate_tzid()[1] == 88u8,
        lit_exdate_tzid()[6] == 59u8,
        forall|k: int| 0 <= k < 6 ==> lit_exdate_tzid()[k] != 59u8,
        forall|k: int| 0 <= k < 11 ==> !is_space(lit_exdate_tzid()[k]),
        lit_exdate().len() == 6,
        lit_exdate()[0] == 69u8,
        lit_exdate()[1] == 88u8,
        lit_begin_vevent().len() == 12,
        lit_begin_vevent()[0] == 66u8,
        forall|k: int| 0 <= k < 12 ==> lit_begin_vevent()[k] != 10u8,
        lit_end_vevent().len() == 10,
        lit_end_vevent()[0] == 69u8,
        lit_end_vevent()[1] == 78u8,
        forall|k: int| 0 <= k < 10 ==> lit_end_vevent()[k] != 10u8,
{
}

/// The transform's digits, `T` and `Z` contain no line feed.
proof fn lemma_utc_no_nl(u: DateTime)
    ensures
        no_nl(utc_str(u)),
{
    assert(forall|n: int| 48 <= #[trigger] digit(n) <= 57);
    assert(no_nl(dec4(u.year as int)));
    assert(no_nl(dec2(u.month as int)));
    assert(no_nl(dec2(u.day as int)));
    assert(no_nl(dec2(u.hour as int)));
    assert(no_nl(dec2(u.minute as int)));
    assert(no_nl(dec2(u.second as int)));
    assert(no_nl(seq![84u8]));
    assert(no_nl(seq![90u8]));
    lemma_no_nl_concat(dec4(u.year as int), dec2(u.month as int));
    lemma_no_nl_concat(dec4(u.year as int) + dec2(u.month as int), dec2(u.day as int));
    let d = dec4(u.year as int) + dec2(u.month as int) + dec2(u.day as int);
    lemma_no_nl_concat(d, seq![84u8]);
    lemma_no_nl_concat(d + seq![84u8], dec2(u.hour as int));
    lemma_no_nl_concat(d + seq![84u8] + dec2(u.hour as int), dec2(u.minute as int));
    lemma_no_nl_concat(
        d + seq![84u8] + dec2(u.hour as int) + dec2(u.minute as int),
        dec2(u.second as int),
    );
    lemma_no_nl_concat(
        d + seq![84u8] + dec2(u.hour as int) + dec2(u.minute as int) + dec2(u.second as int),
        seq![90u8],
    );
}

/// Trimming takes a prefix and removes only whitespace.
proof fn lemma_trim_end_prefix(s: Seq<u8>)
    ensures
        trim_end_sp(s).len() <= s.len(),
        trim_end_sp(s) == s.take(trim_end_sp(s).len() as int),
        forall|j: int| trim_end_sp(s).len() <= j < s.len() ==> is_space(s[j]),
    decreases s.len(),
{
    if s.len() == 0 {
        assert(s.take(0) =~= s);
    } else if is_space(s.last()) {
        lemma_trim_end_prefix(s.drop_last());
        let t = trim_end_sp(s);
        assert(forall|j: int| 0 <= j < s.drop_last().len() ==> s.drop_last()[j] == s[j]);
        assert(s.drop_last().take(t.len() as int) =~= s.take(t.len() as int));
    } else {
        assert(s.take(s.len() as int) =~= s);
    }
}

/// A rewritten piece keeps its first two bytes, stays free of line feeds, and
/// stays nonempty; stated for one marker with its semicolon position.
proof fn lemma_rewrite_shape_for(p: Seq<u8>, q: Seq<u8>, m: Seq<u8>, mpos: int)
    requires
        crate::event::rewrite_line_sp(p) == Ok::<Seq<u8>, TransformError>(q),
        needs_rewrite(p),
        no_nl(p),
        starts_with_spec(p, m),
        2 <= mpos < m.len(),
        m[mpos] == 59u8,
        forall|k: int| 0 <= k < mpos ==> m[k] != 59u8,
        forall|k: int| 0 <= k < m.len() ==> !is_space(m[k]),
    ensures
        no_nl(q),
        q.len() >= 2,
        q[0] == p[0],
        q[1] == p[1],
{
    let t = trim_end_sp(p);
    lemma_trim_end_prefix(p);
    assert(forall|k: int| 0 <= k < m.len() ==> p[k] == m[k]) by {
        assert(forall|k: int| 0 <= k < m.len() ==> p.take(m.len() as int)[k] == p[k]);
    };
    if t.len() < m.len() {
        assert(is_space(p[t.len() as int]));
        assert(p[t.len() as int] == m[t.len() as int]);
        assert(false);
    }
    assert(forall|k: int| 0 <= k < t.len() ==> t[k] == p[k]) by {
        assert(forall|k: int| 0 <= k < t.len() ==> p.take(t.len() as int)[k] == p[k]);
    };
    assert(t[mpos] == 59u8);
    lemma_split_once_found(t, 59u8, mpos);
    let key = t.take(mpos);
    assert(forall|k: int| 0 <= k < mpos ==> key[k] == t[k]);
    let val = t.skip(mpos + 1);
    match crate::event::split_once_sp(val, 58u8) {
        None => {
            assert(false);
        },
        Some((tzpart, datepart)) => {
            match crate::event::split_once_sp(tzpart, 61u8) {
                None => {
                    assert(false);
                },
                Some((eq_pre, tzname)) => {
                    match crate::tz::tz_of_name(tzname) {
                        None => {
                            assert(false);
                        },
                        Some(id) => {
                            match crate::datetime::parse_datetime_spec(datepart) {
                                None => {
                                    assert(false);
                                },
                                Some(local) => {
                                    match crate::tz::utc_of(id, local) {
                                        None => {
                                            assert(false);
                                        },
                                        Some(u) => {
                                            assert(q == key + seq![58u8] + utc_str(u));
                                            lemma_utc_no_nl(u);
                                            assert(no_nl(key));
                                            lemma_no_nl_concat(key, seq![58u8]);
                                            lemma_no_nl_concat(key + seq![58u8], utc_str(u));
                                            assert(q[0] == key[0]);
                                            assert(q[1] == key[1]);
                                        },
                                    }
                                },
                            }
                        },
                    }
                },
            }
        },
    }
}

/// Rewriting one piece keeps its emptiness, its freedom from line feeds, and
/// whether it opens or closes an event.
proof fn lemma_rewrite_line_facts(p: Seq<u8>, q: Seq<u8>)
    requires
        crate::event::rewrite_line_sp(p) == Ok::<Seq<u8>, TransformError>(q),
        no_nl(p),
    ensures
        no_nl(q),
        is_end_line(q) == is_end_line(p),
        is_begin_line(q) == is_begin_line(p),
        (q.len() == 0) == (p.len() == 0),
{
    lemma_marker_bytes();
    if !needs_rewrite(p) {
        assert(q == p);
    } else {
        if starts_with_spec(p, lit_dtstart_tzid()) {
            lemma_rewrite_shape_for(p, q, lit_dtstart_tzid(), 7);
        } else if starts_with_spec(p, lit_dtend_tzid()) {
            lemma_rewrite_shape_for(p, q, lit_dtend_tzid(), 5);
        } else {
            lemma_rewrite_shape_for(p, q, lit_exdate_tzid(), 6);
        }
        assert(p[0] == 68u8 || p[0] == 69u8) by {
            if starts_with_spec(p, lit_dtstart_tzid()) {
                assert(p.take(12)[0] == p[0]);
            } else if starts_with_spec(p, lit_dtend_tzid()) {
                assert(p.take(10)[0] == p[0]);
            } else {
                assert(p.take(11)[0] == p[0]);
            }
        };
        assert(p[1] == 84u8 || p[1] == 88u8) by {
            if starts_with_spec(p, lit_dtstart_tzid()) {
                assert(p.take(12)[1] == p[1]);
            } else if starts_with_spec(p, lit_dtend_tzid()) {
                assert(p.take(10)[1] == p[1]);
            } else {
                assert(p.take(11)[1] == p[1]);
            }
        };
        if is_end_line(p) {
            assert(p.take(10)[1] == p[1]);
            assert(false);
        }
        if is_end_line(q) {
            assert(q.take(10)[1] == q[1]);
            assert(false);
        }
        if is_begin_line(p) {
            assert(p.take(12)[0] == p[0]);
            assert(false);
        }
        if is_begin_line(q) {
            assert(q.take(12)[0] == q[0]);
            assert(false);
        }
    }
}

/// An event-opening line is none of the lines the engine touches.
proof fn lemma_begin_flags(x: Seq<u8>)
    requires
        is_begin_line(x),
    ensures
        !is_end_line(x),
        !needs_rewrite(x),
        !is_exdate_line(x),
{
    lemma_marker_bytes();
    lemma_begin_not_end(x);
    assert(x.take(12)[0] == x[0]);
    assert(x[0] == 66u8);
    if starts_with_spec(x, lit_dtstart_tzid()) {
        assert(x.take(12)[0] == x[0]);
        assert(false);
    }
    if starts_with_spec(x, lit_dtend_tzid()) {
        assert(x.take(10)[0] == x[0]);
        assert(false);
    }
    if starts_with_spec(x, lit_exdate_tzid()) {
        assert(x.take(11)[0] == x[0]);
        assert(false);
    }
    if starts_with_spec(x, lit_exdate()) {
        assert(x.take(6)[0] == x[0]);
        assert(false);
    }
}

/// An event-closing line is none of the lines the engine touches.
proof fn lemma_end_flags(x: Seq<u8>)
    requires
        is_end_line(x),
    ensures
        !needs_rewrite(x),
        !is_exdate_line(x),
{
    lemma_marker_bytes();
    assert(x.take(10)[0] == x[0]);
    assert(x.take(10)[1] == x[1]);
    assert(x[0] == 69u8 && x[1] == 78u8);
    if starts_with_spec(x, lit_dtstart_tzid()) {
        assert(x.take(12)[0] == x[0]);
        assert(false);
    }
    if starts_with_spec(x, lit_dtend_tzid()) {
        assert(x.take(10)[0] == x[0]);
        assert(false);
    }
    if starts_with_spec(x, lit_exdate_tzid()) {
        assert(x.take(11)[1] == x[1]);
        assert(false);
    }
    if starts_with_spec(x, lit_exdate()) {
        assert(x.take(6)[1] == x[1]);
        assert(false);
    }
}

/// Terminating a feed-free piece keeps its open/close flags.
proof fn lemma_push_nl_flags(x: Seq<u8>)
    requires
        no_nl(x),
    ensures
        is_end_line(x.push(10u8)) == is_end_line(x),
        is_begin_line(x.push(10u8)) == is_begin_line(x),
        complete_line(x.push(10u8)),
{
    lemma_marker_bytes();
    let a = x.push(10u8);
    assert(a.last() == 10u8);
    assert(forall|k: int| 0 <= k < a.len() - 1 ==> a[k] == x[k]);
    assert(complete_line(a));
    assert(a.drop_last() =~= x);
    lemma_chomp_prefix(a, lit_end_vevent());
    lemma_chomp_prefix(a, lit_begin_vevent());
}

/// Chomping a terminated line keeps its open/close flags.
proof fn lemma_chomp_walk_flags(l: Seq<u8>)
    requires
        complete_line(l),
    ensures
        is_end_line(l.drop_last()) == is_end_line(l),
        is_begin_line(l.drop_last()) == is_begin_line(l),
{
    lemma_marker_bytes();
    lemma_chomp_prefix(l, lit_end_vevent());
    lemma_chomp_prefix(l, lit_begin_vevent());
}

/// The positions of the pieces of a block's bytes.
proof fn lemma_chomp_index(bbl: Seq<Seq<u8>>)
    requires
        bbl.len() >= 1,
    ensures
        (bbl.last().len() > 0 && bbl.last().last() == 10u8) ==> (chomp_lines(bbl).len() == bbl.len()
            + 1 && (forall|i: int|
            0 <= i < bbl.len() ==> chomp_lines(bbl)[i] == bbl[i].drop_last()) && chomp_lines(
            bbl,
        ).last() == Seq::<u8>::empty()),
        !(bbl.last().len() > 0 && bbl.last().last() == 10u8) ==> (chomp_lines(bbl).len()
            == bbl.len() && (forall|i: int|
            0 <= i < bbl.len() - 1 ==> chomp_lines(bbl)[i] == bbl[i].drop_last()) && chomp_lines(
            bbl,
        ).last() == bbl.last()),
    decreases bbl.len(),
{
    if bbl.len() == 1 {
    } else {
        assert(forall|i: int|
            0 <= i < bbl.drop_first().len() ==> bbl.drop_first()[i] == bbl[i + 1]);
        lemma_chomp_index(bbl.drop_first());
        let out = seq![bbl[0].drop_last()] + chomp_lines(bbl.drop_first());
        assert(forall|i: int|
            1 <= i < out.len() ==> out[i] == chomp_lines(bbl.drop_first())[i - 1]);
        assert(bbl.drop_first().last() == bbl.last());
    }
}

/// Splitting a feed-free piece yields it alone.
proof fn lemma_split_nl_single(a: Seq<u8>)
    requires
        no_nl(a),
    ensures
        split_on(a, nl()) == seq![a],
    decreases a.len(),
{
    if a.len() == 0 {
    } else {
        assert(a.take(1)[0] == a[0]);
        assert(nl()[0] == 10u8);
        assert(!starts_with_spec(a, nl()));
        assert(forall|k: int| 0 <= k < a.drop_first().len() ==> a.drop_first()[k] == a[k + 1]);
        lemma_split_nl_single(a.drop_first());
        let r = split_on(a.drop_first(), nl());
        assert(seq![seq![a[0]] + r[0]] + r.drop_first() =~~= seq![a]);
    }
}

/// A feed-free piece, a feed, and a rest split as the piece then the rest.
proof fn lemma_split_nl_skipline(a: Seq<u8>, s2: Seq<u8>)
    requires
        no_nl(a),
    ensures
        split_on(a + nl() + s2, nl()) == seq![a] + split_on(s2, nl()),
    decreases a.len(),
{
    let s = a + nl() + s2;
    if a.len() == 0 {
        assert(s[0] == 10u8);
        assert(s.take(1) =~= nl());
        assert(starts_with_spec(s, nl()));
        assert(s.skip(1) =~= s2);
        assert(seq![Seq::<u8>::empty()] + split_on(s2, nl()) =~~= seq![a] + split_on(s2, nl()));
    } else {
        assert(s[0] == a[0]);
        assert(s.take(1)[0] == s[0]);
        assert(nl()[0] == 10u8);
        assert(!starts_with_spec(s, nl()));
        assert(forall|k: int| 0 <= k < a.drop_first().len() ==> a.drop_first()[k] == a[k + 1]);
        assert(s.drop_first() =~= a.drop_first() + nl() + s2);
        lemma_split_nl_skipline(a.drop_first(), s2);
        let r = split_on(s.drop_first(), nl());
        assert(r[0] == a.drop_first());
        assert(seq![s[0]] + a.drop_first() =~= a);
        assert(r.drop_first() =~~= split_on(s2, nl()));
        assert(seq![seq![s[0]] + r[0]] + r.drop_first() =~~= seq![a] + split_on(s2, nl()));
    }
}

/// Splitting undoes joining of feed-free pieces.
proof fn lemma_split_join(ps: Seq<Seq<u8>>)
    requires
        ps.len() >= 1,
        forall|i: int| 0 <= i < ps.len() ==> no_nl(ps[i]),
    ensures
        split_on(join_on(ps, nl()), nl()) == ps,
    decreases ps.len(),
{
    if ps.len() == 1 {
        lemma_split_nl_single(ps[0]);
        assert(seq![ps[0]] =~~= ps);
    } else {
        assert(forall|i: int|
            0 <= i < ps.drop_first().len() ==> ps.drop_first()[i] == ps[i + 1]);
        lemma_split_join(ps.drop_first());
        assert(join_on(ps, nl()) == ps[0] + nl() + join_on(ps.drop_first(), nl()));
        lemma_split_nl_skipline(ps[0], join_on(ps.drop_first(), nl()));
        assert(seq![ps[0]] + ps.drop_first() =~~= ps);
    }
}

/// Stripping exception pieces distributes over concatenation.
proof fn lemma_strip_concat(a: Seq<Seq<u8>>, b: Seq<Seq<u8>>)
    ensures
        strip_exdate_sp(a + b) == strip_exdate_sp(a) + strip_exdate_sp(b),
    decreases b.len(),
{
    if b.len() == 0 {
        assert(a + b =~~= a);
        assert(strip_exdate_sp(b) =~~= Seq::<Seq<u8>>::empty());
        assert(strip_exdate_sp(a) + strip_exdate_sp(b) =~~= strip_exdate_sp(a));
    } else {
        assert((a + b).drop_last() =~~= a + b.drop_last());
        assert((a + b).last() == b.last());
        lemma_strip_concat(a, b.drop_last());
        assert((strip_exdate_sp(a) + strip_exdate_sp(b.drop_last())) + (if is_exdate_line(
            b.last(),
        ) {
            Seq::<Seq<u8>>::empty()
        } else {
            seq![b.last()]
        }) =~~= strip_exdate_sp(a) + (strip_exdate_sp(b.drop_last()) + (if is_exdate_line(
            b.last(),
        ) {
            Seq::<Seq<u8>>::empty()
        } else {
            seq![b.last()]
        })));
    }
}

/// Every stripped piece is one of the pieces stripped from.
proof fn lemma_strip_sub(ps: Seq<Seq<u8>>)
    ensures
        forall|j: int|
            0 <= j < strip_exdate_sp(ps).len() ==> exists|i: int|
                0 <= i < ps.len() && #[trigger] strip_exdate_sp(ps)[j] == ps[i],
    decreases ps.len(),
{
    if ps.len() == 0 {
    } else {
        lemma_strip_sub(ps.drop_last());
        assert(forall|i: int| 0 <= i < ps.drop_last().len() ==> ps.drop_last()[i] == ps[i]);
        let out = strip_exdate_sp(ps);
        let front = strip_exdate_sp(ps.drop_last());
        assert forall|j: int| 0 <= j < out.len() implies exists|i: int|
            0 <= i < ps.len() && #[trigger] out[j] == ps[i] by {
            if j < front.len() {
                assert(out[j] == front[j]);
                let i = choose|i: int| 0 <= i < ps.drop_last().len() && front[j]
                    == ps.drop_last()[i];
                assert(out[j] == ps[i]);
            } else {
                assert(out[j] == ps.last());
                assert(out[j] == ps[ps.len() - 1]);
            }
        };
    }
}

/// A successful rewrite rewrites piece by piece.
proof fn lemma_rewrite_index(ps: Seq<Seq<u8>>, qs: Seq<Seq<u8>>)
    requires
        rewrite_lines_sp(ps) == Ok::<Seq<Seq<u8>>, TransformError>(qs),
    ensures
        qs.len() == ps.len(),
        forall|i: int|
            0 <= i < ps.len() ==> rewrite_line_sp(ps[i]) == Ok::<Seq<u8>, TransformError>(qs[i]),
    decreases ps.len(),
{
    if ps.len() == 0 {
    } else {
        match rewrite_lines_sp(ps.drop_last()) {
            Err(e) => {
                assert(false);
            },
            Ok(rs) => {
                match rewrite_line_sp(ps.last()) {
                    Err(e) => {
                        assert(false);
                    },
                    Ok(l) => {
                        assert(qs == rs.push(l));
                        lemma_rewrite_index(ps.drop_last(), rs);
                        assert(forall|i: int|
                            0 <= i < ps.drop_last().len() ==> ps.drop_last()[i] == ps[i]);
                        assert(forall|i: int| 0 <= i < rs.len() ==> qs[i] == rs[i]);
                        assert(qs.last() == l);
                    },
                }
            },
        }
    }
}

/// The lines of joined feed-free pieces: each piece terminated, except a
/// final unterminated one; a final empty piece stands for the terminator of
/// the piece before it.
pub open spec fn reline(ps: Seq<Seq<u8>>) -> Seq<Seq<u8>>
    decreases ps.len(),
{
    if ps.len() == 0 {
        Seq::empty()
    } else if ps.len() == 1 {
        if ps[0].len() == 0 {
            Seq::empty()
        } else {
            seq![ps[0]]
        }
    } else {
        seq![ps[0].push(10u8)] + reline(ps.drop_first())
    }
}

proof fn lemma_lines_of_join(ps: Seq<Seq<u8>>)
    requires
        ps.len() >= 1,
        forall|i: int| 0 <= i < ps.len() ==> no_nl(ps[i]),
    ensures
        lines_of(join_on(ps, nl())) == reline(ps),
    decreases ps.len(),
{
    if ps.len() == 1 {
        if ps[0].len() == 0 {
            assert(lines_of(join_on(ps, nl())).len() == 0);
        } else {
            lemma_lines_of_single(ps[0]);
        }
    } else {
        assert(forall|i: int|
            0 <= i < ps.drop_first().len() ==> ps.drop_first()[i] == ps[i + 1]);
        lemma_lines_of_join(ps.drop_first());
        assert(join_on(ps, nl()) == ps[0] + nl() + join_on(ps.drop_first(), nl()));
        let a = ps[0].push(10u8);
        assert(complete_line(a)) by {
            assert(forall|k: int| 0 <= k < a.len() - 1 ==> a[k] == ps[0][k]);
        };
        assert(ps[0] + nl() =~= a);
        assert((ps[0] + nl()) + join_on(ps.drop_first(), nl()) =~= a + join_on(
            ps.drop_first(),
            nl(),
        ));
        lemma_lines_of_line(a, join_on(ps.drop_first(), nl()));
    }
}

proof fn lemma_reline_index(ps: Seq<Seq<u8>>)
    requires
        ps.len() >= 1,
    ensures
        ps.last().len() == 0 ==> (reline(ps).len() == ps.len() - 1 && forall|i: int|
            0 <= i < ps.len() - 1 ==> reline(ps)[i] == ps[i].push(10u8)),
        ps.last().len() > 0 ==> (reline(ps).len() == ps.len() && (forall|i: int|
            0 <= i < ps.len() - 1 ==> reline(ps)[i] == ps[i].push(10u8)) && reline(ps).last()
            == ps.last()),
    decreases ps.len(),
{
    if ps.len() == 1 {
    } else {
        assert(forall|i: int|
            0 <= i < ps.drop_first().len() ==> ps.drop_first()[i] == ps[i + 1]);
        lemma_reline_index(ps.drop_first());
        let out = seq![ps[0].push(10u8)] + reline(ps.drop_first());
        assert(forall|i: int| 1 <= i < out.len() ==> out[i] == reline(ps.drop_first())[i - 1]);
        assert(ps.drop_first().last() == ps.last());
    }
}

/// What the engine emits for a kept block reads back as one block: it opens
/// with a `BEGIN:VEVENT` line, closes with the first `END:VEVENT` line, and
/// its lines are terminated whenever the input block's were.
#[verifier::rlimit(80)]
proof fn lemma_block_render(bbl: Seq<Seq<u8>>, remove_exceptions: bool, out: Seq<u8>)
    requires
        bbl.len() >= 2,
        forall|i: int| 0 <= i < bbl.len() ==> line_shape(bbl[i]),
        forall|i: int| 0 <= i < bbl.len() - 1 ==> complete_line(bbl[i]),
        is_begin_line(bbl[0]),
        is_end_line(bbl.last()),
        forall|i: int| 1 <= i < bbl.len() - 1 ==> !is_end_line(bbl[i]),
        kept_render_sp(concat_all(bbl), remove_exceptions) == Ok::<Seq<u8>, TransformError>(out),
    ensures
        lines_of(out).len() >= 2,
        is_begin_line(lines_of(out)[0]),
        is_end_line(lines_of(out).last()),
        forall|i: int| 1 <= i < lines_of(out).len() - 1 ==> !is_end_line(lines_of(out)[i]),
        forall|i: int| 0 <= i < lines_of(out).len() ==> line_shape(lines_of(out)[i]),
        forall|i: int| 0 <= i < lines_of(out).len() - 1 ==> complete_line(lines_of(out)[i]),
        complete_line(bbl.last()) ==> forall|i: int|
            0 <= i < lines_of(out).len() ==> complete_line(lines_of(out)[i]),
{
    let ev = concat_all(bbl);
    lemma_split_block(bbl);
    let ps = split_on(ev, nl());
    lemma_chomp_index(bbl);
    let complete_last = complete_line(bbl.last());
    let e: int = if complete_last {
        ps.len() - 2
    } else {
        ps.len() - 1
    };
    assert(e == bbl.len() - 1);
    lemma_chomp_walk_flags(bbl[0]);
    assert(is_begin_line(ps[0]));
    if complete_last {
        lemma_chomp_walk_flags(bbl.last());
        assert(ps[e] == bbl.last().drop_last());
    }
    assert(is_end_line(ps[e]));
    assert(forall|i: int| 1 <= i < e ==> !is_end_line(#[trigger] ps[i])) by {
        assert forall|i: int| 1 <= i < e implies !is_end_line(#[trigger] ps[i]) by {
            lemma_chomp_walk_flags(bbl[i]);
        };
    };
    assert(forall|i: int| 0 <= i < ps.len() ==> no_nl(#[trigger] ps[i])) by {
        assert forall|i: int| 0 <= i < ps.len() implies no_nl(#[trigger] ps[i]) by {
            if i < bbl.len() && (complete_last || i < bbl.len() - 1) {
                assert(ps[i] == bbl[i].drop_last());
                assert(forall|k: int| 0 <= k < bbl[i].drop_last().len() ==> bbl[i].drop_last()[k]
                    == bbl[i][k]);
            } else if !complete_last && i == bbl.len() - 1 {
                assert(ps[i] == bbl.last());
                assert(bbl.last().last() != 10u8);
            } else {
                assert(ps[i] == Seq::<u8>::empty());
            }
        };
    };
    assert(ps.last().len() == 0 <==> complete_last) by {
        if !complete_last {
            assert(ps.last() == bbl.last());
        }
    };
    lemma_begin_flags(ps[0]);
    lemma_end_flags(ps[e]);
    // the pieces the rewrite is fed
    let ps1 = if remove_exceptions {
        strip_exdate_sp(ps)
    } else {
        ps
    };
    let mid = ps.subrange(1, e);
    let tailp = ps.subrange(e, ps.len() as int);
    if remove_exceptions {
        assert(ps =~~= seq![ps[0]] + mid + tailp);
        lemma_strip_concat(seq![ps[0]] + mid, tailp);
        lemma_strip_concat(seq![ps[0]], mid);
        assert(strip_exdate_sp(Seq::<Seq<u8>>::empty()) =~~= Seq::<Seq<u8>>::empty());
        assert(seq![ps[0]].drop_last() =~~= Seq::<Seq<u8>>::empty());
        assert(seq![ps[0]].last() == ps[0]);
        assert(strip_exdate_sp(seq![ps[0]]) =~~= seq![ps[0]]);
        if complete_last {
            assert(tailp =~~= seq![ps[e], Seq::<u8>::empty()]);
            let t1 = seq![ps[e], Seq::<u8>::empty()];
            assert(t1.drop_last() =~~= seq![ps[e]]);
            assert(t1.last() == Seq::<u8>::empty());
            assert(!is_exdate_line(Seq::<u8>::empty()));
            assert(seq![ps[e]].drop_last() =~~= Seq::<Seq<u8>>::empty());
            assert(strip_exdate_sp(seq![ps[e]]) =~~= seq![ps[e]]);
            assert(strip_exdate_sp(tailp) =~~= tailp);
        } else {
            assert(tailp =~~= seq![ps[e]]);
            assert(seq![ps[e]].drop_last() =~~= Seq::<Seq<u8>>::empty());
            assert(strip_exdate_sp(tailp) =~~= tailp);
        }
        assert(ps1 =~~= seq![ps[0]] + strip_exdate_sp(mid) + tailp);
        lemma_strip_sub(mid);
    } else {
        assert(ps1 =~~= seq![ps[0]] + mid + tailp);
    }
    let sm = if remove_exceptions {
        strip_exdate_sp(mid)
    } else {
        mid
    };
    assert(ps1 == seq![ps[0]] + sm + tailp);
    let e1: int = 1 + sm.len() as int;
    assert(ps1[0] == ps[0]);
    assert(ps1[e1] == tailp[0]);
    assert(tailp[0] == ps[e]);
    assert forall|j: int| 0 <= j < sm.len() implies exists|i: int|
        0 <= i < mid.len() && #[trigger] sm[j] == mid[i] by {
        if remove_exceptions {
            assert(exists|i: int| 0 <= i < mid.len() && strip_exdate_sp(mid)[j] == mid[i]);
            let i = choose|i: int| 0 <= i < mid.len() && strip_exdate_sp(mid)[j] == mid[i];
            assert(sm[j] == mid[i]);
        } else {
            assert(sm[j] == mid[j]);
        }
    };
    assert(forall|i: int| 0 <= i < mid.len() ==> mid[i] == ps[1 + i]);
    assert(forall|j: int| 1 <= j < e1 ==> (!is_end_line(#[trigger] ps1[j]) && no_nl(ps1[j]))) by {
        assert forall|j: int| 1 <= j < e1 implies (!is_end_line(#[trigger] ps1[j]) && no_nl(
            ps1[j],
        )) by {
            assert(ps1[j] == sm[j - 1]);
            let i = choose|i: int| 0 <= i < mid.len() && sm[j - 1] == mid[i];
            assert(ps1[j] == ps[1 + i]);
        };
    };
    assert(forall|j: int| 0 <= j < ps1.len() ==> no_nl(#[trigger] ps1[j])) by {
        assert forall|j: int| 0 <= j < ps1.len() implies no_nl(#[trigger] ps1[j]) by {
            if j == 0 {
            } else if j < e1 {
            } else {
                assert(ps1[j] == tailp[j - e1]);
                assert(tailp[j - e1] == ps[e + j - e1]);
            }
        };
    };
    assert(ps1.last() == ps.last());
    assert(ps1.len() == e1 + tailp.len());
    // the rewrite, piece by piece
    let base = if remove_exceptions {
        remove_exdates_sp(ev)
    } else {
        ev
    };
    if remove_exceptions {
        lemma_split_join(ps1);
        assert(split_on(base, nl()) == ps1);
    }
    match rewrite_lines_sp(split_on(base, nl())) {
        Err(err) => {
            assert(false);
        },
        Ok(qs) => {
            assert(out == join_on(qs, nl()));
            lemma_rewrite_index(ps1, qs);
            assert(forall|i: int| 0 <= i < qs.len() ==> (no_nl(#[trigger] qs[i]) && is_end_line(
                qs[i],
            ) == is_end_line(ps1[i]) && is_begin_line(qs[i]) == is_begin_line(ps1[i]) && (
            qs[i].len() == 0) == (ps1[i].len() == 0))) by {
                assert forall|i: int| 0 <= i < qs.len() implies (no_nl(#[trigger] qs[i])
                    && is_end_line(qs[i]) == is_end_line(ps1[i]) && is_begin_line(qs[i])
                    == is_begin_line(ps1[i]) && (qs[i].len() == 0) == (ps1[i].len() == 0)) by {
                    lemma_rewrite_line_facts(ps1[i], qs[i]);
                };
            };
            lemma_lines_of_join(qs);
            lemma_reline_index(qs);
            let bl = lines_of(out);
            assert(bl == reline(qs));
            assert((qs.last().len() == 0) == complete_last) by {
                assert(qs.last() == qs[qs.len() - 1]);
                assert(ps1[ps1.len() - 1] == ps1.last());
            };
            assert forall|i: int| 0 <= i < bl.len() implies line_shape(#[trigger] bl[i])
                && (i < bl.len() - 1 ==> complete_line(bl[i])) by {
                if i < bl.len() - 1 || (complete_last && i == bl.len() - 1) {
                    assert(bl[i] == qs[i].push(10u8));
                    lemma_push_nl_flags(qs[i]);
                } else {
                    assert(bl[i] == qs.last());
                    assert(qs.last().len() > 0);
                }
            };
            if complete_last {
                assert(bl.len() == qs.len() - 1);
                assert(e1 == qs.len() - 2);
                assert(bl.last() == qs[e1].push(10u8));
                lemma_push_nl_flags(qs[e1]);
                assert(is_end_line(bl.last()));
                lemma_push_nl_flags(qs[0]);
                assert(bl[0] == qs[0].push(10u8));
                assert(is_begin_line(bl[0]));
                assert forall|i: int| 1 <= i < bl.len() - 1 implies !is_end_line(
                    #[trigger] bl[i],
                ) by {
                    assert(bl[i] == qs[i].push(10u8));
                    lemma_push_nl_flags(qs[i]);
                };
                assert forall|i: int| 0 <= i < bl.len() implies complete_line(
                    #[trigger] bl[i],
                ) by {
                    assert(bl[i] == qs[i].push(10u8));
                    lemma_push_nl_flags(qs[i]);
                };
            } else {
                assert(bl.len() == qs.len());
                assert(e1 == qs.len() - 1);
                assert(bl.last() == qs.last());
                assert(is_end_line(bl.last()));
                lemma_push_nl_flags(qs[0]);
                assert(bl[0] == qs[0].push(10u8));
                assert(is_begin_line(bl[0]));
                assert forall|i: int| 1 <= i < bl.len() - 1 implies !is_end_line(
                    #[trigger] bl[i],
                ) by {
                    assert(bl[i] == qs[i].push(10u8));
                    lemma_push_nl_flags(qs[i]);
                };
            }
        },
    }
}

/// The lines of a document hold exactly its bytes.
proof fn lemma_concat_lines_of(s: Seq<u8>)
    ensures
        concat_all(lines_of(s)) == s,
    decreases s.len(),
{
    if s.len() == 0 {
    } else {
        lemma_concat_lines_of(s.drop_first());
        let r = lines_of(s.drop_first());
        if s[0] == 10u8 {
            let out = seq![seq![10u8]] + r;
            assert(out.drop_first() =~~= r);
            assert(seq![10u8] + s.drop_first() =~= s);
        } else if r.len() == 0 {
            assert(s.drop_first().len() == 0);
            let out = seq![seq![s[0]]];
            assert(out.drop_first() =~~= Seq::<Seq<u8>>::empty());
            assert(seq![s[0]] + Seq::<u8>::empty() =~= s);
        } else {
            let out = seq![seq![s[0]] + r[0]] + r.drop_first();
            assert(out.drop_first() =~~= r.drop_first());
            assert(concat_all(r) == r[0] + concat_all(r.drop_first()));
            assert((seq![s[0]] + r[0]) + concat_all(r.drop_first()) =~= seq![s[0]] + (r[0]
                + concat_all(r.drop_first())));
            assert(seq![s[0]] + s.drop_first() =~= s);
        }
    }
}

/// The induction behind pass-through fidelity: whatever the walk emits for
/// the remaining lines, its outside lines are the outside lines still to come
/// in the input.
proof fn lemma_fidelity_gen(
    ls: Seq<Seq<u8>>,
    buf: Option<Seq<u8>>,
    stl: Seq<Seq<u8>>,
    cutoff: DateTime,
    remove_exceptions: bool,
    y: Seq<u8>,
)
    requires
        doc_lines_wf(ls),
        transform_lines_rel(ls, buf, cutoff, remove_exceptions, Ok::<Seq<u8>, TransformError>(y)),
        buf matches Some(b) ==> {
            &&& b == concat_all(stl)
            &&& stl.len() >= 1
            &&& is_begin_line(stl[0])
            &&& (forall|i: int| 1 <= i < stl.len() ==> !is_end_line(stl[i]))
            &&& (forall|i: int| 0 <= i < stl.len() ==> line_shape(stl[i]))
            &&& (ls.len() > 0 ==> forall|i: int| 0 <= i < stl.len() ==> complete_line(stl[i]))
        },
    ensures
        outside_lines(lines_of(y), false) == outside_lines(ls, buf is Some),
    decreases ls.len(),
{
    if ls.len() == 0 {
        assert(y =~= Seq::<u8>::empty());
        assert(lines_of(y).len() == 0);
    } else {
        let l = ls[0];
        let rest = ls.drop_first();
        assert(forall|i: int| 0 <= i < rest.len() ==> rest[i] == ls[i + 1]);
        match buf {
            None => {
                if is_begin_line(l) {
                    assert(concat_all(seq![l].drop_first()) == Seq::<u8>::empty());
                    assert(l + Seq::<u8>::empty() =~= l);
                    assert(concat_all(seq![l]) == l);
                    lemma_fidelity_gen(rest, Some(l), seq![l], cutoff, remove_exceptions, y);
                } else {
                    let rest_y = y.skip(l.len() as int);
                    assert(y.take(l.len() as int) == l && transform_lines_rel(
                        rest,
                        None,
                        cutoff,
                        remove_exceptions,
                        Ok::<Seq<u8>, TransformError>(rest_y),
                    ));
                    assert(y =~= l + rest_y);
                    lemma_fidelity_gen(rest, None, stl, cutoff, remove_exceptions, rest_y);
                    if ls.len() > 1 {
                        lemma_lines_of_line(l, rest_y);
                        let out_ls = seq![l] + lines_of(rest_y);
                        assert(out_ls[0] == l);
                        assert(out_ls.drop_first() =~~= lines_of(rest_y));
                        assert(seq![l] + outside_lines(lines_of(rest_y), false) =~~= seq![l]
                            + outside_lines(rest, false));
                    } else {
                        assert(rest_y =~= Seq::<u8>::empty());
                        assert(y =~= l);
                        lemma_lines_of_single(l);
                        let out_ls = seq![l];
                        assert(out_ls[0] == l);
                        assert(out_ls.drop_first() =~~= lines_of(rest_y));
                    }
                }
            },
            Some(b) => {
                let b2 = b + l;
                if !is_end_line(l) {
                    lemma_concat_push(stl, l);
                    assert(forall|i: int| 0 <= i < stl.len() ==> stl.push(l)[i] == stl[i]);
                    assert(stl.push(l)[stl.len() as int] == l);
                    lemma_fidelity_gen(
                        rest,
                        Some(b2),
                        stl.push(l),
                        cutoff,
                        remove_exceptions,
                        y,
                    );
                } else {
                    let bbl = stl.push(l);
                    lemma_concat_push(stl, l);
                    assert(concat_all(bbl) == b2);
                    assert(forall|i: int| 0 <= i < stl.len() ==> bbl[i] == stl[i]);
                    assert(bbl[stl.len() as int] == l);
                    let dropped_ok = transform_lines_rel(
                        rest,
                        None,
                        cutoff,
                        remove_exceptions,
                        Ok::<Seq<u8>, TransformError>(y),
                    );
                    if (verdict_open(b2) && dropped_ok) || (!verdict_open(b2) && evaluate_sp(
                        b2,
                        cutoff,
                        remove_exceptions,
                    ) == Ok::<Option<Seq<u8>>, TransformError>(None)) {
                        lemma_fidelity_gen(
                            rest,
                            None,
                            Seq::empty(),
                            cutoff,
                            remove_exceptions,
                            y,
                        );
                    } else {
                        {
                            assert(kept_render_sp(b2, remove_exceptions) is Ok);
                            let o = kept_render_sp(b2, remove_exceptions)->Ok_0;
                            let rest_y = y.skip(o.len() as int);
                            assert(y.take(o.len() as int) == o && transform_lines_rel(
                                rest,
                                None,
                                cutoff,
                                remove_exceptions,
                                Ok::<Seq<u8>, TransformError>(rest_y),
                            ));
                            assert(y =~= o + rest_y);
                            lemma_fidelity_gen(
                                rest,
                                None,
                                Seq::empty(),
                                cutoff,
                                remove_exceptions,
                                rest_y,
                            );
                            lemma_begin_not_end(bbl[0]);
                            lemma_block_render(bbl, remove_exceptions, o);
                            let bl = lines_of(o);
                            lemma_concat_lines_of(o);
                            if ls.len() > 1 {
                                lemma_lines_of_concat_plus(bl, rest_y);
                                assert(concat_all(bl) + rest_y =~= y);
                                assert(lines_of(y) =~~= bl + lines_of(rest_y));
                                lemma_outside_block(bl, lines_of(rest_y));
                            } else {
                                assert(rest_y =~= Seq::<u8>::empty());
                                assert(y =~= o);
                                assert(lines_of(rest_y).len() == 0);
                                assert(lines_of(y) =~~= bl + lines_of(rest_y));
                                lemma_outside_block(bl, lines_of(rest_y));
                            }
                        }
                    }
                }
            },
        }
    }
}

/// Pass-through fidelity: whatever the cutoff, the exception flag, and the
/// evaluator's machine decide for the events, the lines outside any event
/// appear in the output byte-identical and in their original order.
pub proof fn transform_preserves_outside_lines(
    input: Seq<u8>,
    cutoff: DateTime,
    remove_exceptions: bool,
    y: Seq<u8>,
)
    requires
        transform_rel(input, cutoff, remove_exceptions, Ok::<Seq<u8>, TransformError>(y)),
    ensures
        outside_lines(lines_of(y), false) == outside_lines(lines_of(input), false),
{
    lemma_lines_of_wf(input);
    lemma_fidelity_gen(lines_of(input), None, Seq::empty(), cutoff, remove_exceptions, y);
}

/// Two runs over the same document, with any two cutoffs, exception flags and
/// evaluator verdicts, agree on every line outside the events.
pub proof fn pass_through_fidelity(
    input: Seq<u8>,
    c1: DateTime,
    r1: bool,
    c2: DateTime,
    r2: bool,
    y1: Seq<u8>,
    y2: Seq<u8>,
)
    requires
        transform_rel(input, c1, r1, Ok::<Seq<u8>, TransformError>(y1)),
        transform_rel(input, c2, r2, Ok::<Seq<u8>, TransformError>(y2)),
    ensures
        outside_lines(lines_of(y1), false) == outside_lines(lines_of(y2), false),
        outside_lines(lines_of(y1), false) == outside_lines(lines_of(input), false),
{
    transform_preserves_outside_lines(input, c1, r1, y1);
    transform_preserves_outside_lines(input, c2, r2, y2);
}

/// When no event of the document leaves its verdict to the evaluator's
/// machine, the walk allows exactly one result.
pub proof fn lemma_rel_det(
    ls: Seq<Seq<u8>>,
    buf: Option<Seq<u8>>,
    cutoff: DateTime,
    remove_exceptions: bool,
    r: Result<Seq<u8>, TransformError>,
)
    requires
        transform_lines_rel(ls, buf, cutoff, remove_exceptions, r),
        blocks_decided(ls, buf),
    ensures
        r == transform_lines_sp(ls, buf, cutoff, remove_exceptions),
    decreases ls.len(),
{
    if ls.len() == 0 {
    } else {
        let l = ls[0];
        let rest = ls.drop_first();
        match buf {
            None => {
                if is_begin_line(l) {
                    assert(event_blocks(ls, buf) =~~= event_blocks(rest, Some(l)));
                    lemma_rel_det(rest, Some(l), cutoff, remove_exceptions, r);
                } else {
                    assert(event_blocks(ls, buf) =~~= event_blocks(rest, None));
                    match r {
                        Err(e) => {
                            lemma_rel_det(
                                rest,
                                None,
                                cutoff,
                                remove_exceptions,
                                Err::<Seq<u8>, TransformError>(e),
                            );
                        },
                        Ok(y) => {
                            lemma_rel_det(
                                rest,
                                None,
                                cutoff,
                                remove_exceptions,
                                Ok::<Seq<u8>, TransformError>(y.skip(l.len() as int)),
                            );
                            assert(y =~= l + y.skip(l.len() as int));
                        },
                    }
                }
            },
            Some(b) => {
                let b2 = b + l;
                if is_end_line(l) {
                    let blocks = event_blocks(ls, buf);
                    assert(blocks[0] == b2);
                    assert(!verdict_open(b2));
                    assert(blocks_decided(rest, None)) by {
                        assert(forall|i: int|
                            0 <= i < event_blocks(rest, None).len() ==> #[trigger] event_blocks(
                                rest,
                                None,
                            )[i] == blocks[i + 1]);
                    };
                    match evaluate_sp(b2, cutoff, remove_exceptions) {
                        Err(e) => {},
                        Ok(None) => {
                            lemma_rel_det(rest, None, cutoff, remove_exceptions, r);
                        },
                        Ok(Some(o)) => {
                            match r {
                                Err(e) => {
                                    lemma_rel_det(
                                        rest,
                                        None,
                                        cutoff,
                                        remove_exceptions,
                                        Err::<Seq<u8>, TransformError>(e),
                                    );
                                },
                                Ok(y) => {
                                    lemma_rel_det(
                                        rest,
                                        None,
                                        cutoff,
                                        remove_exceptions,
                                        Ok::<Seq<u8>, TransformError>(y.skip(o.len() as int)),
                                    );
                                    assert(y =~= o + y.skip(o.len() as int));
                                },
                            }
                        },
                    }
                } else {
                    assert(event_blocks(ls, buf) =~~= event_blocks(rest, Some(b2)));
                    lemma_rel_det(rest, Some(b2), cutoff, remove_exceptions, r);
                }
            },
        }
    }
}

/// The settled result is one the walk allows.
pub proof fn lemma_rel_of_sp(
    ls: Seq<Seq<u8>>,
    buf: Option<Seq<u8>>,
    cutoff: DateTime,
    remove_exceptions: bool,
)
    ensures
        transform_lines_rel(
            ls,
            buf,
            cutoff,
            remove_exceptions,
            transform_lines_sp(ls, buf, cutoff, remove_exceptions),
        ),
    decreases ls.len(),
{
    if ls.len() == 0 {
    } else {
        let l = ls[0];
        let rest = ls.drop_first();
        let sp_rest = transform_lines_sp(rest, None, cutoff, remove_exceptions);
        match buf {
            None => {
                if is_begin_line(l) {
                    lemma_rel_of_sp(rest, Some(l), cutoff, remove_exceptions);
                } else {
                    lemma_rel_of_sp(rest, None, cutoff, remove_exceptions);
                    match sp_rest {
                        Err(e) => {},
                        Ok(ry) => {
                            assert((l + ry).take(l.len() as int) =~= l);
                            assert((l + ry).skip(l.len() as int) =~= ry);
                        },
                    }
                }
            },
            Some(b) => {
                let b2 = b + l;
                if is_end_line(l) {
                    lemma_rel_of_sp(rest, None, cutoff, remove_exceptions);
                    match evaluate_sp(b2, cutoff, remove_exceptions) {
                        Err(e) => {},
                        Ok(None) => {},
                        Ok(Some(o)) => {
                            match sp_rest {
                                Err(e) => {},
                                Ok(ry) => {
                                    assert((o + ry).take(o.len() as int) =~= o);
                                    assert((o + ry).skip(o.len() as int) =~= ry);
                                },
                            }
                        },
                    }
                } else {
                    lemma_rel_of_sp(rest, Some(b2), cutoff, remove_exceptions);
                }
            },
        }
    }
}

} // verus!
