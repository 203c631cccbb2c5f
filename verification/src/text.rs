//! Byte-level text utilities: prefix tests, substring search, splitting and
//! joining on separators, and the line structure of a document.
//!
//! A document is a sequence of bytes; its lines are the segments ending with a
//! line feed (byte 10), with a possibly unterminated final line.
use vstd::prelude::*;

verus! {

/// `p` is a prefix of `s`.
pub open spec fn starts_with_spec(s: Seq<u8>, p: Seq<u8>) -> bool {
    p.len() <= s.len() && s.take(p.len() as int) == p
}

/// `p` occurs somewhere in `s` as a contiguous subsequence.
pub open spec fn contains_sub(s: Seq<u8>, p: Seq<u8>) -> bool
    decreases s.len(),
{
    starts_with_spec(s, p) || (s.len() > 0 && contains_sub(s.drop_first(), p))
}

/// The pieces of `s` between non-overlapping leftmost occurrences of `sep`,
/// as `str::split` yields them: splitting never yields zero pieces, and a
/// separator at the very end yields a final empty piece.
pub open spec fn split_on(s: Seq<u8>, sep: Seq<u8>) -> Seq<Seq<u8>>
    decreases s.len(),
{
    if sep.len() == 0 || s.len() < sep.len() {
        seq![s]
    } else if starts_with_spec(s, sep) {
        seq![Seq::<u8>::empty()] + split_on(s.skip(sep.len() as int), sep)
    } else {
        let r = split_on(s.drop_first(), sep);
        seq![seq![s[0]] + r[0]] + r.drop_first()
    }
}

/// The pieces glued back together with `sep` between adjacent ones.
pub open spec fn join_on(parts: Seq<Seq<u8>>, sep: Seq<u8>) -> Seq<u8>
    decreases parts.len(),
{
    if parts.len() == 0 {
        Seq::empty()
    } else if parts.len() == 1 {
        parts[0]
    } else {
        parts[0] + sep + join_on(parts.drop_first(), sep)
    }
}

/// The lines of `s`: each ends with byte 10 except possibly the last, and the
/// bytes of the lines in order are exactly `s`.
pub open spec fn lines_of(s: Seq<u8>) -> Seq<Seq<u8>>
    decreases s.len(),
{
    if s.len() == 0 {
        Seq::empty()
    } else if s[0] == 10u8 {
        seq![seq![10u8]] + lines_of(s.drop_first())
    } else {
        let r = lines_of(s.drop_first());
        if r.len() == 0 {
            seq![seq![s[0]]]
        } else {
            seq![seq![s[0]] + r[0]] + r.drop_first()
        }
    }
}

pub proof fn lemma_split_on_len(s: Seq<u8>, sep: Seq<u8>)
    ensures
        split_on(s, sep).len() >= 1,
    decreases s.len(),
{
    if sep.len() == 0 || s.len() < sep.len() {
    } else if starts_with_spec(s, sep) {
    } else {
        lemma_split_on_len(s.drop_first(), sep);
    }
}

/// Joining undoes splitting.
pub proof fn lemma_join_split(s: Seq<u8>, sep: Seq<u8>)
    ensures
        join_on(split_on(s, sep), sep) == s,
    decreases s.len(),
{
    if sep.len() == 0 || s.len() < sep.len() {
    } else if starts_with_spec(s, sep) {
        lemma_join_split(s.skip(sep.len() as int), sep);
        let rest = split_on(s.skip(sep.len() as int), sep);
        lemma_split_on_len(s.skip(sep.len() as int), sep);
        let parts = seq![Seq::<u8>::empty()] + rest;
        assert(parts.drop_first() =~= rest);
        assert(parts.len() >= 2);
        assert(join_on(parts, sep) == parts[0] + sep + join_on(rest, sep));
        assert(parts[0] + sep + s.skip(sep.len() as int) =~= s);
    } else {
        lemma_join_split(s.drop_first(), sep);
        let r = split_on(s.drop_first(), sep);
        lemma_split_on_len(s.drop_first(), sep);
        let parts = seq![seq![s[0]] + r[0]] + r.drop_first();
        if r.len() == 1 {
            assert(parts.len() == 1);
            assert(join_on(parts, sep) == seq![s[0]] + r[0]);
            assert(join_on(r, sep) == r[0]);
            assert(seq![s[0]] + s.drop_first() =~= s);
        } else {
            assert(parts.drop_first() =~= r.drop_first());
            assert(join_on(parts, sep) == parts[0] + sep + join_on(r.drop_first(), sep));
            assert(join_on(r, sep) == r[0] + sep + join_on(r.drop_first(), sep));
            assert(parts[0] + sep + join_on(r.drop_first(), sep) =~= seq![s[0]] + (r[0] + sep
                + join_on(r.drop_first(), sep)));
            assert(seq![s[0]] + s.drop_first() =~= s);
        }
    }
}

/// Equality of two byte slices.
pub fn bytes_eq(a: &[u8], b: &[u8]) -> (r: bool)
    ensures
        r == (a@ == b@),
{
    if a.len() != b.len() {
        assert(a@ != b@);
        return false;
    }
    let mut j: usize = 0;
    while j < a.len()
        invariant
            j <= a.len(),
            a@.len() == b@.len(),
            forall|k: int| 0 <= k < j ==> a@[k] == b@[k],
        decreases a.len() - j,
    {
        if a[j] != b[j] {
            return false;
        }
        j = j + 1;
    }
    proof {
        assert(a@ =~= b@);
    }
    true
}

/// Whether `p` occurs at position `i` of `s`.
pub fn match_at(s: &[u8], i: usize, p: &[u8]) -> (r: bool)
    requires
        i <= s@.len(),
    ensures
        r == starts_with_spec(s@.skip(i as int), p@),
{
    if s.len() - i < p.len() {
        return false;
    }
    let mut j: usize = 0;
    while j < p.len()
        invariant
            j <= p.len(),
            i + p.len() <= s.len(),
            forall|k: int| 0 <= k < j ==> s@[i + k] == p@[k],
        decreases p.len() - j,
    {
        if s[i + j] != p[j] {
            proof {
                assert(s@.skip(i as int).take(p@.len() as int)[j as int] == s@[i + j]);
            }
            return false;
        }
        j = j + 1;
    }
    proof {
        assert(s@.skip(i as int).take(p@.len() as int) =~= p@);
    }
    true
}

pub fn starts_with_bytes(s: &[u8], p: &[u8]) -> (r: bool)
    ensures
        r == starts_with_spec(s@, p@),
{
    let r = match_at(s, 0, p);
    proof {
        assert(s@.skip(0) =~= s@);
    }
    r
}

pub fn contains_bytes(s: &[u8], p: &[u8]) -> (r: bool)
    requires
        p@.len() >= 1,
    ensures
        r == contains_sub(s@, p@),
{
    let mut i: usize = 0;
    proof {
        assert(s@.skip(0) =~= s@);
    }
    while i < s.len()
        invariant
            i <= s.len(),
            p@.len() >= 1,
            contains_sub(s@, p@) == contains_sub(s@.skip(i as int), p@),
        decreases s.len() - i,
    {
        if match_at(s, i, p) {
            return true;
        }
        proof {
            assert(s@.skip(i as int).drop_first() =~= s@.skip(i + 1));
        }
        i = i + 1;
    }
    proof {
        assert(s@.skip(i as int).len() == 0);
    }
    false
}

/// Appends all of `src` to `dst`.
pub fn append_bytes(dst: &mut Vec<u8>, src: &[u8])
    ensures
        final(dst)@ == old(dst)@ + src@,
{
    let mut j: usize = 0;
    while j < src.len()
        invariant
            j <= src.len(),
            dst@ == old(dst)@ + src@.take(j as int),
        decreases src.len() - j,
    {
        dst.push(src[j]);
        proof {
            assert(old(dst)@ + src@.take(j + 1) =~= (old(dst)@ + src@.take(j as int)).push(
                src@[j as int]));
        }
        j = j + 1;
    }
    proof {
        assert(src@.take(src@.len() as int) =~= src@);
    }
}

/// The views of the vectors held in `vs`.
pub open spec fn views_of(vs: Seq<Vec<u8>>) -> Seq<Seq<u8>> {
    vs.map_values(|v: Vec<u8>| v@)
}

/// The split still to be produced once `c` holds the bytes of a piece already
/// read and `r` is the split of the remaining input.
pub open spec fn shift_first(r: Seq<Seq<u8>>, c: Seq<u8>) -> Seq<Seq<u8>> {
    if r.len() == 0 {
        seq![c]
    } else {
        seq![c + r[0]] + r.drop_first()
    }
}

pub fn split_bytes(s: &[u8], sep: &[u8]) -> (r: Vec<Vec<u8>>)
    requires
        1 <= sep@.len(),
    ensures
        views_of(r@) == split_on(s@, sep@),
{
    let mut parts: Vec<Vec<u8>> = Vec::new();
    let mut cur: Vec<u8> = Vec::new();
    let mut i: usize = 0;
    proof {
        assert(s@.skip(0) =~= s@);
        lemma_split_on_len(s@, sep@);
        assert(views_of(parts@) + shift_first(split_on(s@, sep@), cur@) =~~= split_on(s@, sep@));
    }
    while i < s.len()
        invariant
            i <= s.len(),
            1 <= sep@.len(),
            views_of(parts@) + shift_first(split_on(s@.skip(i as int), sep@), cur@) == split_on(
                s@,
                sep@,
            ),
        decreases s.len() - i,
    {
        proof {
            lemma_split_on_len(s@.skip(i as int), sep@);
        }
        if match_at(s, i, sep) {
            let ghost old_parts = parts@;
            let ghost old_cur = cur@;
            parts.push(cur);
            cur = Vec::new();
            i = i + sep.len();
            proof {
                let rest = split_on(s@.skip(i as int), sep@);
                lemma_split_on_len(s@.skip(i as int), sep@);
                assert(s@.skip(i - sep@.len()).skip(sep@.len() as int) =~= s@.skip(i as int));
                assert(split_on(s@.skip(i - sep@.len()), sep@) =~~= seq![Seq::<u8>::empty()]
                    + rest);
                assert(views_of(parts@) =~~= views_of(old_parts).push(old_cur));
                assert(views_of(old_parts) + shift_first(seq![Seq::<u8>::empty()] + rest, old_cur)
                    =~~= views_of(parts@) + shift_first(rest, Seq::<u8>::empty()));
            }
        } else {
            let ghost old_cur = cur@;
            cur.push(s[i]);
            i = i + 1;
            proof {
                let r = split_on(s@.skip(i as int), sep@);
                lemma_split_on_len(s@.skip(i as int), sep@);
                assert(s@.skip(i - 1).drop_first() =~= s@.skip(i as int));
                assert(s@.skip(i - 1)[0] == s@[i - 1]);
                assert(split_on(s@.skip(i - 1), sep@) =~~= seq![seq![s@[i - 1]] + r[0]]
                    + r.drop_first());
                assert(cur@ =~= old_cur.push(s@[i - 1]));
                assert(shift_first(split_on(s@.skip(i - 1), sep@), old_cur) =~~= shift_first(
                    r,
                    cur@,
                ));
            }
        }
    }
    proof {
        assert(s@.skip(i as int).len() == 0);
        assert(split_on(s@.skip(i as int), sep@) =~~= seq![Seq::<u8>::empty()]);
    }
    let ghost old_parts = parts@;
    let ghost old_cur = cur@;
    parts.push(cur);
    proof {
        assert(views_of(parts@) =~~= views_of(old_parts).push(old_cur));
        assert(views_of(old_parts) + shift_first(seq![Seq::<u8>::empty()], old_cur) =~~= views_of(
            parts@,
        ));
    }
    parts
}

pub proof fn lemma_join_push(p: Seq<Seq<u8>>, x: Seq<u8>, sep: Seq<u8>)
    ensures
        join_on(p.push(x), sep) == if p.len() == 0 {
            x
        } else {
            join_on(p, sep) + sep + x
        },
    decreases p.len(),
{
    if p.len() == 0 {
        assert(p.push(x).len() == 1);
        assert(p.push(x)[0] == x);
    } else {
        lemma_join_push(p.drop_first(), x, sep);
        assert(p.push(x).drop_first() =~~= p.drop_first().push(x));
        assert(p.push(x).len() >= 2);
        assert(join_on(p.push(x), sep) == p[0] + sep + join_on(p.drop_first().push(x), sep));
        if p.len() == 1 {
            assert(p.drop_first().len() == 0);
            assert(join_on(p.drop_first().push(x), sep) == x);
            assert(join_on(p, sep) == p[0]);
        } else {
            assert(join_on(p.drop_first().push(x), sep) == join_on(p.drop_first(), sep) + sep + x);
            assert(p[0] + sep + (join_on(p.drop_first(), sep) + sep + x) =~= (p[0] + sep + join_on(
                p.drop_first(),
                sep,
            )) + sep + x);
        }
    }
}

pub fn join_bytes(parts: &Vec<Vec<u8>>, sep: &[u8]) -> (r: Vec<u8>)
    ensures
        r@ == join_on(views_of(parts@), sep@),
{
    let mut acc: Vec<u8> = Vec::new();
    let mut i: usize = 0;
    while i < parts.len()
        invariant
            i <= parts.len(),
            acc@ == join_on(views_of(parts@).take(i as int), sep@),
        decreases parts.len() - i,
    {
        let ghost pv = views_of(parts@);
        if i > 0 {
            append_bytes(&mut acc, sep);
        }
        append_bytes(&mut acc, parts[i].as_slice());
        proof {
            assert(pv.take(i + 1) =~~= pv.take(i as int).push(pv[i as int]));
            lemma_join_push(pv.take(i as int), pv[i as int], sep@);
            assert(pv.take(i as int).len() == i);
        }
        i = i + 1;
    }
    proof {
        assert(views_of(parts@).take(parts@.len() as int) =~~= views_of(parts@));
    }
    acc
}

/// The lines still to be produced once `c` holds the bytes of a line already
/// read and `r` holds the lines of the remaining input.
pub open spec fn shift_line(r: Seq<Seq<u8>>, c: Seq<u8>) -> Seq<Seq<u8>> {
    if c.len() == 0 {
        r
    } else if r.len() == 0 {
        seq![c]
    } else {
        seq![c + r[0]] + r.drop_first()
    }
}

pub fn read_lines(s: &[u8]) -> (r: Vec<Vec<u8>>)
    ensures
        views_of(r@) == lines_of(s@),
{
    let mut lines: Vec<Vec<u8>> = Vec::new();
    let mut cur: Vec<u8> = Vec::new();
    let mut i: usize = 0;
    proof {
        assert(s@.skip(0) =~= s@);
        assert(views_of(lines@) + shift_line(lines_of(s@), cur@) =~~= lines_of(s@));
    }
    while i < s.len()
        invariant
            i <= s.len(),
            views_of(lines@) + shift_line(lines_of(s@.skip(i as int)), cur@) == lines_of(s@),
        decreases s.len() - i,
    {
        let b = s[i];
        let ghost old_lines = lines@;
        let ghost old_cur = cur@;
        cur.push(b);
        if b == 10 {
            lines.push(cur);
            cur = Vec::new();
        }
        i = i + 1;
        proof {
            let r = lines_of(s@.skip(i as int));
            assert(s@.skip(i - 1).drop_first() =~= s@.skip(i as int));
            assert(s@.skip(i - 1)[0] == s@[i - 1]);
            if b == 10 {
                assert(lines_of(s@.skip(i - 1)) =~~= seq![seq![10u8]] + r);
                assert(views_of(lines@) =~~= views_of(old_lines).push(old_cur.push(10u8)));
                assert(old_cur.push(10u8) =~= old_cur + seq![10u8]);
                assert(views_of(old_lines) + shift_line(seq![seq![10u8]] + r, old_cur) =~~=
                    views_of(lines@) + shift_line(r, Seq::<u8>::empty()));
            } else {
                assert(lines_of(s@.skip(i - 1)) =~~= shift_line(r, seq![s@[i - 1]]));
                assert(cur@ =~= old_cur + seq![s@[i - 1]]);
                assert(shift_line(shift_line(r, seq![s@[i - 1]]), old_cur) =~~= shift_line(
                    r,
                    cur@,
                ));
            }
        }
    }
    proof {
        assert(s@.skip(i as int).len() == 0);
        assert(lines_of(s@.skip(i as int)) =~~= Seq::<Seq<u8>>::empty());
    }
    if cur.len() > 0 {
        let ghost old_lines = lines@;
        let ghost old_cur = cur@;
        lines.push(cur);
        proof {
            assert(views_of(lines@) =~~= views_of(old_lines).push(old_cur));
        }
    }
    lines
}

} // verus!
