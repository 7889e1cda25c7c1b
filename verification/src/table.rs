//! The delimited-text grammar shared by every table and matrix the pipeline
//! touches: splitting on a delimiter byte, joining fields, stripping quote
//! bytes, converting delimiters, and breaking a text into lines.

use vstd::prelude::*;

verus! {

pub const COMMA: u8 = 44;
pub const TAB: u8 = 9;
pub const NEWLINE: u8 = 10;
pub const QUOTE: u8 = 34;

/// The sequence of field views of a vector of byte strings.
pub open spec fn views_of(vs: Seq<Vec<u8>>) -> Seq<Seq<u8>> {
    Seq::new(vs.len(), |i: int| vs[i]@)
}

/// The fields of `s` split on the delimiter `d`.  There is always at least
/// one field; a delimiter at the end opens a final empty field.
pub open spec fn split_on(s: Seq<u8>, d: u8) -> Seq<Seq<u8>>
    decreases s.len(),
{
    if s.len() == 0 {
        seq![Seq::<u8>::empty()]
    } else if s.last() == d {
        split_on(s.drop_last(), d).push(Seq::<u8>::empty())
    } else {
        let r = split_on(s.drop_last(), d);
        r.update(r.len() - 1, r.last().push(s.last()))
    }
}

pub proof fn lemma_split_on_len(s: Seq<u8>, d: u8)
    ensures
        split_on(s, d).len() >= 1,
    decreases s.len(),
{
    if s.len() > 0 {
        lemma_split_on_len(s.drop_last(), d);
    }
}

/// `s` with every quote byte removed.
pub open spec fn strip_quotes(s: Seq<u8>) -> Seq<u8>
    decreases s.len(),
{
    if s.len() == 0 {
        Seq::<u8>::empty()
    } else if s.last() == QUOTE {
        strip_quotes(s.drop_last())
    } else {
        strip_quotes(s.drop_last()).push(s.last())
    }
}

/// `s` with every occurrence of the byte `from` replaced by `to`.
pub open spec fn swap_delims(s: Seq<u8>, from: u8, to: u8) -> Seq<u8>
    decreases s.len(),
{
    if s.len() == 0 {
        Seq::<u8>::empty()
    } else {
        swap_delims(s.drop_last(), from, to).push(
            if s.last() == from { to } else { s.last() },
        )
    }
}

/// The fields joined with a single delimiter byte between neighbours.
pub open spec fn join_on(fs: Seq<Seq<u8>>, d: u8) -> Seq<u8>
    decreases fs.len(),
{
    if fs.len() == 0 {
        Seq::<u8>::empty()
    } else if fs.len() == 1 {
        fs[0]
    } else {
        join_on(fs.drop_last(), d).push(d) + fs.last()
    }
}

/// The lines of a text: newline-separated fields, without the empty field a
/// trailing newline would open.
pub open spec fn lines_of(s: Seq<u8>) -> Seq<Seq<u8>> {
    let raw = split_on(s, NEWLINE);
    if raw.len() > 0 && raw.last().len() == 0 {
        raw.drop_last()
    } else {
        raw
    }
}

/// Whether two byte strings hold the same bytes.
pub fn bytes_eq(a: &[u8], b: &[u8]) -> (r: bool)
    ensures
        r == (a@ == b@),
{
    if a.len() != b.len() {
        proof {
            assert(a@.len() != b@.len());
        }
        return false;
    }
    let mut i: usize = 0;
    while i < a.len()
        invariant
            i <= a.len(),
            a.len() == b.len(),
            forall|j: int| 0 <= j < i ==> a@[j] == b@[j],
        decreases a.len() - i,
    {
        if a[i] != b[i] {
            return false;
        }
        i = i + 1;
    }
    proof {
        assert(a@ =~= b@);
    }
    true
}

/// Appends every byte of `src` to `dst`.
pub fn push_all(dst: &mut Vec<u8>, src: &[u8])
    ensures
        final(dst)@ == old(dst)@ + src@,
{
    let mut i: usize = 0;
    while i < src.len()
        invariant
            i <= src.len(),
            dst@ == old(dst)@ + src@.take(i as int),
        decreases src.len() - i,
    {
        dst.push(src[i]);
        i = i + 1;
        proof {
            assert(old(dst)@ + src@.take(i as int) =~= (old(dst)@ + src@.take(
                i as int - 1,
            )).push(src@[i as int - 1]));
        }
    }
    proof {
        assert(src@.take(src@.len() as int) =~= src@);
    }
}

/// Splits one line into its fields on the delimiter `d`.
pub fn split_line(line: &[u8], d: u8) -> (r: Vec<Vec<u8>>)
    ensures
        views_of(r@) == split_on(line@, d),
        r@.len() >= 1,
{
    let mut fields: Vec<Vec<u8>> = Vec::new();
    let mut cur: Vec<u8> = Vec::new();
    let mut i: usize = 0;
    proof {
        assert(line@.take(0) =~= Seq::<u8>::empty());
        assert(views_of(fields@).push(cur@) =~= split_on(line@.take(0), d));
    }
    while i < line.len()
        invariant
            i <= line.len(),
            views_of(fields@).push(cur@) == split_on(line@.take(i as int), d),
        decreases line.len() - i,
    {
        let ghost pre = line@.take(i as int);
        let b = line[i];
        if b == d {
            let ghost old_fields = fields@;
            let ghost old_cur = cur@;
            fields.push(cur);
            cur = Vec::new();
            proof {
                assert(views_of(fields@) =~= views_of(old_fields).push(old_cur));
            }
        } else {
            let ghost old_fields = fields@;
            let ghost old_cur = cur@;
            cur.push(b);
            proof {
                let r0 = split_on(pre, d);
                assert(r0 == views_of(old_fields).push(old_cur));
                assert(r0.update(r0.len() - 1, r0.last().push(b)) =~= views_of(
                    old_fields,
                ).push(old_cur.push(b)));
            }
        }
        i = i + 1;
        proof {
            assert(line@.take(i as int).drop_last() =~= line@.take(i as int - 1));
            assert(line@.take(i as int).last() == line@[i as int - 1]);
        }
    }
    proof {
        assert(line@.take(line@.len() as int) =~= line@);
    }
    let ghost done_fields = fields@;
    let ghost done_cur = cur@;
    fields.push(cur);
    proof {
        assert(views_of(fields@) =~= views_of(done_fields).push(done_cur));
    }
    fields
}

/// `s` with quote bytes removed, as a fresh vector.
pub fn strip_quotes_bytes(s: &[u8]) -> (r: Vec<u8>)
    ensures
        r@ == strip_quotes(s@),
{
    let mut out: Vec<u8> = Vec::new();
    let mut i: usize = 0;
    proof {
        assert(s@.take(0) =~= Seq::<u8>::empty());
    }
    while i < s.len()
        invariant
            i <= s.len(),
            out@ == strip_quotes(s@.take(i as int)),
        decreases s.len() - i,
    {
        let b = s[i];
        if b != QUOTE {
            out.push(b);
        }
        i = i + 1;
        proof {
            assert(s@.take(i as int).drop_last() =~= s@.take(i as int - 1));
            assert(s@.take(i as int).last() == s@[i as int - 1]);
        }
    }
    proof {
        assert(s@.take(s@.len() as int) =~= s@);
    }
    out
}

/// `s` with every `from` byte turned into `to`, as a fresh vector.
pub fn swap_delims_bytes(s: &[u8], from: u8, to: u8) -> (r: Vec<u8>)
    ensures
        r@ == swap_delims(s@, from, to),
{
    let mut out: Vec<u8> = Vec::new();
    let mut i: usize = 0;
    proof {
        assert(s@.take(0) =~= Seq::<u8>::empty());
    }
    while i < s.len()
        invariant
            i <= s.len(),
            out@ == swap_delims(s@.take(i as int), from, to),
        decreases s.len() - i,
    {
        let b = s[i];
        if b == from {
            out.push(to);
        } else {
            out.push(b);
        }
        i = i + 1;
        proof {
            assert(s@.take(i as int).drop_last() =~= s@.take(i as int - 1));
            assert(s@.take(i as int).last() == s@[i as int - 1]);
        }
    }
    proof {
        assert(s@.take(s@.len() as int) =~= s@);
    }
    out
}

/// Joins the fields from position `start` on with the delimiter `d`.
pub fn join_fields_from(fields: &Vec<Vec<u8>>, start: usize, d: u8) -> (r: Vec<u8>)
    requires
        start <= fields@.len(),
    ensures
        r@ == join_on(views_of(fields@).skip(start as int), d),
{
    let mut out: Vec<u8> = Vec::new();
    let mut j: usize = start;
    proof {
        assert(views_of(fields@).subrange(start as int, start as int) =~= Seq::<
            Seq<u8>,
        >::empty());
    }
    while j < fields.len()
        invariant
            start <= j <= fields@.len(),
            out@ == join_on(
                views_of(fields@).subrange(start as int, j as int),
                d,
            ),
        decreases fields@.len() - j,
    {
        if j > start {
            out.push(d);
        }
        push_all(&mut out, fields[j].as_slice());
        j = j + 1;
        proof {
            let fs = views_of(fields@).subrange(start as int, j as int);
            assert(fs.drop_last() =~= views_of(fields@).subrange(
                start as int,
                j as int - 1,
            ));
            assert(fs.last() == fields@[j as int - 1]@);
        }
    }
    proof {
        assert(views_of(fields@).subrange(start as int, fields@.len() as int)
            =~= views_of(fields@).skip(start as int));
    }
    out
}

/// Breaks a whole text into its lines.
pub fn split_text_lines(text: &[u8]) -> (r: Vec<Vec<u8>>)
    ensures
        views_of(r@) == lines_of(text@),
{
    let mut raw = split_line(text, NEWLINE);
    let n = raw.len();
    if raw[n - 1].len() == 0 {
        let ghost before = raw@;
        let _last = raw.pop();
        proof {
            assert(views_of(raw@) =~= views_of(before).drop_last());
            assert(views_of(before).last() == before[before.len() - 1]@);
        }
    }
    raw
}

} // verus!
