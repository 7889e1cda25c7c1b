//! The line rewriter: pulls the leading gene identifier out of a delimited
//! line, substitutes its HGNC ID via the symbol mapping, strips quotes and
//! converts the delimiter; and the phenotype transform, which drops the
//! leading column of every line.

use vstd::prelude::*;
use vstd::slice::slice_subrange;
use crate::mapping::SymbolMap;
use crate::table::COMMA;
use crate::table::TAB;
use crate::table::join_fields_from;
use crate::table::join_on;
use crate::table::push_all;
use crate::table::split_line;
use crate::table::split_on;
use crate::table::strip_quotes;
use crate::table::strip_quotes_bytes;
use crate::table::swap_delims;
use crate::table::swap_delims_bytes;
use crate::table::views_of;

verus! {

/// The length of the prefix of `s` before the first `d` byte (all of `s`
/// when `d` does not occur).
pub open spec fn prefix_len(s: Seq<u8>, d: u8) -> int
    decreases s.len(),
{
    if s.len() == 0 {
        0
    } else if s.first() == d {
        0
    } else {
        1 + prefix_len(s.drop_first(), d)
    }
}

pub proof fn lemma_prefix_len_props(s: Seq<u8>, d: u8)
    ensures
        0 <= prefix_len(s, d) <= s.len(),
        forall|j: int| 0 <= j < prefix_len(s, d) ==> s[j] != d,
        prefix_len(s, d) < s.len() ==> s[prefix_len(s, d)] == d,
    decreases s.len(),
{
    if s.len() > 0 && s.first() != d {
        lemma_prefix_len_props(s.drop_first(), d);
        let p = prefix_len(s, d);
        assert forall|j: int| 0 <= j < p implies s[j] != d by {
            if j > 0 {
                assert(s.drop_first()[j - 1] != d);
            }
        }
        if p < s.len() {
            assert(s.drop_first()[p - 1] == d);
        }
    }
}

/// The gene key of a line: the bytes before the first delimiter, with
/// quote bytes stripped.
pub open spec fn key_of(line: Seq<u8>) -> Seq<u8> {
    strip_quotes(line.take(prefix_len(line, COMMA)))
}

/// Extracts the leading gene identifier of a line.
pub fn extract_key(line: &[u8]) -> (r: Vec<u8>)
    ensures
        r@ == key_of(line@),
{
    let mut p: usize = 0;
    while p < line.len() && line[p] != COMMA
        invariant
            p <= line.len(),
            forall|j: int| 0 <= j < p ==> line@[j] != COMMA,
        decreases line.len() - p,
    {
        p = p + 1;
    }
    proof {
        lemma_prefix_len_props(line@, COMMA);
        let q = prefix_len(line@, COMMA);
        if q < p {
            assert(line@[q] != COMMA);
        }
        if p < q {
            assert(line@[p as int] != COMMA);
        }
        assert(p as int == q);
    }
    let head = slice_subrange(line, 0, p);
    proof {
        assert(head@ =~= line@.take(prefix_len(line@, COMMA)));
    }
    strip_quotes_bytes(head)
}

/// Whether the pattern occurs in `s` starting at position `i`.
pub open spec fn matches_at(s: Seq<u8>, pat: Seq<u8>, i: int) -> bool {
    0 <= i && i + pat.len() <= s.len() && s.subrange(i, i + pat.len()) == pat
}

/// Whether the pattern occurs anywhere in `s`.
pub open spec fn occurs(s: Seq<u8>, pat: Seq<u8>) -> bool {
    exists|i: int| matches_at(s, pat, i)
}

/// The position of the earliest occurrence of the pattern in `s`.
pub open spec fn first_occurrence(s: Seq<u8>, pat: Seq<u8>) -> int {
    choose|i: int|
        matches_at(s, pat, i) && forall|j: int| 0 <= j < i ==> !matches_at(s, pat, j)
}

/// Finds the earliest occurrence of `pat` in `s`, if there is one.
pub fn find_first(s: &[u8], pat: &[u8]) -> (r: Option<usize>)
    ensures
        match r {
            Some(i) => matches_at(s@, pat@, i as int) && forall|j: int|
                0 <= j < i ==> !matches_at(s@, pat@, j),
            None => !occurs(s@, pat@),
        },
{
    if pat.len() > s.len() {
        proof {
            assert forall|i: int| !matches_at(s@, pat@, i) by {}
        }
        return None;
    }
    if pat.len() == 0 {
        proof {
            assert(s@.subrange(0, 0) =~= pat@);
            assert(matches_at(s@, pat@, 0));
        }
        return Some(0);
    }
    let mut i: usize = 0;
    while i <= s.len() - pat.len()
        invariant
            1 <= pat@.len() <= s@.len(),
            i <= s@.len() - pat@.len() + 1,
            forall|j: int| 0 <= j < i ==> !matches_at(s@, pat@, j),
        decreases s.len() - i,
    {
        let window = slice_subrange(s, i, i + pat.len());
        if crate::table::bytes_eq(window, pat) {
            proof {
                assert(s@.subrange(i as int, i as int + pat@.len()) == pat@);
                assert(matches_at(s@, pat@, i as int));
            }
            return Some(i);
        }
        proof {
            assert(!matches_at(s@, pat@, i as int));
        }
        i = i + 1;
    }
    proof {
        assert forall|j: int| !matches_at(s@, pat@, j) by {
            if 0 <= j && j + pat@.len() <= s@.len() {
                assert(j < i);
            }
        }
    }
    None
}

/// A line with the earliest occurrence of `key` replaced by `rep`; a line
/// in which the key does not occur is left as it is.
pub open spec fn substituted(line: Seq<u8>, key: Seq<u8>, rep: Seq<u8>) -> Seq<u8> {
    if occurs(line, key) {
        let i = first_occurrence(line, key);
        line.take(i) + rep + line.skip(i + key.len())
    } else {
        line
    }
}

/// A rewritten gene line: key replaced, quotes stripped, commas turned to
/// tabs.
pub open spec fn rewritten_line(line: Seq<u8>, key: Seq<u8>, rep: Seq<u8>) -> Seq<u8> {
    swap_delims(strip_quotes(substituted(line, key, rep)), COMMA, TAB)
}

/// Replaces the earliest occurrence of `key` in `line` by `rep`, strips
/// quotes, and converts commas to tabs.
pub fn substitute_line(line: &[u8], key: &[u8], rep: &[u8]) -> (r: Vec<u8>)
    ensures
        r@ == rewritten_line(line@, key@, rep@),
{
    let spliced: Vec<u8> = match find_first(line, key) {
        Some(i) => {
            proof {
                let fo = first_occurrence(line@, key@);
                assert(matches_at(line@, key@, i as int) && forall|j: int|
                    0 <= j < i ==> !matches_at(line@, key@, j));
                assert(matches_at(line@, key@, fo) && forall|j: int|
                    0 <= j < fo ==> !matches_at(line@, key@, j));
                if fo < i as int {
                    assert(!matches_at(line@, key@, fo));
                }
                if (i as int) < fo {
                    assert(!matches_at(line@, key@, i as int));
                }
                assert(fo == i as int);
            }
            let line_len = line.len();
            proof {
                assert(i + key@.len() <= line@.len());
            }
            let mut buf: Vec<u8> = Vec::new();
            push_all(&mut buf, slice_subrange(line, 0, i));
            push_all(&mut buf, rep);
            push_all(&mut buf, slice_subrange(line, i + key.len(), line_len));
            proof {
                assert(line@.subrange(0, i as int) =~= line@.take(i as int));
                assert(line@.subrange(i as int + key@.len(), line@.len() as int) =~= line@.skip(
                    i as int + key@.len(),
                ));
            }
            buf
        },
        None => vstd::slice::slice_to_vec(line),
    };
    let stripped = strip_quotes_bytes(spliced.as_slice());
    swap_delims_bytes(stripped.as_slice(), COMMA, TAB)
}

/// Rewrites one gene-by-sample line through the mapping: the line comes
/// back rewritten when its key is mapped, and is dropped otherwise.
pub fn rewrite_gene_line(line: &[u8], map: &SymbolMap) -> (r: Option<Vec<u8>>)
    requires
        map.wf(),
    ensures
        ({
            let k = key_of(line@);
            match r {
                Some(v) => map@.contains_key(k) && v@ == rewritten_line(line@, k, map@[k]),
                None => !map@.contains_key(k),
            }
        }),
{
    let key = extract_key(line);
    match map.get(key.as_slice()) {
        Some(rep) => {
            let rep_copy = vstd::slice::slice_to_vec(rep.as_slice());
            Some(substitute_line(line, key.as_slice(), rep_copy.as_slice()))
        },
        None => None,
    }
}

/// The output of the gene-by-sample rewrite over a sequence of data lines:
/// mapped lines rewritten in order, unmapped lines dropped silently.
pub open spec fn gene_out(lines: Seq<Seq<u8>>, m: Map<Seq<u8>, Seq<u8>>) -> Seq<Seq<u8>>
    decreases lines.len(),
{
    if lines.len() == 0 {
        Seq::<Seq<u8>>::empty()
    } else {
        let rest = gene_out(lines.drop_last(), m);
        let k = key_of(lines.last());
        if m.contains_key(k) {
            rest.push(rewritten_line(lines.last(), k, m[k]))
        } else {
            rest
        }
    }
}

/// The data lines of a matrix: everything after the single header line.
pub open spec fn data_lines(ls: Seq<Seq<u8>>) -> Seq<Seq<u8>> {
    if ls.len() == 0 {
        ls
    } else {
        ls.drop_first()
    }
}

/// Rewrites a gene-by-sample matrix: the first line (the header) is
/// skipped, every further line is rewritten through the mapping, and lines
/// whose key the mapping lacks are dropped.
pub fn process_gene_by_sample_matrix(lines: &Vec<Vec<u8>>, map: &SymbolMap) -> (out: Vec<
    Vec<u8>,
>)
    requires
        map.wf(),
    ensures
        views_of(out@) == gene_out(data_lines(views_of(lines@)), map@),
{
    let mut out: Vec<Vec<u8>> = Vec::new();
    let n = lines.len();
    if n == 0 {
        proof {
            assert(views_of(out@) =~= gene_out(data_lines(views_of(lines@)), map@));
        }
        return out;
    }
    let mut i: usize = 1;
    proof {
        assert(views_of(lines@).subrange(1, 1) =~= Seq::<Seq<u8>>::empty());
        assert(views_of(out@) =~= Seq::<Seq<u8>>::empty());
    }
    while i < n
        invariant
            1 <= i <= n,
            n == lines@.len(),
            views_of(out@) == gene_out(views_of(lines@).subrange(1, i as int), map@),
        decreases n - i,
    {
        let ghost pre = views_of(lines@).subrange(1, i as int);
        let ghost old_out = views_of(out@);
        match rewrite_gene_line(lines[i].as_slice(), map) {
            Some(v) => {
                out.push(v);
                proof {
                    assert(views_of(out@) =~= old_out.push(views_of(out@).last()));
                }
            },
            None => {},
        }
        i = i + 1;
        proof {
            let cur = views_of(lines@).subrange(1, i as int);
            assert(cur.drop_last() =~= pre);
            assert(cur.last() == lines@[i as int - 1]@);
        }
    }
    proof {
        assert(views_of(lines@).subrange(1, n as int) =~= data_lines(views_of(lines@)));
    }
    out
}

/// A phenotype line transformed: quotes stripped, the leading column
/// removed, the remaining fields rejoined with the same delimiter.
pub open spec fn phenotype_line(l: Seq<u8>) -> Seq<u8> {
    join_on(split_on(strip_quotes(l), COMMA).drop_first(), COMMA)
}

/// Drops the leading column of one line, stripping quotes.
pub fn transform_phenotype_line(line: &[u8]) -> (r: Vec<u8>)
    ensures
        r@ == phenotype_line(line@),
{
    let stripped = strip_quotes_bytes(line);
    let fields = split_line(stripped.as_slice(), COMMA);
    proof {
        crate::table::lemma_split_on_len(stripped@, COMMA);
        assert(views_of(fields@).skip(1) =~= split_on(strip_quotes(line@), COMMA).drop_first());
    }
    join_fields_from(&fields, 1, COMMA)
}

/// Transforms a phenotype matrix line by line; there is no header to skip
/// and no line is dropped.
pub fn process_phenotype_data_matrix(lines: &Vec<Vec<u8>>) -> (out: Vec<Vec<u8>>)
    ensures
        out@.len() == lines@.len(),
        forall|i: int| 0 <= i < lines@.len() ==> out@[i]@ == phenotype_line(lines@[i]@),
{
    let mut out: Vec<Vec<u8>> = Vec::new();
    let n = lines.len();
    let mut i: usize = 0;
    while i < n
        invariant
            i <= n,
            n == lines@.len(),
            out@.len() == i,
            forall|j: int| 0 <= j < i ==> out@[j]@ == phenotype_line(lines@[j]@),
        decreases n - i,
    {
        out.push(transform_phenotype_line(lines[i].as_slice()));
        i = i + 1;
    }
    out
}

} // verus!
