//! The filter resolver: finds the column of the model filter table that
//! belongs to a model name and collects the non-empty Entrez-ID cells of that
//! column into a sorted, deduplicated list.  Sorting is for determinism
//! only; lookup elsewhere goes by membership.

use vstd::prelude::*;
use vstd::slice::slice_subrange;
use vstd::slice::slice_to_vec;
use crate::error::MapperError;
use crate::table::COMMA;
use crate::table::bytes_eq;
use crate::table::lines_of;
use crate::table::split_line;
use crate::table::split_on;
use crate::table::split_text_lines;
use crate::table::views_of;

verus! {

/// Strict lexicographic (bytewise) order on byte strings.
pub open spec fn lex_lt(a: Seq<u8>, b: Seq<u8>) -> bool
    decreases a.len(),
{
    if b.len() == 0 {
        false
    } else if a.len() == 0 {
        true
    } else if a.first() < b.first() {
        true
    } else if a.first() > b.first() {
        false
    } else {
        lex_lt(a.drop_first(), b.drop_first())
    }
}

pub proof fn lemma_lex_total(a: Seq<u8>, b: Seq<u8>)
    ensures
        lex_lt(a, b) || lex_lt(b, a) || a == b,
    decreases a.len(),
{
    if a.len() > 0 && b.len() > 0 && a.first() == b.first() {
        lemma_lex_total(a.drop_first(), b.drop_first());
        if a.drop_first() == b.drop_first() {
            assert forall|k: int| 0 <= k < a.len() implies a[k] == b[k] by {
                if k > 0 {
                    assert(a.drop_first()[k - 1] == b.drop_first()[k - 1]);
                }
            }
            assert(a =~= b);
        }
    }
}

pub proof fn lemma_lex_trans(a: Seq<u8>, b: Seq<u8>, c: Seq<u8>)
    requires
        lex_lt(a, b),
        lex_lt(b, c),
    ensures
        lex_lt(a, c),
    decreases a.len(),
{
    if a.len() > 0 && b.len() > 0 && c.len() > 0 && a.first() == b.first()
        && b.first() == c.first() {
        lemma_lex_trans(a.drop_first(), b.drop_first(), c.drop_first());
    }
}

pub proof fn lemma_lex_irrefl(a: Seq<u8>)
    ensures
        !lex_lt(a, a),
    decreases a.len(),
{
    if a.len() > 0 {
        lemma_lex_irrefl(a.drop_first());
    }
}

proof fn lemma_lex_common_prefix(a: Seq<u8>, b: Seq<u8>, i: int)
    requires
        0 <= i <= a.len(),
        i <= b.len(),
        forall|j: int| 0 <= j < i ==> a[j] == b[j],
    ensures
        lex_lt(a, b) == lex_lt(a.skip(i), b.skip(i)),
    decreases i,
{
    if i > 0 {
        assert(a.first() == b.first());
        assert forall|j: int| 0 <= j < i - 1 implies a.drop_first()[j] == b.drop_first()[j] by {
            assert(a[j + 1] == b[j + 1]);
        }
        lemma_lex_common_prefix(a.drop_first(), b.drop_first(), i - 1);
        assert(a.drop_first().skip(i - 1) =~= a.skip(i));
        assert(b.drop_first().skip(i - 1) =~= b.skip(i));
    } else {
        assert(a.skip(0) =~= a);
        assert(b.skip(0) =~= b);
    }
}

/// Whether `a` comes strictly before `b` in bytewise lexicographic order.
pub fn lex_less(a: &[u8], b: &[u8]) -> (r: bool)
    ensures
        r == lex_lt(a@, b@),
{
    let mut i: usize = 0;
    while i < a.len() && i < b.len() && a[i] == b[i]
        invariant
            i <= a.len(),
            i <= b.len(),
            forall|j: int| 0 <= j < i ==> a@[j] == b@[j],
        decreases a.len() - i,
    {
        i = i + 1;
    }
    proof {
        lemma_lex_common_prefix(a@, b@, i as int);
    }
    if i < a.len() && i < b.len() {
        proof {
            assert(a@.skip(i as int).first() == a@[i as int]);
            assert(b@.skip(i as int).first() == b@[i as int]);
        }
        a[i] < b[i]
    } else if i < b.len() {
        proof {
            assert(a@.skip(i as int).len() == 0);
            assert(b@.skip(i as int).len() > 0);
        }
        true
    } else {
        proof {
            assert(b@.skip(i as int).len() == 0);
        }
        false
    }
}

/// Every pair of positions is strictly ordered: sorted with no duplicates.
pub open spec fn strictly_sorted(ss: Seq<Seq<u8>>) -> bool {
    forall|i: int, j: int| 0 <= i < j < ss.len() ==> lex_lt(ss[i], ss[j])
}

/// Places `v` into a strictly sorted vector, keeping it sorted and
/// duplicate-free; a value already present is left alone.
#[verifier::loop_isolation(true)]
pub fn insert_sorted_unique(out: &mut Vec<Vec<u8>>, v: Vec<u8>)
    requires
        strictly_sorted(views_of(old(out)@)),
    ensures
        strictly_sorted(views_of(final(out)@)),
        forall|s: Seq<u8>|
            views_of(final(out)@).contains(s) <==> (views_of(old(out)@).contains(s) || s
                == v@),
{
    let mut j: usize = 0;
    loop
        invariant
            j <= out@.len(),
            out@ == old(out)@,
            forall|i: int| 0 <= i < j ==> lex_lt(out@[i]@, v@),
        ensures
            j <= out@.len(),
            out@ == old(out)@,
            forall|i: int| 0 <= i < j ==> lex_lt(out@[i]@, v@),
            j == out@.len() || !lex_lt(out@[j as int]@, v@),
        decreases out@.len() - j,
    {
        if j == out.len() {
            break ;
        }
        if !lex_less(out[j].as_slice(), v.as_slice()) {
            break ;
        }
        j = j + 1;
    }
    if j < out.len() {
        if bytes_eq(out[j].as_slice(), v.as_slice()) {
            proof {
                assert(views_of(out@)[j as int] == v@);
                assert(views_of(out@).contains(v@));
            }
            return ;
        }
    }
    let ghost oldv = views_of(out@);
    out.insert(j, v);
    proof {
        let newv = views_of(out@);
        assert(newv =~= oldv.insert(j as int, v@));
        if j < oldv.len() {
            lemma_lex_total(oldv[j as int], v@);
            assert(lex_lt(v@, oldv[j as int]));
        }
        assert forall|p: int, q: int| 0 <= p < q < newv.len() implies lex_lt(
            newv[p],
            newv[q],
        ) by {
            if q < j {
                assert(newv[p] == oldv[p] && newv[q] == oldv[q]);
            } else if p > j {
                assert(newv[p] == oldv[p - 1] && newv[q] == oldv[q - 1]);
            } else if p < j && q == j {
                assert(newv[p] == oldv[p] && newv[q] == v@);
            } else if p < j && q > j {
                assert(newv[p] == oldv[p] && newv[q] == oldv[q - 1]);
                assert(p < q - 1);
            } else {
                assert(p == j && q > j);
                assert(newv[p] == v@ && newv[q] == oldv[q - 1]);
                if q - 1 > j {
                    lemma_lex_trans(v@, oldv[j as int], oldv[q - 1]);
                }
            }
        }
        assert forall|s: Seq<u8>| newv.contains(s) implies (oldv.contains(s) || s
            == v@) by {
            let i = choose|i: int| 0 <= i < newv.len() && newv[i] == s;
            if i < j {
                assert(oldv[i] == s);
            } else if i == j {
                assert(s == v@);
            } else {
                assert(oldv[i - 1] == s);
            }
        }
        assert forall|s: Seq<u8>| (oldv.contains(s) || s == v@) implies newv.contains(
            s,
        ) by {
            if s == v@ {
                assert(newv[j as int] == s);
            } else {
                let i = choose|i: int| 0 <= i < oldv.len() && oldv[i] == s;
                if i < j {
                    assert(newv[i] == s);
                } else {
                    assert(newv[i + 1] == s);
                }
            }
        }
    }
}

/// The position of the first header field equal to `name`, if any.
pub fn find_header_column(header: &Vec<Vec<u8>>, name: &[u8]) -> (r: Option<usize>)
    ensures
        match r {
            Some(i) => i < header@.len() && header@[i as int]@ == name@ && forall|j: int|
                0 <= j < i ==> header@[j]@ != name@,
            None => forall|j: int| 0 <= j < header@.len() ==> header@[j]@ != name@,
        },
{
    let mut i: usize = 0;
    while i < header.len()
        invariant
            i <= header@.len(),
            forall|j: int| 0 <= j < i ==> header@[j]@ != name@,
        decreases header@.len() - i,
    {
        if bytes_eq(header[i].as_slice(), name) {
            return Some(i);
        }
        i = i + 1;
    }
    None
}

/// The conventional model-file suffix, `.mat` as bytes.
pub open spec fn mat_suffix() -> Seq<u8> {
    seq![46u8, 109u8, 97u8, 116u8]
}

/// A model name with a trailing `.mat` suffix removed.
pub open spec fn stripped_model(m: Seq<u8>) -> Seq<u8> {
    if m.len() >= 4 && m.skip(m.len() - 4) == mat_suffix() {
        m.take(m.len() - 4)
    } else {
        m
    }
}

/// Removes a trailing `.mat` from a model name, if present.
pub fn strip_model_suffix(model: &[u8]) -> (r: Vec<u8>)
    ensures
        r@ == stripped_model(model@),
{
    if model.len() >= 4 {
        let tail = slice_subrange(model, model.len() - 4, model.len());
        let mut suffix: Vec<u8> = Vec::new();
        suffix.push(46);
        suffix.push(109);
        suffix.push(97);
        suffix.push(116);
        proof {
            assert(suffix@ =~= mat_suffix());
            assert(tail@ =~= model@.skip(model@.len() - 4));
        }
        if bytes_eq(tail, suffix.as_slice()) {
            slice_to_vec(slice_subrange(model, 0, model.len() - 4))
        } else {
            slice_to_vec(model)
        }
    } else {
        slice_to_vec(model)
    }
}

/// Whether some header field equals the stripped model name.
pub open spec fn has_model(hdr: Seq<Seq<u8>>, m: Seq<u8>) -> bool {
    exists|j: int| 0 <= j < hdr.len() && hdr[j] == m
}

/// The first header position holding the stripped model name.
pub open spec fn model_column(hdr: Seq<Seq<u8>>, m: Seq<u8>) -> int {
    choose|j: int|
        0 <= j < hdr.len() && hdr[j] == m && forall|l: int| 0 <= l < j ==> hdr[l] != m
}

/// Whether `s` stands as a non-empty cell of column `col` in some data row
/// of the filter table text.
pub open spec fn filter_cell(text: Seq<u8>, col: int, s: Seq<u8>) -> bool {
    exists|i: int|
        1 <= i < lines_of(text).len() && col < split_on(lines_of(text)[i], COMMA).len()
            && split_on(lines_of(text)[i], COMMA)[col] == s && s.len() > 0
}

/// Resolves the model's column of the filter table and collects the
/// non-empty cells of that column into a sorted, deduplicated list of
/// Entrez IDs.  An empty table is a parse error; a model name matching no
/// header field is an unknown-model error.
pub fn filter_genes_by_model(filter_csv: &[u8], model: &[u8]) -> (r: Result<
    Vec<Vec<u8>>,
    MapperError,
>)
    ensures
        ({
            let lns = lines_of(filter_csv@);
            let m = stripped_model(model@);
            &&& ((r matches Err(e) && e == MapperError::Parse) <==> lns.len() == 0)
            &&& ((r matches Err(e) && e == MapperError::UnknownModel) <==> (lns.len() > 0
                && !has_model(split_on(lns[0], COMMA), m)))
            &&& (r is Ok <==> (lns.len() > 0 && has_model(split_on(lns[0], COMMA), m)))
            &&& (r matches Ok(v) ==> {
                let col = model_column(split_on(lns[0], COMMA), m);
                &&& strictly_sorted(views_of(v@))
                &&& forall|s: Seq<u8>|
                    views_of(v@).contains(s) <==> filter_cell(filter_csv@, col, s)
            })
        }),
{
    let lines = split_text_lines(filter_csv);
    if lines.len() == 0 {
        return Err(MapperError::Parse);
    }
    let header = split_line(lines[0].as_slice(), COMMA);
    let m = strip_model_suffix(model);
    let ghost hdr = split_on(lines_of(filter_csv@)[0], COMMA);
    proof {
        assert(views_of(lines@)[0] == lines@[0]@);
        assert(views_of(header@) == hdr);
    }
    let col = match find_header_column(&header, m.as_slice()) {
        Some(c) => c,
        None => {
            proof {
                assert forall|j: int| !(0 <= j < hdr.len() && hdr[j] == m@) by {
                    if 0 <= j < hdr.len() {
                        assert(header@[j]@ != m@);
                    }
                }
            }
            return Err(MapperError::UnknownModel);
        },
    };
    proof {
        assert((col as int) < hdr.len() && hdr[col as int] == m@ && forall|l: int|
            0 <= l < col ==> hdr[l] != m@);
        assert(has_model(hdr, m@));
        let j = model_column(hdr, m@);
        assert(0 <= j < hdr.len() && hdr[j] == m@ && forall|l: int|
            0 <= l < j ==> hdr[l] != m@);
        if j < col as int {
            assert(hdr[j] != m@);
        }
        if j > col as int {
            assert(hdr[col as int] != m@);
        }
        assert(j == col as int);
    }
    let mut out: Vec<Vec<u8>> = Vec::new();
    let mut i: usize = 1;
    while i < lines.len()
        invariant
            1 <= i <= lines@.len(),
            views_of(lines@) == lines_of(filter_csv@),
            strictly_sorted(views_of(out@)),
            forall|s: Seq<u8>|
                views_of(out@).contains(s) <==> (exists|k: int|
                    1 <= k < i && (col as int) < split_on(lines_of(filter_csv@)[k], COMMA).len()
                        && split_on(lines_of(filter_csv@)[k], COMMA)[col as int] == s && s.len()
                        > 0),
        decreases lines@.len() - i,
    {
        let fields = split_line(lines[i].as_slice(), COMMA);
        let ghost row = split_on(lines_of(filter_csv@)[i as int], COMMA);
        proof {
            assert(views_of(lines@)[i as int] == lines@[i as int]@);
            assert(views_of(fields@) == row);
        }
        let ghost old_out = views_of(out@);
        if col < fields.len() && fields[col].len() > 0 {
            let cell = slice_to_vec(fields[col].as_slice());
            proof {
                assert(cell@ == row[col as int]);
            }
            insert_sorted_unique(&mut out, cell);
            proof {
                assert forall|s: Seq<u8>|
                    views_of(out@).contains(s) <==> (exists|k: int|
                        1 <= k < i + 1 && (col as int) < split_on(
                            lines_of(filter_csv@)[k],
                            COMMA,
                        ).len() && split_on(lines_of(filter_csv@)[k], COMMA)[col as int] == s
                            && s.len() > 0) by {
                    if views_of(out@).contains(s) {
                        if old_out.contains(s) {
                        } else {
                            assert(s == row[col as int]);
                            assert(1 <= (i as int) && (i as int) < i + 1 && (col as int) < row.len() && row[col as int]
                                == s && s.len() > 0);
                        }
                    }
                    if exists|k: int|
                        1 <= k < i + 1 && (col as int) < split_on(
                            lines_of(filter_csv@)[k],
                            COMMA,
                        ).len() && split_on(lines_of(filter_csv@)[k], COMMA)[col as int] == s
                            && s.len() > 0 {
                        let k = choose|k: int|
                            1 <= k < i + 1 && (col as int) < split_on(
                                lines_of(filter_csv@)[k],
                                COMMA,
                            ).len() && split_on(lines_of(filter_csv@)[k], COMMA)[col as int] == s
                                && s.len() > 0;
                        if k < i {
                            assert(old_out.contains(s));
                        } else {
                            assert(s == row[col as int]);
                        }
                        assert(views_of(out@).contains(s));
                    }
                }
            }
        } else {
            proof {
                assert forall|s: Seq<u8>|
                    views_of(out@).contains(s) <==> (exists|k: int|
                        1 <= k < i + 1 && (col as int) < split_on(
                            lines_of(filter_csv@)[k],
                            COMMA,
                        ).len() && split_on(lines_of(filter_csv@)[k], COMMA)[col as int] == s
                            && s.len() > 0) by {
                    if exists|k: int|
                        1 <= k < i + 1 && (col as int) < split_on(
                            lines_of(filter_csv@)[k],
                            COMMA,
                        ).len() && split_on(lines_of(filter_csv@)[k], COMMA)[col as int] == s
                            && s.len() > 0 {
                        let k = choose|k: int|
                            1 <= k < i + 1 && (col as int) < split_on(
                                lines_of(filter_csv@)[k],
                                COMMA,
                            ).len() && split_on(lines_of(filter_csv@)[k], COMMA)[col as int] == s
                                && s.len() > 0;
                        assert(k < i);
                        assert(old_out.contains(s));
                    }
                }
            }
        }
        i = i + 1;
    }
    Ok(out)
}

/// Two strictly sorted lists with the same members are the same list: the
/// filter set is fully determined by membership, so building it again from
/// the same table and model yields byte-identical output.
pub proof fn lemma_sorted_unique_determined(a: Seq<Seq<u8>>, b: Seq<Seq<u8>>)
    requires
        strictly_sorted(a),
        strictly_sorted(b),
        forall|s: Seq<u8>| a.contains(s) <==> b.contains(s),
    ensures
        a == b,
    decreases a.len(),
{
    if a.len() == 0 {
        if b.len() > 0 {
            assert(b.contains(b[0]));
            assert(a.contains(b[0]));
        }
        assert(a =~= b);
    } else {
        assert(a.contains(a.last()));
        assert(b.contains(a.last()));
        let j = choose|j: int| 0 <= j < b.len() && b[j] == a.last();
        assert(b.contains(b.last()));
        assert(a.contains(b.last()));
        let i = choose|i: int| 0 <= i < a.len() && a[i] == b.last();
        if a.last() != b.last() {
            assert(j < b.len() - 1);
            assert(lex_lt(b[j], b.last()));
            assert(i < a.len() - 1);
            assert(lex_lt(a[i], a.last()));
            lemma_lex_trans(a.last(), b.last(), a.last());
            lemma_lex_irrefl(a.last());
        }
        assert forall|s: Seq<u8>| a.drop_last().contains(s) <==> b.drop_last().contains(
            s,
        ) by {
            lemma_drop_last_member(a, b, s);
            lemma_drop_last_member(b, a, s);
        }
        lemma_sorted_unique_determined(a.drop_last(), b.drop_last());
        assert(a.len() == b.len());
        assert forall|k: int| 0 <= k < a.len() implies a[k] == b[k] by {
            if k < a.len() - 1 {
                assert(a.drop_last()[k] == b.drop_last()[k]);
            }
        }
        assert(a =~= b);
    }
}

/// Any two filter sets built for the same table and column are
/// byte-identical: each is strictly sorted and holds exactly the non-empty
/// cells of the column, so re-running the resolver can never reorder or
/// change the set.
pub proof fn lemma_filter_set_run_to_run(
    a: Seq<Seq<u8>>,
    b: Seq<Seq<u8>>,
    text: Seq<u8>,
    col: int,
)
    requires
        strictly_sorted(a),
        strictly_sorted(b),
        forall|s: Seq<u8>| a.contains(s) <==> filter_cell(text, col, s),
        forall|s: Seq<u8>| b.contains(s) <==> filter_cell(text, col, s),
    ensures
        a == b,
{
    assert forall|s: Seq<u8>| a.contains(s) <==> b.contains(s) by {
        assert(a.contains(s) <==> filter_cell(text, col, s));
        assert(b.contains(s) <==> filter_cell(text, col, s));
    }
    lemma_sorted_unique_determined(a, b);
}

/// A member of `a` short of its last element is a member of `b` short of
/// its last element, when the two sorted lists share members and last
/// elements.
proof fn lemma_drop_last_member(a: Seq<Seq<u8>>, b: Seq<Seq<u8>>, s: Seq<u8>)
    requires
        strictly_sorted(a),
        strictly_sorted(b),
        a.len() > 0,
        b.len() > 0,
        a.last() == b.last(),
        forall|t: Seq<u8>| a.contains(t) <==> b.contains(t),
    ensures
        a.drop_last().contains(s) ==> b.drop_last().contains(s),
{
    if a.drop_last().contains(s) {
        let i = choose|i: int| 0 <= i < a.drop_last().len() && a.drop_last()[i] == s;
        assert(a[i] == s);
        assert(lex_lt(a[i], a.last()));
        assert(a.contains(s));
        assert(b.contains(s));
        let j = choose|j: int| 0 <= j < b.len() && b[j] == s;
        if j == b.len() - 1 {
            assert(s == b.last());
            lemma_lex_irrefl(s);
        }
        assert(b.drop_last()[j] == s);
        assert(b.drop_last().contains(s));
    }
}

} // verus!
