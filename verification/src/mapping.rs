//! The symbol mapping builder: a unique-keyed symbol-to-HGNC-ID map, and its
//! construction from the nomenclature table restricted to the Entrez IDs a
//! model's filter set selects.

use vstd::prelude::*;
use vstd::slice::slice_to_vec;
use crate::error::MapperError;
use crate::table::COMMA;
use crate::table::lines_of;
use crate::table::split_line;
use crate::table::split_on;
use crate::table::split_text_lines;
use crate::table::views_of;

verus! {

/// The `HGNC:` identifier prefix as bytes.
pub open spec fn hgnc_prefix() -> Seq<u8> {
    seq![72u8, 71u8, 78u8, 67u8, 58u8]
}

/// An HGNC-ID value with a leading `HGNC:` removed.
pub open spec fn strip_hgnc(v: Seq<u8>) -> Seq<u8> {
    if v.len() >= 5 && v.take(5) == hgnc_prefix() {
        v.skip(5)
    } else {
        v
    }
}

/// Removes a leading `HGNC:` from an identifier, if present.
pub fn strip_hgnc_prefix(v: &[u8]) -> (r: Vec<u8>)
    ensures
        r@ == strip_hgnc(v@),
{
    if v.len() >= 5 && v[0] == 72 && v[1] == 71 && v[2] == 78 && v[3] == 67 && v[4] == 58 {
        proof {
            assert(v@.take(5) =~= hgnc_prefix());
        }
        slice_to_vec(vstd::slice::slice_subrange(v, 5, v.len()))
    } else {
        proof {
            if v@.len() >= 5 && v@.take(5) == hgnc_prefix() {
                assert(v@[0] == v@.take(5)[0]);
                assert(v@[1] == v@.take(5)[1]);
                assert(v@[2] == v@.take(5)[2]);
                assert(v@[3] == v@.take(5)[3]);
                assert(v@[4] == v@.take(5)[4]);
            }
        }
        slice_to_vec(v)
    }
}

/// A symbol-to-HGNC-ID mapping with unique keys, viewed as a `Map` from
/// symbol bytes to identifier bytes.
#[derive(Debug)]
pub struct SymbolMap {
    pub entries: Vec<(Vec<u8>, Vec<u8>)>,
}

impl View for SymbolMap {
    type V = Map<Seq<u8>, Seq<u8>>;

    open spec fn view(&self) -> Map<Seq<u8>, Seq<u8>> {
        Map::new(
            |k: Seq<u8>|
                exists|j: int| 0 <= j < self.entries@.len() && self.entries@[j].0@ == k,
            |k: Seq<u8>|
                {
                    let j = choose|j: int|
                        0 <= j < self.entries@.len() && self.entries@[j].0@ == k;
                    self.entries@[j].1@
                },
        )
    }
}

impl SymbolMap {
    /// No two entries share a key.
    pub open spec fn wf(&self) -> bool {
        forall|i: int, j: int|
            0 <= i < j < self.entries@.len() ==> self.entries@[i].0@ != self.entries@[j].0@
    }

    /// An empty mapping.
    pub fn new() -> (r: SymbolMap)
        ensures
            r.wf(),
            r@ == Map::<Seq<u8>, Seq<u8>>::empty(),
    {
        let r = SymbolMap { entries: Vec::new() };
        proof {
            assert(r@ =~= Map::<Seq<u8>, Seq<u8>>::empty());
        }
        r
    }

    /// How many symbols the mapping holds.
    pub fn len(&self) -> (r: usize)
        ensures
            r == self.entries@.len(),
    {
        self.entries.len()
    }

    /// Looks a symbol up by exact byte match.
    pub fn get(&self, k: &[u8]) -> (r: Option<&Vec<u8>>)
        requires
            self.wf(),
        ensures
            match r {
                Some(v) => self@.contains_key(k@) && v@ == self@[k@],
                None => !self@.contains_key(k@),
            },
    {
        let n = self.entries.len();
        let mut i: usize = 0;
        while i < n
            invariant
                n == self.entries@.len(),
                i <= n,
                self.wf(),
                forall|j: int| 0 <= j < i ==> self.entries@[j].0@ != k@,
            decreases n - i,
        {
            if crate::table::bytes_eq(self.entries[i].0.as_slice(), k) {
                proof {
                    assert(self@.contains_key(k@));
                    let j = choose|j: int|
                        0 <= j < self.entries@.len() && self.entries@[j].0@ == k@;
                    if j != i as int {
                        assert(self.entries@[j].0@ != self.entries@[i as int].0@);
                    }
                    assert(self@[k@] == self.entries@[i as int].1@);
                }
                return Some(&self.entries[i].1);
            }
            i = i + 1;
        }
        proof {
            if self@.contains_key(k@) {
                let j = choose|j: int|
                    0 <= j < self.entries@.len() && self.entries@[j].0@ == k@;
                assert(self.entries@[j].0@ != k@);
            }
        }
        None
    }

    /// Whether the mapping holds the symbol.
    pub fn contains_key(&self, k: &[u8]) -> (r: bool)
        requires
            self.wf(),
        ensures
            r == self@.contains_key(k@),
    {
        match self.get(k) {
            Some(_) => true,
            None => false,
        }
    }

    /// Adds a symbol only if it is not yet present: first-found wins, an
    /// existing entry is never overwritten.
    pub fn insert_if_absent(&mut self, k: Vec<u8>, v: Vec<u8>)
        requires
            old(self).wf(),
        ensures
            final(self).wf(),
            final(self)@ == if old(self)@.contains_key(k@) {
                old(self)@
            } else {
                old(self)@.insert(k@, v@)
            },
    {
        if self.contains_key(k.as_slice()) {
            return ;
        }
        let ghost oldm = self@;
        let ghost olde = self.entries@;
        self.entries.push((k, v));
        proof {
            let n = olde.len();
            assert(self.entries@ == olde.push((k, v)));
            assert forall|i: int, j: int|
                0 <= i < j < self.entries@.len() implies self.entries@[i].0@
                != self.entries@[j].0@ by {
                if j < n {
                } else {
                    assert(self.entries@[j].0@ == k@);
                    assert(0 <= i < n && self.entries@[i] == olde[i]);
                    if olde[i].0@ == k@ {
                        assert(oldm.contains_key(k@));
                    }
                }
            }
            assert forall|t: Seq<u8>|
                self@.contains_key(t) <==> oldm.insert(k@, v@).contains_key(t) by {
                if self@.contains_key(t) {
                    let j = choose|j: int|
                        0 <= j < self.entries@.len() && self.entries@[j].0@ == t;
                    if j < n {
                        assert(olde[j].0@ == t);
                        assert(oldm.contains_key(t));
                    } else {
                        assert(t == k@);
                    }
                }
                if oldm.insert(k@, v@).contains_key(t) {
                    if t == k@ {
                        assert(self.entries@[n as int].0@ == t);
                    } else {
                        let j = choose|j: int| 0 <= j < olde.len() && olde[j].0@ == t;
                        assert(self.entries@[j].0@ == t);
                    }
                    assert(self@.contains_key(t));
                }
            }
            assert forall|t: Seq<u8>| #[trigger]
                self@.contains_key(t) implies self@[t] == oldm.insert(k@, v@)[t] by {
                let j = choose|j: int|
                    0 <= j < self.entries@.len() && self.entries@[j].0@ == t;
                assert(self@[t] == self.entries@[j].1@);
                if t == k@ {
                    assert(self.entries@[n as int].0@ == t);
                    if j != n {
                        assert(self.entries@[j].0@ != self.entries@[n as int].0@);
                    }
                    assert(self@[t] == v@);
                } else {
                    assert(self.entries@[n as int].0@ == k@);
                    assert(j < n);
                    assert(olde[j].0@ == t);
                    assert(oldm.contains_key(t));
                    let j2 = choose|j2: int| 0 <= j2 < olde.len() && olde[j2].0@ == t;
                    assert(oldm[t] == olde[j2].1@);
                    if j2 != j {
                        assert(olde[j2].0@ != olde[j].0@);
                    }
                    assert(self@[t] == oldm[t]);
                }
            }
            assert(self@ =~= oldm.insert(k@, v@));
        }
    }
}

/// One row of the nomenclature table: symbol, HGNC ID and Entrez ID, all as
/// plain bytes; the Entrez ID may legitimately be empty.
pub struct GeneRecord {
    pub symbol: Vec<u8>,
    pub hgnc_id: Vec<u8>,
    pub entrez_id: Vec<u8>,
}

/// The fields of data line `i` (counting the header as line 0) of a text.
pub open spec fn line_fields(text: Seq<u8>, i: int) -> Seq<Seq<u8>> {
    split_on(lines_of(text)[i], COMMA)
}

/// Whether every line of the nomenclature text is well formed: at least two
/// columns everywhere (symbol and HGNC ID), and at least three on data rows
/// (the Entrez ID as well).
pub open spec fn nomen_well_formed(text: Seq<u8>) -> bool {
    forall|i: int|
        0 <= i < lines_of(text).len() ==> line_fields(text, i).len() >= 2 && (i >= 1
            ==> #[trigger] line_fields(text, i).len() >= 3)
}

/// Whether data line `i` of the nomenclature text names a gene whose Entrez
/// ID is a member of the filter set.
pub open spec fn line_retained(text: Seq<u8>, i: int, fset: Seq<Seq<u8>>) -> bool {
    1 <= i < lines_of(text).len() && line_fields(text, i).len() >= 3 && fset.contains(
        line_fields(text, i)[2],
    )
}

/// Whether `k` is a symbol the finished mapping must carry: some data line
/// has symbol `k` and an Entrez ID inside the filter set.
pub open spec fn symbol_retained(text: Seq<u8>, fset: Seq<Seq<u8>>, k: Seq<u8>) -> bool {
    exists|i: int| #[trigger] line_retained(text, i, fset) && line_fields(text, i)[0] == k
}

/// The value the mapping must give `k`: the HGNC ID (with any `HGNC:`
/// prefix stripped) of the last line whose first field is `k`.
pub open spec fn last_value_for(text: Seq<u8>, k: Seq<u8>, v: Seq<u8>) -> bool {
    exists|i: int|
        0 <= i < lines_of(text).len() && #[trigger] line_fields(text, i)[0] == k && strip_hgnc(
            line_fields(text, i)[1],
        ) == v && forall|l: int|
            i < l < lines_of(text).len() ==> #[trigger] line_fields(text, l)[0] != k
}

/// Builds the symbol-to-HGNC-ID mapping from the nomenclature table text,
/// keeping exactly the symbols whose Entrez ID lies in the filter set.  When
/// a symbol recurs, the last occurrence wins.  A line with fewer than two
/// columns, or a data line with fewer than three, is a parse error.
pub fn get_gene_symbol_name_to_hgnc_id_map(nomen_csv: &[u8], fset: &Vec<Vec<u8>>) -> (r: Result<
    SymbolMap,
    MapperError,
>)
    ensures
        (r is Ok <==> nomen_well_formed(nomen_csv@)),
        (r matches Err(e) ==> e == MapperError::Parse),
        (r matches Ok(m) ==> {
            &&& m.wf()
            &&& forall|k: Seq<u8>|
                m@.contains_key(k) <==> symbol_retained(nomen_csv@, views_of(fset@), k)
            &&& forall|k: Seq<u8>|
                m@.contains_key(k) ==> last_value_for(nomen_csv@, k, m@[k])
        }),
{
    let lines = split_text_lines(nomen_csv);
    let ghost lns = lines_of(nomen_csv@);
    let n = lines.len();

    // Reject malformed lines first, so the build below cannot go wrong.
    let mut i: usize = 0;
    while i < n
        invariant
            n == lines@.len(),
            views_of(lines@) == lns,
            i <= n,
            forall|j: int|
                0 <= j < i ==> line_fields(nomen_csv@, j).len() >= 2 && (j >= 1
                    ==> #[trigger] line_fields(nomen_csv@, j).len() >= 3),
        decreases n - i,
    {
        let fields = split_line(lines[i].as_slice(), COMMA);
        proof {
            assert(views_of(lines@)[i as int] == lines@[i as int]@);
            assert(views_of(fields@) == line_fields(nomen_csv@, i as int));
        }
        if fields.len() < 2 || (i >= 1 && fields.len() < 3) {
            proof {
                assert(!nomen_well_formed(nomen_csv@));
            }
            return Err(MapperError::Parse);
        }
        i = i + 1;
    }

    // Insert from the last line backwards: first-found there is last
    // occurrence in the table, so an earlier duplicate never overwrites it.
    let mut map = SymbolMap::new();
    let mut rev: usize = n;
    while rev > 0
        invariant
            n == lines@.len(),
            views_of(lines@) == lns,
            rev <= n,
            nomen_well_formed(nomen_csv@),
            map.wf(),
            forall|k: Seq<u8>|
                map@.contains_key(k) <==> (exists|j: int|
                    rev <= j < n && #[trigger] line_fields(nomen_csv@, j)[0] == k
                        && symbol_retained(nomen_csv@, views_of(fset@), k)),
            forall|k: Seq<u8>|
                map@.contains_key(k) ==> exists|j: int|
                    rev <= j < n && #[trigger] line_fields(nomen_csv@, j)[0] == k && strip_hgnc(
                        line_fields(nomen_csv@, j)[1],
                    ) == map@[k] && forall|l: int|
                        j < l < n ==> #[trigger] line_fields(nomen_csv@, l)[0] != k,
        decreases rev,
    {
        rev = rev - 1;
        let fields = split_line(lines[rev].as_slice(), COMMA);
        let ghost row = line_fields(nomen_csv@, rev as int);
        proof {
            assert(views_of(lines@)[rev as int] == lines@[rev as int]@);
            assert(views_of(fields@) == row);
            assert(line_fields(nomen_csv@, rev as int).len() >= 2);
            assert(views_of(fields@).len() == fields@.len());
            assert(fields@.len() >= 2);
        }
        // The symbol is retained when some data line pairs it with a
        // filtered Entrez ID; scan the data lines for one.
        let retained = symbol_in_retained_set(&lines, fields[0].as_slice(), fset, nomen_csv);
        let ghost oldm = map@;
        if retained {
            let key = slice_to_vec(fields[0].as_slice());
            let value = strip_hgnc_prefix(fields[1].as_slice());
            proof {
                assert(key@ == row[0]);
                assert(value@ == strip_hgnc(row[1]));
            }
            map.insert_if_absent(key, value);
        }
        proof {
            assert forall|k: Seq<u8>|
                map@.contains_key(k) <==> (exists|j: int|
                    rev <= j < n && #[trigger] line_fields(nomen_csv@, j)[0] == k
                        && symbol_retained(nomen_csv@, views_of(fset@), k)) by {
                if map@.contains_key(k) {
                    if oldm.contains_key(k) {
                        let j = choose|j: int|
                            rev + 1 <= j < n && #[trigger] line_fields(nomen_csv@, j)[0] == k
                                && symbol_retained(nomen_csv@, views_of(fset@), k);
                        assert(rev <= j < n && line_fields(nomen_csv@, j)[0] == k);
                    } else {
                        assert(retained && k == row[0]);
                        assert(line_fields(nomen_csv@, rev as int)[0] == k);
                    }
                }
                if exists|j: int|
                    rev <= j < n && #[trigger] line_fields(nomen_csv@, j)[0] == k
                        && symbol_retained(nomen_csv@, views_of(fset@), k) {
                    let j = choose|j: int|
                        rev <= j < n && #[trigger] line_fields(nomen_csv@, j)[0] == k
                            && symbol_retained(nomen_csv@, views_of(fset@), k);
                    if j > rev {
                        assert(oldm.contains_key(k));
                        assert(map@.contains_key(k));
                    } else {
                        assert(row[0] == k);
                        assert(retained);
                        assert(map@.contains_key(k));
                    }
                }
            }
            assert forall|k: Seq<u8>| map@.contains_key(k) implies exists|j: int|
                rev <= j < n && #[trigger] line_fields(nomen_csv@, j)[0] == k && strip_hgnc(
                    line_fields(nomen_csv@, j)[1],
                ) == map@[k] && (forall|l: int|
                    j < l < n ==> #[trigger] line_fields(nomen_csv@, l)[0] != k) by {
                if oldm.contains_key(k) {
                    assert(map@[k] == oldm[k]);
                } else {
                    assert(retained && k == row[0] && map@[k] == strip_hgnc(row[1]));
                    assert forall|l: int|
                        rev < l < n implies #[trigger] line_fields(nomen_csv@, l)[0] != k by {
                        if line_fields(nomen_csv@, l)[0] == k {
                            assert(oldm.contains_key(k));
                        }
                    }
                    assert((rev as int) < n && line_fields(nomen_csv@, rev as int)[0] == k
                        && strip_hgnc(line_fields(nomen_csv@, rev as int)[1]) == map@[k]);
                }
            }
        }
    }
    proof {
        assert forall|k: Seq<u8>| map@.contains_key(k) implies last_value_for(
            nomen_csv@,
            k,
            map@[k],
        ) by {
            let j = choose|j: int|
                0 <= j < n && #[trigger] line_fields(nomen_csv@, j)[0] == k && strip_hgnc(
                    line_fields(nomen_csv@, j)[1],
                ) == map@[k] && forall|l: int|
                    j < l < n ==> #[trigger] line_fields(nomen_csv@, l)[0] != k;
            assert(0 <= j < lines_of(nomen_csv@).len() && line_fields(nomen_csv@, j)[0] == k
                && strip_hgnc(line_fields(nomen_csv@, j)[1]) == map@[k] && forall|l: int|
                j < l < lines_of(nomen_csv@).len() ==> #[trigger] line_fields(
                    nomen_csv@,
                    l,
                )[0] != k);
        }
    }
    Ok(map)
}

/// Whether `sym` appears as the symbol of some data line whose Entrez ID is
/// in the filter set.
fn symbol_in_retained_set(
    lines: &Vec<Vec<u8>>,
    sym: &[u8],
    fset: &Vec<Vec<u8>>,
    nomen_csv: &[u8],
) -> (r: bool)
    requires
        views_of(lines@) == lines_of(nomen_csv@),
        nomen_well_formed(nomen_csv@),
    ensures
        r == symbol_retained(nomen_csv@, views_of(fset@), sym@),
{
    let n = lines.len();
    let mut i: usize = 1;
    while i < n
        invariant
            n == lines@.len(),
            views_of(lines@) == lines_of(nomen_csv@),
            nomen_well_formed(nomen_csv@),
            1 <= i <= n || n == 0,
            forall|j: int|
                1 <= j < i ==> !(#[trigger] line_retained(nomen_csv@, j, views_of(fset@))
                    && line_fields(nomen_csv@, j)[0] == sym@),
        decreases n - i,
    {
        let fields = split_line(lines[i].as_slice(), COMMA);
        let ghost row = line_fields(nomen_csv@, i as int);
        proof {
            assert(views_of(lines@)[i as int] == lines@[i as int]@);
            assert(views_of(fields@) == row);
            assert(line_fields(nomen_csv@, i as int).len() >= 3);
            assert(views_of(fields@).len() == fields@.len());
            assert(fields@.len() >= 3);
        }
        if crate::table::bytes_eq(fields[0].as_slice(), sym) {
            if vec_contains_bytes(fset, fields[2].as_slice()) {
                proof {
                    assert(line_retained(nomen_csv@, i as int, views_of(fset@)));
                }
                return true;
            }
        }
        i = i + 1;
    }
    proof {
        if symbol_retained(nomen_csv@, views_of(fset@), sym@) {
            let j = choose|j: int|
                #[trigger] line_retained(nomen_csv@, j, views_of(fset@)) && line_fields(
                    nomen_csv@,
                    j,
                )[0] == sym@;
            assert(1 <= j < n);
        }
    }
    false
}

/// Whether some element of `set` holds exactly the bytes of `x`.
pub fn vec_contains_bytes(set: &Vec<Vec<u8>>, x: &[u8]) -> (r: bool)
    ensures
        r == views_of(set@).contains(x@),
{
    let n = set.len();
    let mut i: usize = 0;
    while i < n
        invariant
            n == set@.len(),
            i <= n,
            forall|j: int| 0 <= j < i ==> set@[j]@ != x@,
        decreases n - i,
    {
        if crate::table::bytes_eq(set[i].as_slice(), x) {
            proof {
                assert(views_of(set@)[i as int] == x@);
            }
            return true;
        }
        i = i + 1;
    }
    proof {
        if views_of(set@).contains(x@) {
            let j = choose|j: int| 0 <= j < views_of(set@).len() && views_of(set@)[j] == x@;
            assert(set@[j]@ != x@);
        }
    }
    false
}

} // verus!
