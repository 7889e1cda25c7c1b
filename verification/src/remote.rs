//! The remote resolver's pure half: batching unresolved symbols into
//! fixed-size query chunks, joining a chunk into one boolean-OR query
//! string, and merging looked-up documents into the symbol mapping without
//! overwriting what the static tables already decided.  Issuing the HTTP
//! requests and decoding JSON are the caller's business; the results come
//! back here as plain symbol/identifier pairs.

use vstd::prelude::*;
use vstd::slice::slice_to_vec;
use crate::error::MapperError;
use crate::mapping::SymbolMap;
use crate::mapping::strip_hgnc;
use crate::mapping::strip_hgnc_prefix;
use crate::table::push_all;
use crate::table::views_of;

verus! {

/// How many symbols one batched request may carry.
pub const REMOTE_CHUNK_SIZE: usize = 250;

/// Where chunk `i` of a list of `len` symbols ends.
pub open spec fn chunk_end(len: int, i: int) -> int {
    if (i + 1) * 250 <= len {
        (i + 1) * 250
    } else {
        len
    }
}

/// Partitions the symbol list into consecutive chunks of at most 250
/// symbols; every chunk but the last is full, and a list of 500 symbols
/// yields exactly 2 chunks.
pub fn chunk_symbols(symbols: &Vec<Vec<u8>>) -> (chunks: Vec<Vec<Vec<u8>>>)
    ensures
        symbols@.len() == 0 ==> chunks@.len() == 0,
        symbols@.len() > 0 ==> chunks@.len() == (symbols@.len() + 249) / 250,
        forall|c: int|
            0 <= c < chunks@.len() ==> views_of(chunks@[c]@) == views_of(symbols@).subrange(
                250 * c,
                chunk_end(symbols@.len() as int, c),
            ),
{
    let mut chunks: Vec<Vec<Vec<u8>>> = Vec::new();
    let n = symbols.len();
    let mut start: usize = 0;
    while start < n
        invariant
            start <= n,
            n == symbols@.len(),
            start == 250 * chunks@.len() || start == n,
            chunks@.len() == (start + 249) / 250,
            forall|c: int|
                0 <= c < chunks@.len() ==> views_of(chunks@[c]@) == views_of(
                    symbols@,
                ).subrange(250 * c, chunk_end(n as int, c)),
        decreases n - start,
    {
        let end = if n - start >= REMOTE_CHUNK_SIZE {
            start + REMOTE_CHUNK_SIZE
        } else {
            n
        };
        let mut chunk: Vec<Vec<u8>> = Vec::new();
        let mut j: usize = start;
        proof {
            assert(views_of(chunk@) =~= views_of(symbols@).subrange(
                start as int,
                start as int,
            ));
        }
        while j < end
            invariant
                start <= j <= end <= n,
                n == symbols@.len(),
                views_of(chunk@) == views_of(symbols@).subrange(start as int, j as int),
            decreases end - j,
        {
            let ghost before = views_of(chunk@);
            chunk.push(slice_to_vec(symbols[j].as_slice()));
            j = j + 1;
            proof {
                assert(views_of(chunk@) =~= before.push(symbols@[j - 1]@));
                assert(views_of(symbols@).subrange(start as int, j as int).drop_last()
                    =~= views_of(symbols@).subrange(start as int, j as int - 1));
                assert(views_of(chunk@) =~= views_of(symbols@).subrange(
                    start as int,
                    j as int,
                ));
            }
        }
        let ghost c = chunks@.len() as int;
        chunks.push(chunk);
        proof {
            assert(end as int == chunk_end(n as int, c));
            assert forall|c2: int|
                0 <= c2 < chunks@.len() implies views_of(chunks@[c2]@) == views_of(
                symbols@,
            ).subrange(250 * c2, chunk_end(n as int, c2)) by {
                if c2 < c {
                    assert(chunks@[c2] == chunks@.drop_last()[c2]);
                }
            }
        }
        start = end;
    }
    chunks
}

/// The boolean-OR separator placed between symbols of one batched query.
pub open spec fn or_sep() -> Seq<u8> {
    seq![43u8, 79u8, 82u8, 43u8]
}

/// The symbols of one chunk joined into a single query string.
pub open spec fn join_query(fs: Seq<Seq<u8>>) -> Seq<u8>
    decreases fs.len(),
{
    if fs.len() == 0 {
        Seq::<u8>::empty()
    } else if fs.len() == 1 {
        fs[0]
    } else {
        join_query(fs.drop_last()) + or_sep() + fs.last()
    }
}

/// Joins a chunk of symbols with `+OR+` into one request query.
pub fn build_batch_query(chunk: &Vec<Vec<u8>>) -> (r: Vec<u8>)
    ensures
        r@ == join_query(views_of(chunk@)),
{
    let mut out: Vec<u8> = Vec::new();
    let n = chunk.len();
    let mut j: usize = 0;
    proof {
        assert(views_of(chunk@).subrange(0, 0) =~= Seq::<Seq<u8>>::empty());
    }
    while j < n
        invariant
            j <= n,
            n == chunk@.len(),
            out@ == join_query(views_of(chunk@).subrange(0, j as int)),
        decreases n - j,
    {
        if j > 0 {
            out.push(43);
            out.push(79);
            out.push(82);
            out.push(43);
        }
        push_all(&mut out, chunk[j].as_slice());
        j = j + 1;
        proof {
            let fs = views_of(chunk@).subrange(0, j as int);
            assert(fs.drop_last() =~= views_of(chunk@).subrange(0, j as int - 1));
            assert(fs.last() == chunk@[j - 1]@);
            if j > 1 {
                assert(out@ =~= join_query(fs.drop_last()) + or_sep() + fs.last());
            }
        }
    }
    proof {
        assert(views_of(chunk@).subrange(0, n as int) =~= views_of(chunk@));
    }
    out
}

/// Merges looked-up documents into the mapping with first-found-wins
/// semantics: an entry already present — whether from the static tables or
/// from an earlier document — is never overwritten, and among documents
/// sharing a symbol the earliest wins.  Identifier values lose any leading
/// `HGNC:`.
pub fn merge_remote_results(map: &mut SymbolMap, docs: &Vec<(Vec<u8>, Vec<u8>)>)
    requires
        old(map).wf(),
    ensures
        final(map).wf(),
        forall|k: Seq<u8>|
            old(map)@.contains_key(k) ==> final(map)@.contains_key(k) && final(map)@[k]
                == old(map)@[k],
        forall|k: Seq<u8>|
            final(map)@.contains_key(k) <==> (old(map)@.contains_key(k) || exists|j: int|
                0 <= j < docs@.len() && docs@[j].0@ == k),
        forall|k: Seq<u8>|
            final(map)@.contains_key(k) && !old(map)@.contains_key(k) ==> exists|j: int|
                0 <= j < docs@.len() && docs@[j].0@ == k && final(map)@[k] == strip_hgnc(
                    docs@[j].1@,
                ) && forall|l: int| 0 <= l < j ==> docs@[l].0@ != k,
{
    let n = docs.len();
    let mut i: usize = 0;
    while i < n
        invariant
            i <= n,
            n == docs@.len(),
            map.wf(),
            forall|k: Seq<u8>|
                old(map)@.contains_key(k) ==> map@.contains_key(k) && map@[k] == old(
                    map,
                )@[k],
            forall|k: Seq<u8>|
                map@.contains_key(k) <==> (old(map)@.contains_key(k) || exists|j: int|
                    0 <= j < i && docs@[j].0@ == k),
            forall|k: Seq<u8>|
                map@.contains_key(k) && !old(map)@.contains_key(k) ==> exists|j: int|
                    0 <= j < i && docs@[j].0@ == k && map@[k] == strip_hgnc(docs@[j].1@)
                        && forall|l: int| 0 <= l < j ==> docs@[l].0@ != k,
        decreases n - i,
    {
        let ghost before = map@;
        let key = slice_to_vec(docs[i].0.as_slice());
        let value = strip_hgnc_prefix(docs[i].1.as_slice());
        map.insert_if_absent(key, value);
        i = i + 1;
        proof {
            assert forall|k: Seq<u8>|
                map@.contains_key(k) <==> (old(map)@.contains_key(k) || exists|j: int|
                    0 <= j < i && docs@[j].0@ == k) by {
                if map@.contains_key(k) && !before.contains_key(k) {
                    assert(docs@[i - 1].0@ == k);
                }
                if !map@.contains_key(k) {
                    if exists|j: int| 0 <= j < i && docs@[j].0@ == k {
                        let j = choose|j: int| 0 <= j < i && docs@[j].0@ == k;
                        if j < i - 1 {
                            assert(before.contains_key(k));
                        } else {
                            assert(docs@[i - 1].0@ == k);
                            assert(map@.contains_key(k));
                        }
                    }
                }
            }
            assert forall|k: Seq<u8>|
                map@.contains_key(k) && !old(map)@.contains_key(k) implies exists|j: int|
                0 <= j < i && docs@[j].0@ == k && map@[k] == strip_hgnc(docs@[j].1@) && (
            forall|l: int| 0 <= l < j ==> docs@[l].0@ != k) by {
                if before.contains_key(k) {
                    let j = choose|j: int|
                        0 <= j < i - 1 && docs@[j].0@ == k && before[k] == strip_hgnc(
                            docs@[j].1@,
                        ) && forall|l: int| 0 <= l < j ==> docs@[l].0@ != k;
                    assert(map@[k] == before[k]);
                    assert(0 <= j < i && docs@[j].0@ == k && map@[k] == strip_hgnc(
                        docs@[j].1@,
                    ) && forall|l: int| 0 <= l < j ==> docs@[l].0@ != k);
                } else {
                    assert(docs@[i - 1].0@ == k && map@[k] == strip_hgnc(docs@[i - 1].1@));
                    assert forall|l: int| 0 <= l < i - 1 implies docs@[l].0@ != k by {
                        if docs@[l].0@ == k {
                            assert(before.contains_key(k));
                        }
                    }
                }
            }
        }
    }
}

/// The previous-symbol fallback: of the documents one single-gene lookup
/// returned, takes the first — symbol and identifier, the identifier losing
/// any leading `HGNC:`.  An empty document list is the network-error case.
pub fn pick_first_doc(docs: &Vec<(Vec<u8>, Vec<u8>)>) -> (r: Result<
    (Vec<u8>, Vec<u8>),
    MapperError,
>)
    ensures
        (r is Ok <==> docs@.len() > 0),
        (r matches Ok(p) ==> p.0@ == docs@[0].0@ && p.1@ == strip_hgnc(docs@[0].1@)),
        (r matches Err(e) ==> e == MapperError::Network),
{
    if docs.len() == 0 {
        return Err(MapperError::Network);
    }
    let symbol = slice_to_vec(docs[0].0.as_slice());
    let id = strip_hgnc_prefix(docs[0].1.as_slice());
    Ok((symbol, id))
}

} // verus!
