use hgnc_mapper::error::MapperError;
use hgnc_mapper::mapping::SymbolMap;
use hgnc_mapper::remote::build_batch_query;
use hgnc_mapper::remote::chunk_symbols;
use hgnc_mapper::remote::merge_remote_results;
use hgnc_mapper::remote::pick_first_doc;

fn symbols(n: usize) -> Vec<Vec<u8>> {
    let mut v = Vec::new();
    for i in 0..n {
        v.push(format!("G{}", i).into_bytes());
    }
    v
}

#[test]
fn five_hundred_symbols_make_exactly_two_chunks() {
    let s = symbols(500);
    let chunks = chunk_symbols(&s);
    assert_eq!(chunks.len(), 2);
    assert_eq!(chunks[0].len(), 250);
    assert_eq!(chunks[1].len(), 250);
    assert_eq!(chunks[0][0], b"G0".to_vec());
    assert_eq!(chunks[1][0], b"G250".to_vec());
    assert_eq!(chunks[1][249], b"G499".to_vec());
}

#[test]
fn trailing_partial_chunk_holds_the_rest() {
    let s = symbols(501);
    let chunks = chunk_symbols(&s);
    assert_eq!(chunks.len(), 3);
    assert_eq!(chunks[2].len(), 1);
    assert_eq!(chunks[2][0], b"G500".to_vec());
}

#[test]
fn no_symbols_make_no_chunks() {
    let chunks = chunk_symbols(&Vec::new());
    assert_eq!(chunks.len(), 0);
}

#[test]
fn batch_query_joins_with_boolean_or() {
    let chunk = vec![b"BRCA1".to_vec(), b"TP53".to_vec(), b"EGFR".to_vec()];
    assert_eq!(build_batch_query(&chunk), b"BRCA1+OR+TP53+OR+EGFR".to_vec());
    assert_eq!(build_batch_query(&vec![b"ONE".to_vec()]), b"ONE".to_vec());
    assert_eq!(build_batch_query(&Vec::new()), b"".to_vec());
}

#[test]
fn merge_never_overwrites_an_existing_entry() {
    let mut map = SymbolMap::new();
    map.insert_if_absent(b"SYM1".to_vec(), b"100".to_vec());
    let docs = vec![
        (b"SYM1".to_vec(), b"HGNC:777".to_vec()),
        (b"NEW".to_vec(), b"HGNC:5".to_vec()),
    ];
    merge_remote_results(&mut map, &docs);
    assert_eq!(map.get(b"SYM1").unwrap(), &b"100".to_vec());
    assert_eq!(map.get(b"NEW").unwrap(), &b"5".to_vec());
}

#[test]
fn merge_first_document_wins_among_duplicates() {
    let mut map = SymbolMap::new();
    let docs = vec![
        (b"G".to_vec(), b"HGNC:1".to_vec()),
        (b"G".to_vec(), b"HGNC:2".to_vec()),
    ];
    merge_remote_results(&mut map, &docs);
    assert_eq!(map.get(b"G").unwrap(), &b"1".to_vec());
}

#[test]
fn first_doc_strips_prefix() {
    let docs = vec![
        (b"OLD1".to_vec(), b"HGNC:42".to_vec()),
        (b"OLD2".to_vec(), b"HGNC:43".to_vec()),
    ];
    let (sym, id) = pick_first_doc(&docs).unwrap();
    assert_eq!(sym, b"OLD1".to_vec());
    assert_eq!(id, b"42".to_vec());
}

#[test]
fn empty_doc_list_is_a_network_error() {
    let r = pick_first_doc(&Vec::new());
    assert_eq!(r.unwrap_err(), MapperError::Network);
}
