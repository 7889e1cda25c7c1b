use hgnc_mapper::error::MapperError;
use hgnc_mapper::filter::filter_genes_by_model;
use hgnc_mapper::mapping::get_gene_symbol_name_to_hgnc_id_map;
use hgnc_mapper::pipeline::build_model_symbol_map;

const FILTER: &[u8] = b"modelA,modelB\n300,400\n200,\n300,500\n,600\n";

#[test]
fn filter_set_is_sorted_and_deduplicated() {
    let out = filter_genes_by_model(FILTER, b"modelA").unwrap();
    assert_eq!(out, vec![b"200".to_vec(), b"300".to_vec()]);
}

#[test]
fn filter_set_second_column() {
    let out = filter_genes_by_model(FILTER, b"modelB").unwrap();
    assert_eq!(out, vec![b"400".to_vec(), b"500".to_vec(), b"600".to_vec()]);
}

#[test]
fn filter_set_is_stable_across_runs() {
    let a = filter_genes_by_model(FILTER, b"modelA").unwrap();
    let b = filter_genes_by_model(FILTER, b"modelA").unwrap();
    assert_eq!(a, b);
}

#[test]
fn model_suffix_is_stripped_before_lookup() {
    let with_suffix = filter_genes_by_model(FILTER, b"modelA.mat").unwrap();
    let bare = filter_genes_by_model(FILTER, b"modelA").unwrap();
    assert_eq!(with_suffix, bare);
}

#[test]
fn unknown_model_is_rejected() {
    let r = filter_genes_by_model(FILTER, b"no_such_model");
    assert_eq!(r.unwrap_err(), MapperError::UnknownModel);
}

#[test]
fn empty_filter_table_is_a_parse_error() {
    let r = filter_genes_by_model(b"", b"modelA");
    assert_eq!(r.unwrap_err(), MapperError::Parse);
}

#[test]
fn unknown_model_fails_the_whole_pipeline() {
    let nomen = b"symbol,hgnc_id,entrez_id\nSYM1,HGNC:100,200\n";
    let r = build_model_symbol_map(FILTER, nomen, b"missing.mat");
    assert_eq!(r.unwrap_err(), MapperError::UnknownModel);
}

#[test]
fn round_trip_strips_hgnc_prefix() {
    let filter = b"modelA\n200\n";
    let nomen = b"symbol,hgnc_id,entrez_id\nSYM1,HGNC:100,200\n";
    let fset = filter_genes_by_model(filter, b"modelA.mat").unwrap();
    let map = get_gene_symbol_name_to_hgnc_id_map(nomen, &fset).unwrap();
    assert_eq!(map.get(b"SYM1").unwrap(), &b"100".to_vec());
    assert_eq!(map.len(), 1);
}

#[test]
fn mapping_excludes_symbols_outside_filter_set() {
    let filter = b"modelA\n200\n";
    let nomen = b"symbol,hgnc_id,entrez_id\nSYM1,HGNC:100,200\nSYM2,HGNC:999,555\n";
    let fset = filter_genes_by_model(filter, b"modelA").unwrap();
    let map = get_gene_symbol_name_to_hgnc_id_map(nomen, &fset).unwrap();
    assert!(map.get(b"SYM1").is_some());
    assert!(map.get(b"SYM2").is_none());
    assert_eq!(map.len(), 1);
}

#[test]
fn duplicate_symbol_keeps_last_occurrence() {
    let filter = b"modelA\n200\n";
    let nomen = b"symbol,hgnc_id,entrez_id\nSYM1,HGNC:1,200\nSYM1,HGNC:2,200\n";
    let fset = filter_genes_by_model(filter, b"modelA").unwrap();
    let map = get_gene_symbol_name_to_hgnc_id_map(nomen, &fset).unwrap();
    assert_eq!(map.get(b"SYM1").unwrap(), &b"2".to_vec());
}

#[test]
fn short_nomenclature_line_is_a_parse_error() {
    let filter = b"modelA\n200\n";
    let nomen = b"symbol,hgnc_id,entrez_id\nonlyonefield\n";
    let fset = filter_genes_by_model(filter, b"modelA").unwrap();
    let r = get_gene_symbol_name_to_hgnc_id_map(nomen, &fset);
    assert_eq!(r.unwrap_err(), MapperError::Parse);
}

#[test]
fn empty_entrez_cell_is_not_collected() {
    // The empty cells of modelB's column must not appear in modelA's set
    // and vice versa; an empty Entrez cell never enters a filter set.
    let out = filter_genes_by_model(b"m\n\n\n123\n", b"m").unwrap();
    assert_eq!(out, vec![b"123".to_vec()]);
}

#[test]
fn pipeline_builds_model_restricted_map() {
    let nomen = b"symbol,hgnc_id,entrez_id\nSYM1,HGNC:100,200\nSYM2,HGNC:999,555\nSYM3,HGNC:7,300\n";
    let map = build_model_symbol_map(FILTER, nomen, b"modelA.mat").unwrap();
    assert_eq!(map.get(b"SYM1").unwrap(), &b"100".to_vec());
    assert_eq!(map.get(b"SYM3").unwrap(), &b"7".to_vec());
    assert!(map.get(b"SYM2").is_none());
}
