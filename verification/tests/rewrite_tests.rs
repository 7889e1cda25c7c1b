use hgnc_mapper::mapping::SymbolMap;
use hgnc_mapper::pipeline::build_model_symbol_map;
use hgnc_mapper::pipeline::process_gene_matrix_text;
use hgnc_mapper::pipeline::process_phenotype_text;
use hgnc_mapper::rewrite::rewrite_gene_line;
use hgnc_mapper::rewrite::transform_phenotype_line;

fn map_of(pairs: &[(&[u8], &[u8])]) -> SymbolMap {
    let mut m = SymbolMap::new();
    for (k, v) in pairs {
        m.insert_if_absent(k.to_vec(), v.to_vec());
    }
    m
}

#[test]
fn mapped_line_is_rewritten_and_unmapped_line_dropped() {
    let map = map_of(&[(b"SYM1", b"100")]);
    let text = b"gene,a,b\n\"SYM1\",1.0,2.0\n\"SYM2\",3.0,4.0\n";
    let out = process_gene_matrix_text(text, &map);
    assert_eq!(out, b"100\t1.0\t2.0\n".to_vec());
}

#[test]
fn header_line_is_always_skipped() {
    let map = map_of(&[(b"gene", b"X"), (b"SYM1", b"100")]);
    let text = b"gene,a\n\"SYM1\",5\n";
    let out = process_gene_matrix_text(text, &map);
    assert_eq!(out, b"100\t5\n".to_vec());
}

#[test]
fn empty_gene_matrix_gives_empty_output() {
    let map = map_of(&[(b"SYM1", b"100")]);
    assert_eq!(process_gene_matrix_text(b"", &map), b"".to_vec());
    assert_eq!(process_gene_matrix_text(b"gene,a\n", &map), b"".to_vec());
}

#[test]
fn rewrite_single_line_hit_and_miss() {
    let map = map_of(&[(b"SYM1", b"100")]);
    let hit = rewrite_gene_line(b"\"SYM1\",1.0", &map);
    assert_eq!(hit.unwrap(), b"100\t1.0".to_vec());
    let miss = rewrite_gene_line(b"\"SYM9\",1.0", &map);
    assert!(miss.is_none());
}

#[test]
fn substitution_replaces_first_occurrence_only() {
    // The key text recurs later in the line; only the earliest occurrence
    // is replaced, as the whole-line substitution has always done.
    let map = map_of(&[(b"AB", b"Z")]);
    let out = rewrite_gene_line(b"\"AB\",AB", &map);
    assert_eq!(out.unwrap(), b"Z\tAB".to_vec());
}

#[test]
fn phenotype_line_drops_leading_column_and_quotes() {
    let out = transform_phenotype_line(b"\"id\",\"A\",\"B\"");
    assert_eq!(out, b"A,B".to_vec());
}

#[test]
fn phenotype_text_has_no_header_distinction() {
    let out = process_phenotype_text(b"\"id\",\"A\",\"B\"\n\"1\",\"x\",\"y\"\n");
    assert_eq!(out, b"A,B\nx,y\n".to_vec());
}

#[test]
fn phenotype_single_column_line_becomes_empty() {
    let out = process_phenotype_text(b"lonely\n");
    assert_eq!(out, b"\n".to_vec());
}

#[test]
fn whole_pipeline_rewrites_matrix() {
    let filter = b"modelA,modelB\n200,400\n";
    let nomen = b"symbol,hgnc_id,entrez_id\nSYM1,HGNC:100,200\nSYM2,HGNC:999,555\n";
    let map = build_model_symbol_map(filter, nomen, b"modelA.mat").unwrap();
    let text = b"gene,s1,s2\n\"SYM1\",1.5,2.5\n\"SYM2\",9,9\n";
    let out = process_gene_matrix_text(text, &map);
    assert_eq!(out, b"100\t1.5\t2.5\n".to_vec());
}
