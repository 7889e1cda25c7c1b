//! The assembled pipeline: resolve the model's filter set, build the symbol
//! mapping, and turn whole matrix texts into rewritten texts.  Callers read
//! and write the files; everything between the bytes in and the bytes out is
//! specified here.

use vstd::prelude::*;
use crate::error::MapperError;
use crate::filter::filter_genes_by_model;
use crate::filter::filter_cell;
use crate::filter::has_model;
use crate::filter::model_column;
use crate::filter::stripped_model;
use crate::mapping::SymbolMap;
use crate::mapping::get_gene_symbol_name_to_hgnc_id_map;
use crate::mapping::last_value_for;
use crate::mapping::line_fields;
use crate::mapping::line_retained;
use crate::mapping::nomen_well_formed;
use crate::mapping::symbol_retained;
use crate::rewrite::data_lines;
use crate::rewrite::gene_out;
use crate::rewrite::phenotype_line;
use crate::rewrite::process_gene_by_sample_matrix;
use crate::rewrite::process_phenotype_data_matrix;
use crate::table::COMMA;
use crate::table::NEWLINE;
use crate::table::lines_of;
use crate::table::push_all;
use crate::table::split_on;
use crate::table::split_text_lines;
use crate::table::views_of;

verus! {

/// Whether the pipeline's mapping must carry symbol `k` for the chosen
/// model: some nomenclature data line gives `k` an Entrez ID that stands in
/// the model's filter column.
pub open spec fn retained_for_model(
    filter_csv: Seq<u8>,
    nomen_csv: Seq<u8>,
    model: Seq<u8>,
    k: Seq<u8>,
) -> bool {
    let col = model_column(split_on(lines_of(filter_csv)[0], COMMA), stripped_model(model));
    exists|i: int|
        1 <= i < lines_of(nomen_csv).len() && #[trigger] line_fields(nomen_csv, i)[0] == k
            && line_fields(nomen_csv, i).len() >= 3 && filter_cell(
            filter_csv,
            col,
            line_fields(nomen_csv, i)[2],
        )
}

/// Builds the model-restricted symbol mapping from the two reference table
/// texts.  An unknown model fails before anything else is looked at; a
/// malformed table is a parse error; on success the mapping holds exactly
/// the symbols relevant to the model, each valued by the HGNC ID of its
/// last nomenclature occurrence, prefix stripped.
pub fn build_model_symbol_map(filter_csv: &[u8], nomen_csv: &[u8], model: &[u8]) -> (r: Result<
    SymbolMap,
    MapperError,
>)
    ensures
        ({
            let lns = lines_of(filter_csv@);
            let m = stripped_model(model@);
            &&& ((r matches Err(e) && e == MapperError::UnknownModel) <==> (lns.len() > 0
                && !has_model(split_on(lns[0], COMMA), m)))
            &&& (r is Ok <==> (lns.len() > 0 && has_model(split_on(lns[0], COMMA), m)
                && nomen_well_formed(nomen_csv@)))
            &&& ((r matches Err(e) && e == MapperError::Parse) <==> (lns.len() == 0 || (
            lns.len() > 0 && has_model(split_on(lns[0], COMMA), m) && !nomen_well_formed(
                nomen_csv@,
            ))))
            &&& (r matches Ok(mp) ==> {
                &&& mp.wf()
                &&& (forall|k: Seq<u8>|
                    mp@.contains_key(k) <==> retained_for_model(
                        filter_csv@,
                        nomen_csv@,
                        model@,
                        k,
                    ))
                &&& (forall|k: Seq<u8>|
                    mp@.contains_key(k) ==> last_value_for(nomen_csv@, k, mp@[k]))
            })
        }),
{
    let fset = match filter_genes_by_model(filter_csv, model) {
        Ok(f) => f,
        Err(e) => {
            return Err(e);
        },
    };
    let map = match get_gene_symbol_name_to_hgnc_id_map(nomen_csv, &fset) {
        Ok(m) => m,
        Err(e) => {
            return Err(e);
        },
    };
    proof {
        let col = model_column(
            split_on(lines_of(filter_csv@)[0], COMMA),
            stripped_model(model@),
        );
        assert forall|k: Seq<u8>|
            map@.contains_key(k) <==> retained_for_model(
                filter_csv@,
                nomen_csv@,
                model@,
                k,
            ) by {
            if map@.contains_key(k) {
                assert(symbol_retained(nomen_csv@, views_of(fset@), k));
                let i = choose|i: int|
                    #[trigger] line_retained(nomen_csv@, i, views_of(fset@)) && line_fields(
                        nomen_csv@,
                        i,
                    )[0] == k;
                assert(views_of(fset@).contains(line_fields(nomen_csv@, i)[2]));
                assert(filter_cell(filter_csv@, col, line_fields(nomen_csv@, i)[2]));
                assert(1 <= i < lines_of(nomen_csv@).len() && line_fields(nomen_csv@, i)[0]
                    == k && line_fields(nomen_csv@, i).len() >= 3);
            }
            if retained_for_model(filter_csv@, nomen_csv@, model@, k) {
                let i = choose|i: int|
                    1 <= i < lines_of(nomen_csv@).len() && #[trigger] line_fields(
                        nomen_csv@,
                        i,
                    )[0] == k && line_fields(nomen_csv@, i).len() >= 3 && filter_cell(
                        filter_csv@,
                        col,
                        line_fields(nomen_csv@, i)[2],
                    );
                assert(views_of(fset@).contains(line_fields(nomen_csv@, i)[2]));
                assert(line_retained(nomen_csv@, i, views_of(fset@)));
                assert(symbol_retained(nomen_csv@, views_of(fset@), k));
            }
        }
    }
    Ok(map)
}

/// Every line followed by a newline byte.
pub open spec fn unlines(ss: Seq<Seq<u8>>) -> Seq<u8>
    decreases ss.len(),
{
    if ss.len() == 0 {
        Seq::<u8>::empty()
    } else {
        unlines(ss.drop_last()) + ss.last() + seq![NEWLINE]
    }
}

/// Serializes lines back into a text, one newline after each.
pub fn write_lines(lines: &Vec<Vec<u8>>) -> (r: Vec<u8>)
    ensures
        r@ == unlines(views_of(lines@)),
{
    let mut out: Vec<u8> = Vec::new();
    let n = lines.len();
    let mut i: usize = 0;
    proof {
        assert(views_of(lines@).subrange(0, 0) =~= Seq::<Seq<u8>>::empty());
    }
    while i < n
        invariant
            i <= n,
            n == lines@.len(),
            out@ == unlines(views_of(lines@).subrange(0, i as int)),
        decreases n - i,
    {
        push_all(&mut out, lines[i].as_slice());
        out.push(NEWLINE);
        i = i + 1;
        proof {
            let fs = views_of(lines@).subrange(0, i as int);
            assert(fs.drop_last() =~= views_of(lines@).subrange(0, i as int - 1));
            assert(fs.last() == lines@[i - 1]@);
            assert(out@ =~= unlines(fs.drop_last()) + fs.last() + seq![NEWLINE]);
        }
    }
    proof {
        assert(views_of(lines@).subrange(0, n as int) =~= views_of(lines@));
    }
    out
}

/// Rewrites a whole gene-by-sample matrix text through the mapping: the
/// header line is skipped, mapped lines come out rewritten and
/// newline-terminated, unmapped lines are dropped.
pub fn process_gene_matrix_text(text: &[u8], map: &SymbolMap) -> (r: Vec<u8>)
    requires
        map.wf(),
    ensures
        r@ == unlines(gene_out(data_lines(lines_of(text@)), map@)),
{
    let lines = split_text_lines(text);
    let out_lines = process_gene_by_sample_matrix(&lines, map);
    write_lines(&out_lines)
}

/// The phenotype transform applied to every line of a text.
pub open spec fn phenotype_out(ls: Seq<Seq<u8>>) -> Seq<Seq<u8>> {
    Seq::new(ls.len(), |i: int| phenotype_line(ls[i]))
}

/// Transforms a whole phenotype matrix text: every line loses its leading
/// column and its quotes; nothing is skipped or dropped.
pub fn process_phenotype_text(text: &[u8]) -> (r: Vec<u8>)
    ensures
        r@ == unlines(phenotype_out(lines_of(text@))),
{
    let lines = split_text_lines(text);
    let out_lines = process_phenotype_data_matrix(&lines);
    proof {
        assert(views_of(out_lines@) =~= phenotype_out(lines_of(text@)));
    }
    write_lines(&out_lines)
}

} // verus!

