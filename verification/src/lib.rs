//! Converts a spreadsheet description of a hardware IP block's register
//! map into a normalized component / address-block / register / field
//! tree, ready for downstream tooling.

use vstd::prelude::*;

pub mod engine;
pub mod error;
pub mod output;
pub mod schema;
pub mod table;
pub mod workbook;
pub mod text;

use crate::error::Error;
use crate::output::{convert_component_to_import_data, ImportData, SpecImportData};
use crate::schema::{err_has_tag, import_component, SheetPool};
use crate::table::build_table;
use crate::workbook::{
    first_bad_grid_from, grid_ok, lemma_import_congruence, lemma_import_sheets_tag, spec_pool,
    spec_import_sheets, table_grid_match,
};

verus! {

/// What the workbook decoder yields for the given bytes: nothing where
/// they do not decode, else each sheet's name with its cell grid, every
/// cell rendered as text and empty cells as nothing. The result is a
/// function of the bytes alone.
pub uninterp spec fn decoded_workbook(data: Seq<u8>) -> Option<
    Seq<(Seq<char>, Seq<Seq<Option<Seq<char>>>>)>,
>;

/// Relies on calamine's Xlsx reader: `open_workbook_from_rs` decodes
/// the workbook bytes, `worksheets` hands each sheet's name and cell
/// range out, and each cell renders as text — date cells through
/// `as_datetime`, empty cells as nothing. The result depends on the
/// bytes alone.
#[verifier::external_body]
fn decode_workbook(data: &[u8]) -> (r: Result<Vec<(String, Vec<Vec<Option<String>>>)>, Error>)
    ensures
        r is Ok <==> decoded_workbook(data@) is Some,
        r matches Ok(sheets) ==> sheets.deep_view() == decoded_workbook(data@)->0,
        r matches Err(e) ==> e is Decode,
{
    let mut wb: calamine::Xlsx<_> =
        match calamine::open_workbook_from_rs(std::io::Cursor::new(data)) {
            Ok(wb) => wb,
            Err(e) => return Err(Error::Decode(format!("{}", e))),
        };
    let cell = |c: &calamine::Data| if calamine::DataType::is_datetime(c) {
        calamine::DataType::as_datetime(c).map(|d| d.to_string())
    } else if calamine::DataType::is_empty(c) {
        None
    } else {
        Some(c.to_string())
    };
    Ok(calamine::Reader::worksheets(&mut wb).into_iter().map(|(n, g)| {
        (n, g.rows().map(|r| r.iter().map(cell).collect()).collect())
    }).collect())
}

/// Converts decoded sheets into the external register-map description:
/// every sheet becomes a table, the "VERSION" sheet names the
/// component, the "ADDRESS_MAP" sheet lists its blocks, and each
/// block's sheet runs through the expansion engine. Each sheet is
/// consumed when first referenced; the first failure anywhere aborts.
pub fn import_from_sheets(sheets: Vec<(String, Vec<Vec<Option<String>>>)>) -> (r: Result<
    ImportData,
    Error,
>)
    ensures
        match r {
            Ok(d) => spec_import_sheets(sheets.deep_view()) == Ok::<SpecImportData, int>(d@),
            Err(e) => spec_import_sheets(sheets.deep_view()) is Err
                && err_has_tag(&e, spec_import_sheets(sheets.deep_view())->Err_0),
        },
{
    let ghost sm = sheets.deep_view();
    let mut pool = SheetPool::new();
    let ns = sheets.len();
    let mut i: usize = 0;
    while i < ns
        invariant
            i <= ns,
            ns == sheets@.len(),
            sm == sheets.deep_view(),
            pool.wf(),
            first_bad_grid_from(sm, 0) == first_bad_grid_from(sm, i as int),
            pool.names.deep_view() == spec_pool(sm, i as int).0,
            pool.tables@.len() == spec_pool(sm, i as int).1.len(),
            forall|k: int| 0 <= k < pool.tables@.len()
                ==> table_grid_match(#[trigger] pool.tables@[k], spec_pool(sm, i as int).1[k]),
        decreases ns - i,
    {
        proof {
            assert(sm[i as int].0 == sheets@[i as int].0@);
            assert(sm[i as int].1 == sheets@[i as int].1.deep_view());
        }
        let t = match build_table(&sheets[i].1) {
            Ok(t) => t,
            Err(e) => {
                proof {
                    assert(!grid_ok(sm[i as int].1));
                    assert(first_bad_grid_from(sm, i as int) == i as int);
                    assert(spec_import_sheets(sm) is Err);
                }
                return Err(e);
            },
        };
        proof {
            assert(table_grid_match(t, sm[i as int].1));
        }
        let ghost pn = pool.names.deep_view();
        let ghost pt = pool.tables@;
        let nm = sheets[i].0.clone();
        let ghost nmv = nm@;
        pool.insert(nm, t);
        i = i + 1;
        proof {
            let prev = spec_pool(sm, i - 1);
            let step = spec_pool(sm, i as int);
            let ix = crate::schema::find_sheet(pn, sm[i - 1].0, 0);
            assert(nmv == sm[i - 1].0);
            assert(pn == prev.0);
            assert(pt.len() == prev.1.len());
            if ix >= 0 {
                crate::schema::lemma_find_sheet_found(pn, sm[i - 1].0, 0);
                assert(0 <= ix < pt.len());
                assert(pool.names.deep_view() == pn.update(ix, nmv));
                assert(pool.tables@ == pt.update(ix, t));
                assert(step.0 == prev.0.update(ix, sm[i - 1].0));
                assert(step.1 == prev.1.update(ix, sm[i - 1].1));
            } else {
                assert(pool.names.deep_view() == pn.push(nmv));
                assert(pool.tables@ == pt.push(t));
                assert(step.0 == prev.0.push(sm[i - 1].0));
                assert(step.1 == prev.1.push(sm[i - 1].1));
            }
            assert(pool.names.deep_view() == step.0);
            assert forall|k: int| 0 <= k < pool.tables@.len()
                implies table_grid_match(#[trigger] pool.tables@[k], step.1[k]) by {
                if ix >= 0 {
                    if k != ix {
                        assert(pt.update(ix, t)[k] == pt[k]);
                        assert(pool.tables@[k] == pt[k]);
                        assert(prev.1.update(ix, sm[i - 1].1)[k] == prev.1[k]);
                        assert(step.1[k] == prev.1[k]);
                        assert(table_grid_match(pt[k], prev.1[k]));
                    } else {
                        assert(pool.tables@[k] == t);
                        assert(step.1[k] == sm[i - 1].1);
                    }
                } else {
                    if k < pt.len() {
                        assert(pool.tables@[k] == pt[k]);
                        assert(step.1[k] == prev.1[k]);
                        assert(table_grid_match(pt[k], prev.1[k]));
                    } else {
                        assert(pool.tables@[k] == t);
                        assert(step.1[k] == sm[i - 1].1);
                    }
                }
            }
            assert(grid_ok(sm[i - 1].1));
            assert(first_bad_grid_from(sm, i - 1) == first_bad_grid_from(sm, i as int));
        }
    }
    proof {
        assert(first_bad_grid_from(sm, ns as int) == -1);
        assert(first_bad_grid_from(sm, 0) == -1);
        lemma_import_congruence(pool.names.deep_view(), pool.tables@, spec_pool(sm, ns as int).1);
    }
    let compo = match import_component(pool) {
        Ok(c) => c,
        Err(e) => {
            return Err(e);
        },
    };
    let d = convert_component_to_import_data(compo);
    Ok(d)
}

/// Converts a workbook's raw bytes into the external register-map
/// description, or reports the first failure: where the bytes decode,
/// the result is exactly the conversion of the decoded sheets.
pub fn parse_excel_to_import_data(data: &[u8]) -> (r: Result<ImportData, Error>)
    ensures
        r is Ok ==> decoded_workbook(data@) is Some,
        r matches Ok(d) ==> spec_import_sheets(decoded_workbook(data@)->0)
            == Ok::<SpecImportData, int>(d@),
        r matches Err(e) ==> {
            &&& (e is Decode <==> decoded_workbook(data@) is None)
            &&& (decoded_workbook(data@) is Some
                ==> spec_import_sheets(decoded_workbook(data@)->0) is Err
                    && err_has_tag(&e, spec_import_sheets(decoded_workbook(data@)->0)->Err_0))
        },
{
    let sheets = match decode_workbook(data) {
        Ok(s) => s,
        Err(e) => {
            return Err(e);
        },
    };
    match import_from_sheets(sheets) {
        Ok(d) => Ok(d),
        Err(e) => {
            proof {
                lemma_import_sheets_tag(sheets.deep_view());
                assert(!(e is Decode));
            }
            Err(e)
        },
    }
}

} // verus!
