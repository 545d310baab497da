//! The decoded workbook as a value: what the whole conversion yields
//! for a list of named cell grids. Each stage's table-level model is
//! mirrored here over the grids themselves and proved to agree, so the
//! entry points' contracts can speak of the decoded sheets alone.

use vstd::prelude::*;

use crate::engine::{
    addr_lit, attribute_lit, bit_lit, cols_of, cols_present, default_lit, description_lit,
    engine_rows, ffilled, field_lit, parsed_widths, reg_lit, widths_ok_col, width_lit,
    with_desc_default, Cols,
};
use crate::schema::{
    addr_map_lit, block_lit, block_row_state, cell_state, find_sheet, library_lit, name_lit,
    offset_lit, range_lit_col, reg_of_row, row_cells_ok, size32_lit, spec_blocks, spec_import,
    spec_regs_of_table, vendor_lit, version_lit, vlnv_state, SpecBlock, SpecComponent,
    SpecRegister,
};
use crate::output::{spec_convert, SpecImportData};
use crate::table::{dedup_name, find_name, grid_rect, has_dup_names, headers_of, Table};

verus! {

/// True of a table built from the given grid: the bundle of facts the
/// table builder establishes about its result.
pub open spec fn table_grid_match(t: Table, g: Seq<Seq<Option<Seq<char>>>>) -> bool {
    &&& g.len() > 0
    &&& grid_rect(g)
    &&& !has_dup_names(headers_of(g))
    &&& t.wf()
    &&& t.names@.len() == g[0].len()
    &&& forall|i: int| 0 <= i < t.names@.len()
        ==> t.names.deep_view()[i] == dedup_name(headers_of(g), i)
    &&& (g[0].len() > 0 ==> t.height() == g.len() - 1)
    &&& forall|i: int, k: int|
        #![trigger t.cols@[i].deep_view()[k]]
        0 <= i < g[0].len() && 0 <= k < g.len() - 1
        ==> t.cols@[i].deep_view()[k] == g[k + 1][i]
}

/// The column names the builder would give the grid.
pub open spec fn grid_names(g: Seq<Seq<Option<Seq<char>>>>) -> Seq<Seq<char>> {
    Seq::new(g[0].len(), |i: int| dedup_name(headers_of(g), i))
}

/// The number of data rows the grid's table has.
pub open spec fn grid_height(g: Seq<Seq<Option<Seq<char>>>>) -> nat {
    if g[0].len() > 0 {
        (g.len() - 1) as nat
    } else {
        0
    }
}

/// The cells of the grid's column with the given name.
pub open spec fn grid_col(g: Seq<Seq<Option<Seq<char>>>>, name: Seq<char>) -> Seq<
    Option<Seq<char>>,
> {
    let ix = find_name(grid_names(g), name, 0);
    Seq::new(grid_height(g), |k: int| g[k + 1][ix])
}

/// How reading one named cell of the grid's table ends.
pub open spec fn grid_cell_state(g: Seq<Seq<Option<Seq<char>>>>, name: Seq<char>, i: int) -> int {
    if find_name(grid_names(g), name, 0) < 0 {
        1
    } else if i >= grid_height(g) || grid_col(g, name)[i] is None {
        2
    } else {
        0
    }
}

/// How reading the version sheet's first row ends, over the grid.
pub open spec fn grid_vlnv_state(g: Seq<Seq<Option<Seq<char>>>>) -> int {
    if grid_cell_state(g, vendor_lit(), 0) != 0 {
        grid_cell_state(g, vendor_lit(), 0)
    } else if grid_cell_state(g, library_lit(), 0) != 0 {
        grid_cell_state(g, library_lit(), 0)
    } else if grid_cell_state(g, name_lit(), 0) != 0 {
        grid_cell_state(g, name_lit(), 0)
    } else {
        grid_cell_state(g, version_lit(), 0)
    }
}

/// How reading one address-map row ends, over the grid.
pub open spec fn grid_block_row_state(g: Seq<Seq<Option<Seq<char>>>>, i: int) -> int {
    if grid_cell_state(g, block_lit(), i) != 0 {
        grid_cell_state(g, block_lit(), i)
    } else if grid_cell_state(g, offset_lit(), i) != 0 {
        grid_cell_state(g, offset_lit(), i)
    } else {
        grid_cell_state(g, range_lit_col(), i)
    }
}

/// True where the grid's table has all eight engine columns.
pub open spec fn grid_cols_present(g: Seq<Seq<Option<Seq<char>>>>) -> bool {
    &&& find_name(grid_names(g), addr_lit(), 0) >= 0
    &&& find_name(grid_names(g), reg_lit(), 0) >= 0
    &&& find_name(grid_names(g), field_lit(), 0) >= 0
    &&& find_name(grid_names(g), bit_lit(), 0) >= 0
    &&& find_name(grid_names(g), width_lit(), 0) >= 0
    &&& find_name(grid_names(g), attribute_lit(), 0) >= 0
    &&& find_name(grid_names(g), default_lit(), 0) >= 0
    &&& find_name(grid_names(g), description_lit(), 0) >= 0
}

/// The engine's view of the grid's table.
pub open spec fn grid_cols_of(g: Seq<Seq<Option<Seq<char>>>>) -> Cols {
    let wstr = ffilled(grid_col(g, width_lit()));
    Cols {
        addr: ffilled(grid_col(g, addr_lit())),
        reg: ffilled(grid_col(g, reg_lit())),
        field: ffilled(grid_col(g, field_lit())),
        bit: ffilled(grid_col(g, bit_lit())),
        width_str: wstr,
        width_num: parsed_widths(wstr),
        attribute: ffilled(grid_col(g, attribute_lit())),
        default: ffilled(grid_col(g, default_lit())),
        description: ffilled(with_desc_default(grid_col(g, description_lit()))),
    }
}

/// How turning one block grid into registers ends, over the grid.
pub open spec fn grid_regs(g: Seq<Seq<Option<Seq<char>>>>) -> Result<Seq<SpecRegister>, int> {
    if !grid_cols_present(g) {
        Err(1int)
    } else if !widths_ok_col(grid_cols_of(g).width_str) {
        Err(4int)
    } else {
        let rows = engine_rows(grid_cols_of(g));
        if exists|m: int| 0 <= m < rows.len() && !row_cells_ok(#[trigger] rows[m]) {
            Err(2int)
        } else {
            Ok(Seq::new(rows.len(), |m: int| reg_of_row(rows[m])))
        }
    }
}

/// The blocks the address-map grid's rows from `i` on yield against
/// the grid pool, mirroring the table-level resolution.
pub open spec fn grid_blocks(
    names: Seq<Seq<char>>,
    grids: Seq<Seq<Seq<Option<Seq<char>>>>>,
    ag: Seq<Seq<Option<Seq<char>>>>,
    i: int,
    n: int,
) -> Result<Seq<SpecBlock>, int>
    decreases n - i,
{
    if i >= n {
        Ok(Seq::empty())
    } else if grid_block_row_state(ag, i) != 0 {
        Err(grid_block_row_state(ag, i))
    } else {
        let bname = grid_col(ag, block_lit())[i]->0;
        let ix = find_sheet(names, bname, 0);
        if ix < 0 || ix >= grids.len() {
            Err(3int)
        } else {
            match grid_regs(grids[ix]) {
                Ok(regs) => match grid_blocks(names.remove(ix), grids.remove(ix), ag, i + 1, n) {
                    Ok(rest) => Ok(
                        seq![SpecBlock {
                            name: bname,
                            offset: grid_col(ag, offset_lit())[i]->0,
                            range: grid_col(ag, range_lit_col())[i]->0,
                            size: size32_lit(),
                            regs,
                        }] + rest,
                    ),
                    Err(tg) => Err(tg),
                },
                Err(tg) => Err(tg),
            }
        }
    }
}

/// What resolving a pool of named grids yields.
pub open spec fn grid_import(
    names: Seq<Seq<char>>,
    grids: Seq<Seq<Seq<Option<Seq<char>>>>>,
) -> Result<SpecComponent, int> {
    let vix = find_sheet(names, version_lit(), 0);
    if vix < 0 || vix >= grids.len() {
        Err(3int)
    } else {
        let vg = grids[vix];
        if grid_vlnv_state(vg) != 0 {
            Err(grid_vlnv_state(vg))
        } else {
            let names1 = names.remove(vix);
            let grids1 = grids.remove(vix);
            let aix = find_sheet(names1, addr_map_lit(), 0);
            if aix < 0 || aix >= grids1.len() {
                Err(3int)
            } else {
                let ag = grids1[aix];
                match grid_blocks(
                    names1.remove(aix),
                    grids1.remove(aix),
                    ag,
                    0,
                    grid_height(ag) as int,
                ) {
                    Ok(bs) => Ok(
                        SpecComponent {
                            vendor: grid_col(vg, vendor_lit())[0]->0,
                            library: grid_col(vg, library_lit())[0]->0,
                            name: grid_col(vg, name_lit())[0]->0,
                            version: grid_col(vg, version_lit())[0]->0,
                            blks: bs,
                        },
                    ),
                    Err(tg) => Err(tg),
                }
            }
        }
    }
}

/// True of a grid the table builder accepts.
pub open spec fn grid_ok(g: Seq<Seq<Option<Seq<char>>>>) -> bool {
    g.len() > 0 && grid_rect(g) && !has_dup_names(headers_of(g))
}

/// Position of the first sheet whose grid the builder refuses, or -1.
pub open spec fn first_bad_grid_from(
    sheets: Seq<(Seq<char>, Seq<Seq<Option<Seq<char>>>>)>,
    i: int,
) -> int
    decreases sheets.len() - i,
{
    if i < 0 || i >= sheets.len() {
        -1
    } else if !grid_ok(sheets[i].1) {
        i
    } else {
        first_bad_grid_from(sheets, i + 1)
    }
}

/// The pool the first `i` sheets leave: later sheets replace earlier
/// ones whose names match.
pub open spec fn spec_pool(sheets: Seq<(Seq<char>, Seq<Seq<Option<Seq<char>>>>)>, i: int) -> (
    Seq<Seq<char>>,
    Seq<Seq<Seq<Option<Seq<char>>>>>,
)
    decreases i,
{
    if i <= 0 {
        (Seq::empty(), Seq::empty())
    } else {
        let (ns, gs) = spec_pool(sheets, i - 1);
        let ix = find_sheet(ns, sheets[i - 1].0, 0);
        if ix >= 0 {
            (ns.update(ix, sheets[i - 1].0), gs.update(ix, sheets[i - 1].1))
        } else {
            (ns.push(sheets[i - 1].0), gs.push(sheets[i - 1].1))
        }
    }
}

/// Everything the conversion yields for a list of decoded sheets: the
/// first refused grid decides, else the pool of all sheets resolves
/// and the resulting component maps into the external schema.
pub open spec fn spec_import_sheets(sheets: Seq<(Seq<char>, Seq<Seq<Option<Seq<char>>>>)>) -> Result<
    SpecImportData,
    int,
> {
    let fb = first_bad_grid_from(sheets, 0);
    if fb >= 0 {
        if sheets[fb].1.len() == 0 {
            Err(5int)
        } else {
            Err(1int)
        }
    } else {
        let (ns, gs) = spec_pool(sheets, sheets.len() as int);
        match grid_import(ns, gs) {
            Ok(c) => Ok(spec_convert(c)),
            Err(tg) => Err(tg),
        }
    }
}

/// A found name stands inside the list and names that column.
proof fn lemma_find_name_found(names: Seq<Seq<char>>, name: Seq<char>, i: int)
    requires
        0 <= i,
        find_name(names, name, i) >= 0,
    ensures
        i <= find_name(names, name, i) < names.len(),
        names[find_name(names, name, i)] == name,
    decreases names.len() - i,
{
    if i < names.len() && names[i] != name {
        lemma_find_name_found(names, name, i + 1);
    }
}

/// A matching table reads exactly as its grid does: same column
/// positions, same height, and the same cells for any found column.
proof fn lemma_col_congruence(t: Table, g: Seq<Seq<Option<Seq<char>>>>, name: Seq<char>)
    requires
        table_grid_match(t, g),
    ensures
        t.col_index_spec(name) == find_name(grid_names(g), name, 0),
        t.height() == grid_height(g),
        t.col_index_spec(name) >= 0 ==> t.col_spec(name) == grid_col(g, name),
{
    assert(t.names.deep_view() =~= grid_names(g));
    if g[0].len() == 0 {
        assert(t.cols@.len() == 0);
        assert(t.height() == 0);
    }
    let ix = t.col_index_spec(name);
    if ix >= 0 {
        lemma_find_name_found(t.names.deep_view(), name, 0);
        assert(t.cols@[ix]@.len() == t.height());
        assert(t.col_spec(name) =~= grid_col(g, name));
    }
}

/// One named cell reads the same from the table and from the grid.
proof fn lemma_cell_congruence(
    t: Table,
    g: Seq<Seq<Option<Seq<char>>>>,
    name: Seq<char>,
    i: int,
)
    requires
        table_grid_match(t, g),
    ensures
        cell_state(&t, name, i) == grid_cell_state(g, name, i),
        cell_state(&t, name, i) == 0 ==> t.col_spec(name)[i] == grid_col(g, name)[i],
{
    lemma_col_congruence(t, g, name);
}

/// The version row reads the same from the table and from the grid.
proof fn lemma_vlnv_congruence(t: Table, g: Seq<Seq<Option<Seq<char>>>>)
    requires
        table_grid_match(t, g),
    ensures
        vlnv_state(&t) == grid_vlnv_state(g),
        vlnv_state(&t) == 0 ==> {
            &&& t.col_spec(vendor_lit())[0] == grid_col(g, vendor_lit())[0]
            &&& t.col_spec(library_lit())[0] == grid_col(g, library_lit())[0]
            &&& t.col_spec(name_lit())[0] == grid_col(g, name_lit())[0]
            &&& t.col_spec(version_lit())[0] == grid_col(g, version_lit())[0]
        },
{
    lemma_cell_congruence(t, g, vendor_lit(), 0);
    lemma_cell_congruence(t, g, library_lit(), 0);
    lemma_cell_congruence(t, g, name_lit(), 0);
    lemma_cell_congruence(t, g, version_lit(), 0);
}

/// One address-map row reads the same from the table and the grid.
proof fn lemma_block_row_congruence(t: Table, g: Seq<Seq<Option<Seq<char>>>>, i: int)
    requires
        table_grid_match(t, g),
    ensures
        block_row_state(&t, i) == grid_block_row_state(g, i),
        block_row_state(&t, i) == 0 ==> {
            &&& t.col_spec(block_lit())[i] == grid_col(g, block_lit())[i]
            &&& t.col_spec(offset_lit())[i] == grid_col(g, offset_lit())[i]
            &&& t.col_spec(range_lit_col())[i] == grid_col(g, range_lit_col())[i]
        },
{
    lemma_cell_congruence(t, g, block_lit(), i);
    lemma_cell_congruence(t, g, offset_lit(), i);
    lemma_cell_congruence(t, g, range_lit_col(), i);
}

/// A block sheet yields the same registers from the table and the grid.
proof fn lemma_regs_congruence(t: Table, g: Seq<Seq<Option<Seq<char>>>>)
    requires
        table_grid_match(t, g),
    ensures
        spec_regs_of_table(t) == grid_regs(g),
{
    lemma_col_congruence(t, g, addr_lit());
    lemma_col_congruence(t, g, reg_lit());
    lemma_col_congruence(t, g, field_lit());
    lemma_col_congruence(t, g, bit_lit());
    lemma_col_congruence(t, g, width_lit());
    lemma_col_congruence(t, g, attribute_lit());
    lemma_col_congruence(t, g, default_lit());
    lemma_col_congruence(t, g, description_lit());
    assert(cols_present(&t) == grid_cols_present(g));
    if cols_present(&t) {
        assert(cols_of(&t).addr == grid_cols_of(g).addr);
        assert(cols_of(&t).reg == grid_cols_of(g).reg);
        assert(cols_of(&t).field == grid_cols_of(g).field);
        assert(cols_of(&t).bit == grid_cols_of(g).bit);
        assert(cols_of(&t).width_str == grid_cols_of(g).width_str);
        assert(cols_of(&t).width_num == grid_cols_of(g).width_num);
        assert(cols_of(&t).attribute == grid_cols_of(g).attribute);
        assert(cols_of(&t).default == grid_cols_of(g).default);
        assert(cols_of(&t).description == grid_cols_of(g).description);
        assert(cols_of(&t) == grid_cols_of(g));
    }
}

/// The block resolution agrees between matching tables and grids.
proof fn lemma_blocks_congruence(
    names: Seq<Seq<char>>,
    tables: Seq<Table>,
    grids: Seq<Seq<Seq<Option<Seq<char>>>>>,
    at: Table,
    ag: Seq<Seq<Option<Seq<char>>>>,
    i: int,
    n: int,
)
    requires
        tables.len() == grids.len(),
        forall|k: int| 0 <= k < tables.len()
            ==> table_grid_match(#[trigger] tables[k], grids[k]),
        table_grid_match(at, ag),
    ensures
        spec_blocks(names, tables, at, i, n) == grid_blocks(names, grids, ag, i, n),
    decreases n - i,
{
    if i < n {
        lemma_block_row_congruence(at, ag, i);
        if block_row_state(&at, i) == 0 {
            let bname = at.col_spec(block_lit())[i]->0;
            let ix = find_sheet(names, bname, 0);
            if 0 <= ix < tables.len() {
                assert(table_grid_match(tables[ix], grids[ix]));
                lemma_regs_congruence(tables[ix], grids[ix]);
                assert forall|k: int| 0 <= k < tables.remove(ix).len()
                    implies table_grid_match(
                        #[trigger] tables.remove(ix)[k],
                        grids.remove(ix)[k],
                    ) by {
                    let korig = if k < ix { k } else { k + 1 };
                    assert(tables.remove(ix)[k] == tables[korig]);
                    assert(grids.remove(ix)[k] == grids[korig]);
                }
                lemma_blocks_congruence(
                    names.remove(ix),
                    tables.remove(ix),
                    grids.remove(ix),
                    at,
                    ag,
                    i + 1,
                    n,
                );
            }
        }
    }
}

/// The whole pool resolution agrees between matching tables and grids.
pub proof fn lemma_import_congruence(
    names: Seq<Seq<char>>,
    tables: Seq<Table>,
    grids: Seq<Seq<Seq<Option<Seq<char>>>>>,
)
    requires
        tables.len() == grids.len(),
        forall|k: int| 0 <= k < tables.len()
            ==> table_grid_match(#[trigger] tables[k], grids[k]),
    ensures
        spec_import(names, tables) == grid_import(names, grids),
{
    let vix = find_sheet(names, version_lit(), 0);
    if 0 <= vix < tables.len() {
        assert(table_grid_match(tables[vix], grids[vix]));
        lemma_vlnv_congruence(tables[vix], grids[vix]);
        if vlnv_state(&tables[vix]) == 0 {
            let names1 = names.remove(vix);
            let tables1 = tables.remove(vix);
            let grids1 = grids.remove(vix);
            assert forall|k: int| 0 <= k < tables1.len()
                implies table_grid_match(#[trigger] tables1[k], grids1[k]) by {
                let korig = if k < vix { k } else { k + 1 };
                assert(tables1[k] == tables[korig]);
                assert(grids1[k] == grids[korig]);
            }
            let aix = find_sheet(names1, addr_map_lit(), 0);
            if 0 <= aix < tables1.len() {
                assert(table_grid_match(tables1[aix], grids1[aix]));
                lemma_col_congruence(tables1[aix], grids1[aix], block_lit());
                let tables2 = tables1.remove(aix);
                let grids2 = grids1.remove(aix);
                assert forall|k: int| 0 <= k < tables2.len()
                    implies table_grid_match(#[trigger] tables2[k], grids2[k]) by {
                    let korig = if k < aix { k } else { k + 1 };
                    assert(tables2[k] == tables1[korig]);
                    assert(grids2[k] == grids1[korig]);
                }
                lemma_blocks_congruence(
                    names1.remove(aix),
                    tables2,
                    grids2,
                    tables1[aix],
                    grids1[aix],
                    0,
                    tables1[aix].height() as int,
                );
            }
        }
    }
}

/// Every failure code the grid-level block resolution yields lies
/// between 1 and 4.
proof fn lemma_grid_blocks_tag(
    names: Seq<Seq<char>>,
    grids: Seq<Seq<Seq<Option<Seq<char>>>>>,
    ag: Seq<Seq<Option<Seq<char>>>>,
    i: int,
    n: int,
)
    ensures
        grid_blocks(names, grids, ag, i, n) matches Err(tg) ==> 1 <= tg <= 4,
    decreases n - i,
{
    if i < n && grid_block_row_state(ag, i) == 0 {
        let bname = grid_col(ag, block_lit())[i]->0;
        let ix = find_sheet(names, bname, 0);
        if 0 <= ix < grids.len() {
            lemma_grid_blocks_tag(names.remove(ix), grids.remove(ix), ag, i + 1, n);
        }
    }
}

/// Every failure code a sheet-list conversion yields lies between 1
/// and 5: the decode failure's code never arises past the decode.
pub proof fn lemma_import_sheets_tag(sheets: Seq<(Seq<char>, Seq<Seq<Option<Seq<char>>>>)>)
    ensures
        spec_import_sheets(sheets) matches Err(tg) ==> 1 <= tg <= 5,
{
    if first_bad_grid_from(sheets, 0) < 0 {
        let (ns, gs) = spec_pool(sheets, sheets.len() as int);
        let vix = find_sheet(ns, version_lit(), 0);
        if 0 <= vix < gs.len() {
            if grid_vlnv_state(gs[vix]) == 0 {
                let ns1 = ns.remove(vix);
                let gs1 = gs.remove(vix);
                let aix = find_sheet(ns1, addr_map_lit(), 0);
                if 0 <= aix < gs1.len() {
                    lemma_grid_blocks_tag(
                        ns1.remove(aix),
                        gs1.remove(aix),
                        gs1[aix],
                        0,
                        grid_height(gs1[aix]) as int,
                    );
                }
            }
        }
    }
}

} // verus!
