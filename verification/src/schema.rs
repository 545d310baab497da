//! The internal component tree and the schema mapper: the sheet pool
//! consumed by lookups, the version and address-map readers, and the
//! mapping from engine rows to registers.

use vstd::prelude::*;
use vstd::string::*;

use crate::engine::{RegRow, SpecRegRow};
use crate::error::Error;
use crate::table::Table;
use crate::text::{str_ieq, str_ieq_exec, trim_str, trimmed};

verus! {

/// One field of a register, all values as text.
pub struct Field {
    pub name: String,
    pub offset: String,
    pub width: String,
    pub attr: String,
    pub reset: String,
    pub desc: String,
}

pub ghost struct SpecField {
    pub name: Seq<char>,
    pub offset: Seq<char>,
    pub width: Seq<char>,
    pub attr: Seq<char>,
    pub reset: Seq<char>,
    pub desc: Seq<char>,
}

impl View for Field {
    type V = SpecField;

    open spec fn view(&self) -> SpecField {
        SpecField {
            name: self.name@,
            offset: self.offset@,
            width: self.width@,
            attr: self.attr@,
            reset: self.reset@,
            desc: self.desc@,
        }
    }
}

impl DeepView for Field {
    type V = SpecField;

    open spec fn deep_view(&self) -> SpecField {
        self.view()
    }
}

/// One concrete register with its fields.
pub struct Register {
    pub name: String,
    pub offset: String,
    pub size: String,
    pub fields: Vec<Field>,
}

pub ghost struct SpecRegister {
    pub name: Seq<char>,
    pub offset: Seq<char>,
    pub size: Seq<char>,
    pub fields: Seq<SpecField>,
}

impl View for Register {
    type V = SpecRegister;

    open spec fn view(&self) -> SpecRegister {
        SpecRegister {
            name: self.name@,
            offset: self.offset@,
            size: self.size@,
            fields: self.fields.deep_view(),
        }
    }
}

impl DeepView for Register {
    type V = SpecRegister;

    open spec fn deep_view(&self) -> SpecRegister {
        self.view()
    }
}

/// One address block with its registers.
pub struct Block {
    pub name: String,
    pub offset: String,
    pub range: String,
    pub size: String,
    pub regs: Vec<Register>,
}

pub ghost struct SpecBlock {
    pub name: Seq<char>,
    pub offset: Seq<char>,
    pub range: Seq<char>,
    pub size: Seq<char>,
    pub regs: Seq<SpecRegister>,
}

impl View for Block {
    type V = SpecBlock;

    open spec fn view(&self) -> SpecBlock {
        SpecBlock {
            name: self.name@,
            offset: self.offset@,
            range: self.range@,
            size: self.size@,
            regs: self.regs.deep_view(),
        }
    }
}

impl DeepView for Block {
    type V = SpecBlock;

    open spec fn deep_view(&self) -> SpecBlock {
        self.view()
    }
}

/// The component: its identifier tuple and its blocks.
pub struct Component {
    pub vendor: String,
    pub library: String,
    pub name: String,
    pub version: String,
    pub blks: Vec<Block>,
}

pub ghost struct SpecComponent {
    pub vendor: Seq<char>,
    pub library: Seq<char>,
    pub name: Seq<char>,
    pub version: Seq<char>,
    pub blks: Seq<SpecBlock>,
}

impl View for Component {
    type V = SpecComponent;

    open spec fn view(&self) -> SpecComponent {
        SpecComponent {
            vendor: self.vendor@,
            library: self.library@,
            name: self.name@,
            version: self.version@,
            blks: self.blks.deep_view(),
        }
    }
}

/// True of two sheet names equal after trimming, without regard to
/// letter case; the case folding covers the ASCII letters.
pub open spec fn sheet_key_match(stored: Seq<char>, query: Seq<char>) -> bool {
    str_ieq(trimmed(stored, false), trimmed(query, false))
}

/// Position of the first stored sheet whose name matches the query at
/// or after `i`, or -1.
pub open spec fn find_sheet(names: Seq<Seq<char>>, query: Seq<char>, i: int) -> int
    decreases names.len() - i,
{
    if i < 0 || i >= names.len() {
        -1
    } else if sheet_key_match(names[i], query) {
        i
    } else {
        find_sheet(names, query, i + 1)
    }
}

/// Compares two sheet names.
pub fn sheet_key_match_exec(stored: &str, query: &str) -> (r: bool)
    ensures
        r == sheet_key_match(stored@, query@),
{
    let a = trim_str(stored, false);
    let b = trim_str(query, false);
    str_ieq_exec(a.as_str(), b.as_str())
}

/// The pool of sheets awaiting use, each a named table. A lookup hands
/// the table out and removes it: a second reference to one name fails.
pub struct SheetPool {
    pub names: Vec<String>,
    pub tables: Vec<Table>,
}

impl SheetPool {
    /// Names and tables pair up, every table is well formed, and no
    /// two stored names match one another.
    pub open spec fn wf(&self) -> bool {
        &&& self.names@.len() == self.tables@.len()
        &&& forall|i: int| 0 <= i < self.tables@.len() ==> (#[trigger] self.tables@[i]).wf()
        &&& forall|i: int, j: int| 0 <= i < j < self.names@.len()
            ==> !sheet_key_match(self.names.deep_view()[i], self.names.deep_view()[j])
    }

    /// An empty pool.
    pub fn new() -> (r: SheetPool)
        ensures
            r.wf(),
            r.names@.len() == 0,
    {
        SheetPool { names: Vec::new(), tables: Vec::new() }
    }

    /// Stores one sheet, replacing any sheet whose name matches.
    pub fn insert(&mut self, name: String, table: Table)
        requires
            old(self).wf(),
            table.wf(),
        ensures
            final(self).wf(),
            final(self).names@.len() >= old(self).names@.len(),
            ({
                let ix = find_sheet(old(self).names.deep_view(), name@, 0);
                if ix >= 0 {
                    &&& final(self).names.deep_view()
                        == old(self).names.deep_view().update(ix, name@)
                    &&& final(self).tables@ == old(self).tables@.update(ix, table)
                } else {
                    &&& final(self).names.deep_view()
                        == old(self).names.deep_view().push(name@)
                    &&& final(self).tables@ == old(self).tables@.push(table)
                }
            }),
    {
        let n = self.names.len();
        let mut i: usize = 0;
        while i < n
            invariant
                i <= n,
                n == self.names@.len(),
                *self == *old(self),
                self.wf(),
                table.wf(),
                find_sheet(self.names.deep_view(), name@, 0)
                    == find_sheet(self.names.deep_view(), name@, i as int),
                forall|j: int| 0 <= j < i
                    ==> !sheet_key_match(self.names.deep_view()[j], name@),
            decreases n - i,
        {
            if sheet_key_match_exec(self.names[i].as_str(), name.as_str()) {
                let ghost nv = self.names.deep_view();
                self.names.set(i, name);
                self.tables.set(i, table);
                proof {
                    assert(self.names.deep_view() =~= nv.update(i as int, name@));
                    assert forall|a: int, b: int| 0 <= a < b < self.names@.len()
                        implies !sheet_key_match(
                            self.names.deep_view()[a],
                            self.names.deep_view()[b],
                        ) by {
                        if a != i as int && b != i as int {
                            assert(!sheet_key_match(nv[a], nv[b]));
                        } else if b == i as int {
                            assert(!sheet_key_match(nv[a], name@));
                            lemma_key_match_canon(nv[a], name@);
                            lemma_key_match_canon(nv[i as int], name@);
                            lemma_key_match_canon(nv[a], nv[i as int]);
                            assert(!sheet_key_match(nv[a], nv[b]));
                            lemma_key_match_canon(nv[a], nv[b]);
                        } else {
                            assert(!sheet_key_match(nv[a], nv[b]));
                            lemma_key_match_canon(nv[i as int], name@);
                            lemma_key_match_canon(nv[a], nv[b]);
                            lemma_key_match_canon(name@, nv[b]);
                        }
                    }
                }
                return;
            }
            i = i + 1;
        }
        let ghost nv = self.names.deep_view();
        self.names.push(name);
        self.tables.push(table);
        proof {
            assert(self.names.deep_view() =~= nv.push(name@));
            assert forall|a: int, b: int| 0 <= a < b < self.names@.len()
                implies !sheet_key_match(
                    self.names.deep_view()[a],
                    self.names.deep_view()[b],
                ) by {
                if b < self.names@.len() - 1 {
                    assert(!sheet_key_match(nv[a], nv[b]));
                } else {
                    assert(self.names.deep_view()[b] == name@);
                    assert(!sheet_key_match(nv[a], name@));
                }
            }
        }
    }

    /// Hands the sheet with the matching name out, removing it from
    /// the pool; where no name matches, reports it as not found.
    pub fn take(&mut self, name: &str) -> (r: Result<Table, Error>)
        requires
            old(self).wf(),
        ensures
            final(self).wf(),
            match r {
                Ok(tb) => {
                    let ix = find_sheet(old(self).names.deep_view(), name@, 0);
                    &&& ix >= 0
                    &&& tb == old(self).tables@[ix]
                    &&& tb.wf()
                    &&& final(self).names.deep_view()
                        == old(self).names.deep_view().remove(ix)
                    &&& final(self).tables@ == old(self).tables@.remove(ix)
                },
                Err(e) => {
                    &&& e is NotFound
                    &&& find_sheet(old(self).names.deep_view(), name@, 0) == -1
                    &&& *final(self) == *old(self)
                },
            },
    {
        let n = self.names.len();
        let mut i: usize = 0;
        while i < n
            invariant
                i <= n,
                n == self.names@.len(),
                self == old(self),
                self.wf(),
                find_sheet(self.names.deep_view(), name@, 0)
                    == find_sheet(self.names.deep_view(), name@, i as int),
            decreases n - i,
        {
            if sheet_key_match_exec(self.names[i].as_str(), name) {
                let ghost oldnames = self.names.deep_view();
                self.names.remove(i);
                let tb = self.tables.remove(i);
                proof {
                    assert(self.names.deep_view() =~= oldnames.remove(i as int));
                    assert forall|a: int, b: int| 0 <= a < b < self.names@.len()
                        implies !sheet_key_match(
                            self.names.deep_view()[a],
                            self.names.deep_view()[b],
                        ) by {
                        let anew = if a < i as int { a } else { a + 1 };
                        let bnew = if b < i as int { b } else { b + 1 };
                        assert(self.names.deep_view()[a] == oldnames[anew]);
                        assert(self.names.deep_view()[b] == oldnames[bnew]);
                    }
                }
                return Ok(tb);
            }
            i = i + 1;
        }
        let mut msg = String::from_str("sheet not found: ");
        msg.append(name);
        Err(Error::NotFound(msg))
    }
}

/// A character folded to lower case, as a number.
pub open spec fn lower_u32(c: char) -> u32 {
    if 65 <= c as u32 && c as u32 <= 90 {
        (c as u32 + 32) as u32
    } else {
        c as u32
    }
}

/// The case-folded characters of a trimmed sheet name.
pub open spec fn canon_key(s: Seq<char>) -> Seq<u32> {
    Seq::new(trimmed(s, false).len(), |i: int| lower_u32(trimmed(s, false)[i]))
}

/// Two names match exactly where their folded trimmed forms are equal.
proof fn lemma_key_match_canon(a: Seq<char>, b: Seq<char>)
    ensures
        sheet_key_match(a, b) <==> canon_key(a) == canon_key(b),
{
    let ta = trimmed(a, false);
    let tb = trimmed(b, false);
    if sheet_key_match(a, b) {
        assert forall|i: int| 0 <= i < ta.len()
            implies lower_u32(ta[i]) == lower_u32(tb[i]) by {
            assert(crate::text::chars_ieq(ta[i], tb[i]));
        }
        assert(canon_key(a) =~= canon_key(b));
    }
    if canon_key(a) == canon_key(b) {
        assert(canon_key(a).len() == canon_key(b).len());
        assert(ta.len() == tb.len());
        assert forall|i: int| 0 <= i < ta.len()
            implies crate::text::chars_ieq(#[trigger] ta[i], tb[i]) by {
            assert(canon_key(a)[i] == canon_key(b)[i]);
            assert(lower_u32(ta[i]) == lower_u32(tb[i]));
        }
    }
}

/// A consumed sheet cannot be looked up again: once the matching entry
/// leaves a pool whose stored names are pairwise distinct, no entry
/// matches the same query, and the next lookup with it fails.
pub proof fn lemma_consuming_lookup(names: Seq<Seq<char>>, query: Seq<char>)
    requires
        forall|i: int, j: int| 0 <= i < j < names.len()
            ==> !sheet_key_match(#[trigger] names[i], #[trigger] names[j]),
        find_sheet(names, query, 0) >= 0,
    ensures
        find_sheet(names.remove(find_sheet(names, query, 0)), query, 0) == -1,
{
    let ix = find_sheet(names, query, 0);
    lemma_find_sheet_found(names, query, 0);
    let rest = names.remove(ix);
    assert forall|k: int| 0 <= k < rest.len()
        implies !sheet_key_match(#[trigger] rest[k], query) by {
        let korig = if k < ix { k } else { k + 1 };
        assert(rest[k] == names[korig]);
        if sheet_key_match(names[korig], query) {
            lemma_key_match_canon(names[korig], query);
            lemma_key_match_canon(names[ix], query);
            lemma_key_match_canon(names[korig], names[ix]);
            lemma_key_match_canon(names[ix], names[korig]);
            if korig < ix {
                assert(!sheet_key_match(names[korig], names[ix]));
            } else {
                assert(!sheet_key_match(names[ix], names[korig]));
            }
            assert(false);
        }
    }
    lemma_find_sheet_none(rest, query, 0);
}

/// A found position matches; everything before it does not.
pub proof fn lemma_find_sheet_found(names: Seq<Seq<char>>, query: Seq<char>, i: int)
    requires
        0 <= i,
        find_sheet(names, query, i) >= 0,
    ensures
        i <= find_sheet(names, query, i) < names.len(),
        sheet_key_match(names[find_sheet(names, query, i)], query),
    decreases names.len() - i,
{
    if i < names.len() && !sheet_key_match(names[i], query) {
        lemma_find_sheet_found(names, query, i + 1);
    }
}

/// Where nothing matches, the search yields nothing.
proof fn lemma_find_sheet_none(names: Seq<Seq<char>>, query: Seq<char>, i: int)
    requires
        0 <= i,
        forall|k: int| 0 <= k < names.len() ==> !sheet_key_match(#[trigger] names[k], query),
    ensures
        find_sheet(names, query, i) == -1,
    decreases names.len() - i,
{
    if i < names.len() {
        lemma_find_sheet_none(names, query, i + 1);
    }
}

/// True of an output row whose named cells all hold data.
pub open spec fn row_cells_ok(r: SpecRegRow) -> bool {
    &&& r.addr is Some
    &&& forall|i: int| 0 <= i < r.field.len() ==> {
        &&& (#[trigger] r.field[i]) is Some
        &&& r.width[i] is Some
        &&& r.attribute[i] is Some
        &&& r.bit_offset[i] is Some
        &&& r.default[i] is Some
        &&& r.description[i] is Some
    }
}

/// The register one output row denotes.
pub open spec fn reg_of_row(r: SpecRegRow) -> SpecRegister {
    SpecRegister {
        name: r.reg,
        offset: r.addr->0,
        size: r.reg_width,
        fields: Seq::new(r.field.len(), |i: int| SpecField {
            name: r.field[i]->0,
            offset: r.bit_offset[i]->0,
            width: r.width[i]->0,
            attr: r.attribute[i]->0,
            reset: r.default[i]->0,
            desc: r.description[i]->0,
        }),
    }
}

/// Turns the engine's output rows into registers: the scalar cells
/// become name, offset and size, and the parallel lists zip into one
/// field per position. An absent cell anywhere is refused.
pub fn regs_from_rows(rows: &Vec<crate::engine::RegRow>) -> (r: Result<Vec<Register>, Error>)
    requires
        forall|m: int| 0 <= m < rows@.len()
            ==> crate::engine::row_lists_wf((#[trigger] rows@[m])@),
    ensures
        match r {
            Ok(v) => {
                &&& forall|m: int| 0 <= m < rows@.len() ==> row_cells_ok((#[trigger] rows@[m])@)
                &&& v@.len() == rows@.len()
                &&& forall|m: int| 0 <= m < rows@.len()
                    ==> v.deep_view()[m] == reg_of_row((#[trigger] rows@[m])@)
            },
            Err(e) => {
                &&& e is NoData
                &&& exists|m: int| 0 <= m < rows@.len() && !row_cells_ok((#[trigger] rows@[m])@)
            },
        },
{
    let mut out: Vec<Register> = Vec::new();
    let n = rows.len();
    let mut m: usize = 0;
    while m < n
        invariant
            m <= n,
            n == rows@.len(),
            forall|q: int| 0 <= q < rows@.len()
                ==> crate::engine::row_lists_wf((#[trigger] rows@[q])@),
            out@.len() == m,
            forall|q: int| 0 <= q < m ==> row_cells_ok((#[trigger] rows@[q])@),
            forall|q: int| 0 <= q < m ==> out.deep_view()[q] == reg_of_row((#[trigger] rows@[q])@),
        decreases n - m,
    {
        let row = &rows[m];
        let offset: String = match &row.addr {
            Some(a) => a.clone(),
            None => {
                proof {
                    assert(!row_cells_ok(rows@[m as int]@));
                }
                return Err(Error::NoData(String::from_str("no data in column ADDR")));
            },
        };
        let flen = row.field.len();
        let mut fields: Vec<Field> = Vec::new();
        let mut i: usize = 0;
        while i < flen
            invariant
                i <= flen,
                m < n,
                n == rows@.len(),
                flen == rows@[m as int]@.field.len(),
                row == &rows@[m as int],
                crate::engine::row_lists_wf(rows@[m as int]@),
                fields@.len() == i,
                forall|q: int| 0 <= q < i ==> {
                    &&& (#[trigger] rows@[m as int]@.field[q]) is Some
                    &&& rows@[m as int]@.width[q] is Some
                    &&& rows@[m as int]@.attribute[q] is Some
                    &&& rows@[m as int]@.bit_offset[q] is Some
                    &&& rows@[m as int]@.default[q] is Some
                    &&& rows@[m as int]@.description[q] is Some
                },
                forall|q: int| 0 <= q < i
                    ==> fields.deep_view()[q] == reg_of_row(rows@[m as int]@).fields[q],
            decreases flen - i,
        {
            let fname = match &row.field[i] {
                Some(s) => s.clone(),
                None => {
                    proof {
                        if row_cells_ok(rows@[m as int]@) {
                            assert((rows@[m as int]@.field[i as int]) is Some);
                            assert(false);
                        }
                        assert(!row_cells_ok(rows@[m as int]@));
                    }
                    return Err(Error::NoData(String::from_str("no data in column FIELD")));
                },
            };
            let foffset = match &row.bit_offset[i] {
                Some(s) => s.clone(),
                None => {
                    proof {
                        if row_cells_ok(rows@[m as int]@) {
                            assert((rows@[m as int]@.field[i as int]) is Some);
                            assert(false);
                        }
                        assert(!row_cells_ok(rows@[m as int]@));
                    }
                    return Err(Error::NoData(String::from_str("no data in column BIT_OFFSET")));
                },
            };
            let fwidth = match &row.width[i] {
                Some(s) => s.clone(),
                None => {
                    proof {
                        if row_cells_ok(rows@[m as int]@) {
                            assert((rows@[m as int]@.field[i as int]) is Some);
                            assert(false);
                        }
                        assert(!row_cells_ok(rows@[m as int]@));
                    }
                    return Err(Error::NoData(String::from_str("no data in column WIDTH")));
                },
            };
            let fattr = match &row.attribute[i] {
                Some(s) => s.clone(),
                None => {
                    proof {
                        if row_cells_ok(rows@[m as int]@) {
                            assert((rows@[m as int]@.field[i as int]) is Some);
                            assert(false);
                        }
                        assert(!row_cells_ok(rows@[m as int]@));
                    }
                    return Err(Error::NoData(String::from_str("no data in column ATTRIBUTE")));
                },
            };
            let freset = match &row.default[i] {
                Some(s) => s.clone(),
                None => {
                    proof {
                        if row_cells_ok(rows@[m as int]@) {
                            assert((rows@[m as int]@.field[i as int]) is Some);
                            assert(false);
                        }
                        assert(!row_cells_ok(rows@[m as int]@));
                    }
                    return Err(Error::NoData(String::from_str("no data in column DEFAULT")));
                },
            };
            let fdesc = match &row.description[i] {
                Some(s) => s.clone(),
                None => {
                    proof {
                        if row_cells_ok(rows@[m as int]@) {
                            assert((rows@[m as int]@.field[i as int]) is Some);
                            assert(false);
                        }
                        assert(!row_cells_ok(rows@[m as int]@));
                    }
                    return Err(Error::NoData(String::from_str("no data in column DESCRIPTION")));
                },
            };
            let fld = Field {
                name: fname,
                offset: foffset,
                width: fwidth,
                attr: fattr,
                reset: freset,
                desc: fdesc,
            };
            proof {
                assert(fld@ == reg_of_row(rows@[m as int]@).fields[i as int]);
            }
            let ghost prevf = fields.deep_view();
            fields.push(fld);
            i = i + 1;
            proof {
                assert forall|q: int| 0 <= q < i
                    implies fields.deep_view()[q] == reg_of_row(rows@[m as int]@).fields[q] by {
                    if q < i - 1 {
                        assert(fields.deep_view()[q] == prevf[q]);
                    } else {
                        assert(fields.deep_view()[q] == fld@);
                    }
                }
            }
        }
        let reg = Register {
            name: row.reg.clone(),
            offset,
            size: row.reg_width.clone(),
            fields,
        };
        proof {
            assert(reg@.fields =~= reg_of_row(rows@[m as int]@).fields);
            assert(reg@ == reg_of_row(rows@[m as int]@));
        }
        out.push(reg);
        m = m + 1;
    }
    Ok(out)
}

/// The names of the columns the version and address-map sheets supply.
pub open spec fn vendor_lit() -> Seq<char> {
    seq!['V', 'E', 'N', 'D', 'O', 'R']
}

pub open spec fn library_lit() -> Seq<char> {
    seq!['L', 'I', 'B', 'R', 'A', 'R', 'Y']
}

pub open spec fn name_lit() -> Seq<char> {
    seq!['N', 'A', 'M', 'E']
}

pub open spec fn version_lit() -> Seq<char> {
    seq!['V', 'E', 'R', 'S', 'I', 'O', 'N']
}

pub open spec fn block_lit() -> Seq<char> {
    seq!['B', 'L', 'O', 'C', 'K']
}

pub open spec fn offset_lit() -> Seq<char> {
    seq!['O', 'F', 'F', 'S', 'E', 'T']
}

pub open spec fn range_lit_col() -> Seq<char> {
    seq!['R', 'A', 'N', 'G', 'E']
}

/// How reading one cell of a named column at one row ends: all well,
/// the column missing, or the cell empty.
pub open spec fn cell_state(t: &Table, name: Seq<char>, i: int) -> int {
    if t.col_index_spec(name) < 0 {
        1
    } else if i >= t.height() || t.col_spec(name)[i] is None {
        2
    } else {
        0
    }
}

/// How reading the version sheet's first row ends: the columns are
/// read in a fixed order and the first failure decides.
pub open spec fn vlnv_state(t: &Table) -> int {
    if cell_state(t, vendor_lit(), 0) != 0 {
        cell_state(t, vendor_lit(), 0)
    } else if cell_state(t, library_lit(), 0) != 0 {
        cell_state(t, library_lit(), 0)
    } else if cell_state(t, name_lit(), 0) != 0 {
        cell_state(t, name_lit(), 0)
    } else {
        cell_state(t, version_lit(), 0)
    }
}

/// Reads one cell of a named column.
fn read_cell(t: &Table, name: &str, i: usize) -> (r: Result<String, Error>)
    requires
        t.wf(),
    ensures
        match r {
            Ok(s) => cell_state(t, name@, i as int) == 0
                && Some(s@) == t.col_spec(name@)[i as int],
            Err(e) => {
                &&& cell_state(t, name@, i as int) != 0
                &&& (e is Column <==> cell_state(t, name@, i as int) == 1)
                &&& (e is NoData <==> cell_state(t, name@, i as int) == 2)
            },
        },
{
    match t.col_index(name) {
        None => {
            let mut msg = String::from_str("missing column ");
            msg.append(name);
            Err(Error::Column(msg))
        },
        Some(ci) => {
            if i >= t.cols[ci].len() {
                let mut msg = String::from_str("no data in column ");
                msg.append(name);
                return Err(Error::NoData(msg));
            }
            match &t.cols[ci][i] {
                Some(s) => Ok(s.clone()),
                None => {
                    let mut msg = String::from_str("no data in column ");
                    msg.append(name);
                    Err(Error::NoData(msg))
                },
            }
        },
    }
}

/// Reads the identifier tuple from the version sheet's first row.
pub fn read_vlnv(t: &Table) -> (r: Result<(String, String, String, String), Error>)
    requires
        t.wf(),
    ensures
        match r {
            Ok(v) => {
                &&& vlnv_state(t) == 0
                &&& Some(v.0@) == t.col_spec(vendor_lit())[0]
                &&& Some(v.1@) == t.col_spec(library_lit())[0]
                &&& Some(v.2@) == t.col_spec(name_lit())[0]
                &&& Some(v.3@) == t.col_spec(version_lit())[0]
            },
            Err(e) => {
                &&& vlnv_state(t) != 0
                &&& (e is Column <==> vlnv_state(t) == 1)
                &&& (e is NoData <==> vlnv_state(t) == 2)
            },
        },
{
    proof {
        reveal_strlit("VENDOR");
        reveal_strlit("LIBRARY");
        reveal_strlit("NAME");
        reveal_strlit("VERSION");
        assert("VENDOR"@ =~= vendor_lit());
        assert("LIBRARY"@ =~= library_lit());
        assert("NAME"@ =~= name_lit());
        assert("VERSION"@ =~= version_lit());
    }
    let vendor = match read_cell(t, "VENDOR", 0) {
        Ok(s) => s,
        Err(e) => {
            return Err(e);
        },
    };
    let library = match read_cell(t, "LIBRARY", 0) {
        Ok(s) => s,
        Err(e) => {
            return Err(e);
        },
    };
    let name = match read_cell(t, "NAME", 0) {
        Ok(s) => s,
        Err(e) => {
            return Err(e);
        },
    };
    let version = match read_cell(t, "VERSION", 0) {
        Ok(s) => s,
        Err(e) => {
            return Err(e);
        },
    };
    Ok((vendor, library, name, version))
}

/// How reading one address-map row ends, its columns in a fixed order.
pub open spec fn block_row_state(t: &Table, i: int) -> int {
    if cell_state(t, block_lit(), i) != 0 {
        cell_state(t, block_lit(), i)
    } else if cell_state(t, offset_lit(), i) != 0 {
        cell_state(t, offset_lit(), i)
    } else {
        cell_state(t, range_lit_col(), i)
    }
}

/// Reads one block's name, offset and range from the address map.
pub fn read_block_row(t: &Table, i: usize) -> (r: Result<(String, String, String), Error>)
    requires
        t.wf(),
    ensures
        match r {
            Ok(v) => {
                &&& block_row_state(t, i as int) == 0
                &&& Some(v.0@) == t.col_spec(block_lit())[i as int]
                &&& Some(v.1@) == t.col_spec(offset_lit())[i as int]
                &&& Some(v.2@) == t.col_spec(range_lit_col())[i as int]
            },
            Err(e) => {
                &&& block_row_state(t, i as int) != 0
                &&& (e is Column <==> block_row_state(t, i as int) == 1)
                &&& (e is NoData <==> block_row_state(t, i as int) == 2)
            },
        },
{
    proof {
        reveal_strlit("BLOCK");
        reveal_strlit("OFFSET");
        reveal_strlit("RANGE");
        assert("BLOCK"@ =~= block_lit());
        assert("OFFSET"@ =~= offset_lit());
        assert("RANGE"@ =~= range_lit_col());
    }
    let bname = match read_cell(t, "BLOCK", i) {
        Ok(s) => s,
        Err(e) => {
            return Err(e);
        },
    };
    let offset = match read_cell(t, "OFFSET", i) {
        Ok(s) => s,
        Err(e) => {
            return Err(e);
        },
    };
    let range = match read_cell(t, "RANGE", i) {
        Ok(s) => s,
        Err(e) => {
            return Err(e);
        },
    };
    Ok((bname, offset, range))
}

/// The characters of the fixed block size text.
pub open spec fn size32_lit() -> Seq<char> {
    seq!['3', '2']
}

/// The name of the sheet that lists the blocks.
pub open spec fn addr_map_lit() -> Seq<char> {
    seq!['A', 'D', 'D', 'R', 'E', 'S', 'S', '_', 'M', 'A', 'P']
}

/// How turning one block sheet into registers ends: a missing column,
/// an unreadable width, an empty cell in the engine's output, or the
/// register list itself.
pub open spec fn spec_regs_of_table(bt: Table) -> Result<Seq<SpecRegister>, int> {
    if !crate::engine::cols_present(&bt) {
        Err(1int)
    } else if !crate::engine::widths_ok_col(crate::engine::cols_of(&bt).width_str) {
        Err(4int)
    } else {
        let rows = crate::engine::engine_rows(crate::engine::cols_of(&bt));
        if exists|m: int| 0 <= m < rows.len() && !row_cells_ok(#[trigger] rows[m]) {
            Err(2int)
        } else {
            Ok(Seq::new(rows.len(), |m: int| reg_of_row(rows[m])))
        }
    }
}

/// The blocks the address map's rows from `i` on yield against the
/// given pool, each lookup consuming its sheet; the first failure
/// anywhere decides, coded as the reader states plus 3 for a name that
/// no sheet matches and 4 for an unreadable width.
pub open spec fn spec_blocks(
    names: Seq<Seq<char>>,
    tables: Seq<Table>,
    at: Table,
    i: int,
    n: int,
) -> Result<Seq<SpecBlock>, int>
    decreases n - i,
{
    if i >= n {
        Ok(Seq::empty())
    } else if block_row_state(&at, i) != 0 {
        Err(block_row_state(&at, i))
    } else {
        let bname = at.col_spec(block_lit())[i]->0;
        let ix = find_sheet(names, bname, 0);
        if ix < 0 || ix >= tables.len() {
            Err(3int)
        } else {
            match spec_regs_of_table(tables[ix]) {
                Ok(regs) => match spec_blocks(names.remove(ix), tables.remove(ix), at, i + 1, n) {
                    Ok(rest) => Ok(
                        seq![SpecBlock {
                            name: bname,
                            offset: at.col_spec(offset_lit())[i]->0,
                            range: at.col_spec(range_lit_col())[i]->0,
                            size: size32_lit(),
                            regs,
                        }] + rest,
                    ),
                    Err(tg) => Err(tg),
                },
                Err(tg) => Err(tg),
            }
        }
    }
}

/// What resolving a whole pool yields: the version sheet names the
/// component, the address map lists its blocks, and each block's sheet
/// is consumed as it is reached.
pub open spec fn spec_import(names: Seq<Seq<char>>, tables: Seq<Table>) -> Result<
    SpecComponent,
    int,
> {
    let vix = find_sheet(names, version_lit(), 0);
    if vix < 0 || vix >= tables.len() {
        Err(3int)
    } else {
        let vt = tables[vix];
        if vlnv_state(&vt) != 0 {
            Err(vlnv_state(&vt))
        } else {
            let names1 = names.remove(vix);
            let tables1 = tables.remove(vix);
            let aix = find_sheet(names1, addr_map_lit(), 0);
            if aix < 0 || aix >= tables1.len() {
                Err(3int)
            } else {
                let at = tables1[aix];
                match spec_blocks(
                    names1.remove(aix),
                    tables1.remove(aix),
                    at,
                    0,
                    at.height() as int,
                ) {
                    Ok(bs) => Ok(
                        SpecComponent {
                            vendor: vt.col_spec(vendor_lit())[0]->0,
                            library: vt.col_spec(library_lit())[0]->0,
                            name: vt.col_spec(name_lit())[0]->0,
                            version: vt.col_spec(version_lit())[0]->0,
                            blks: bs,
                        },
                    ),
                    Err(tg) => Err(tg),
                }
            }
        }
    }
}

/// True where the error value carries the coded failure.
pub open spec fn err_has_tag(e: &Error, tg: int) -> bool {
    &&& (e is Column <==> tg == 1)
    &&& (e is NoData <==> tg == 2)
    &&& (e is NotFound <==> tg == 3)
    &&& (e is Parse <==> tg == 4)
    &&& (e is Empty <==> tg == 5)
    &&& (e is Decode <==> tg == 6)
}

/// Resolves the pool into the component: the "VERSION" sheet names it,
/// the "ADDRESS_MAP" sheet lists its blocks, and each block's sheet
/// runs through the expansion engine. Every sheet is consumed when
/// first referenced, and the first failure aborts.
pub fn import_component(pool: SheetPool) -> (r: Result<Component, Error>)
    requires
        pool.wf(),
    ensures
        match r {
            Ok(c) => spec_import(pool.names.deep_view(), pool.tables@) == Ok::<SpecComponent, int>(c@),
            Err(e) => {
                &&& spec_import(pool.names.deep_view(), pool.tables@) is Err
                &&& err_has_tag(&e, spec_import(pool.names.deep_view(), pool.tables@)->Err_0)
            },
        },
{
    let ghost n0 = pool.names.deep_view();
    let ghost t0 = pool.tables@;
    let mut p = pool;
    let vt = match p.take("VERSION") {
        Ok(t) => t,
        Err(e) => {
            proof {
                reveal_strlit("VERSION");
                assert("VERSION"@ =~= version_lit());
            }
            return Err(e);
        },
    };
    proof {
        reveal_strlit("VERSION");
        assert("VERSION"@ =~= version_lit());
        lemma_find_sheet_found(n0, version_lit(), 0);
    }
    let (vendor, library, name, version) = match read_vlnv(&vt) {
        Ok(v) => v,
        Err(e) => {
            return Err(e);
        },
    };
    let ghost n1 = p.names.deep_view();
    let ghost t1 = p.tables@;
    let at = match p.take("ADDRESS_MAP") {
        Ok(t) => t,
        Err(e) => {
            proof {
                reveal_strlit("ADDRESS_MAP");
                assert("ADDRESS_MAP"@ =~= addr_map_lit());
            }
            return Err(e);
        },
    };
    proof {
        reveal_strlit("ADDRESS_MAP");
        assert("ADDRESS_MAP"@ =~= addr_map_lit());
        lemma_find_sheet_found(n1, addr_map_lit(), 0);
    }
    let ghost n2 = p.names.deep_view();
    let ghost t2 = p.tables@;
    let nblk = at.num_rows();
    let mut blks: Vec<Block> = Vec::new();
    let mut bi: usize = 0;
    while bi < nblk
        invariant
            bi <= nblk,
            nblk as nat == at.height(),
            at.wf(),
            p.wf(),
            blks@.len() == bi,
            n0 == pool.names.deep_view(),
            t0 == pool.tables@,
            match spec_blocks(p.names.deep_view(), p.tables@, at, bi as int, nblk as int) {
                Ok(bs) => spec_blocks(n2, t2, at, 0, nblk as int)
                    == Ok::<Seq<SpecBlock>, int>(blks.deep_view() + bs),
                Err(tg) => spec_blocks(n2, t2, at, 0, nblk as int)
                    == Err::<Seq<SpecBlock>, int>(tg),
            },
            match spec_blocks(n2, t2, at, 0, nblk as int) {
                Ok(bs) => spec_import(n0, t0) == Ok::<SpecComponent, int>(SpecComponent {
                    vendor: vendor@,
                    library: library@,
                    name: name@,
                    version: version@,
                    blks: bs,
                }),
                Err(tg) => spec_import(n0, t0) == Err::<SpecComponent, int>(tg),
            },
        decreases nblk - bi,
    {
        let ghost curn = p.names.deep_view();
        let ghost curt = p.tables@;
        let (bname, offset, range) = match read_block_row(&at, bi) {
            Ok(v) => v,
            Err(e) => {
                return Err(e);
            },
        };
        let bt = match p.take(bname.as_str()) {
            Ok(t) => t,
            Err(e) => {
                return Err(e);
            },
        };
        proof {
            lemma_find_sheet_found(curn, bname@, 0);
        }
        let rows = match crate::engine::parse_register(&bt) {
            Ok(rows) => rows,
            Err(e) => {
                return Err(e);
            },
        };
        proof {
            let c = crate::engine::cols_of(&bt);
            let kept = crate::engine::kept_upto(c, c.addr.len() as int);
            crate::engine::lemma_regroup_wf(c, kept, kept.len() as int);
            assert forall|m: int| 0 <= m < rows@.len()
                implies crate::engine::row_lists_wf((#[trigger] rows@[m])@) by {
                assert(rows.deep_view()[m] == crate::engine::engine_rows(c)[m]);
            }
        }
        let regs = match regs_from_rows(&rows) {
            Ok(v) => v,
            Err(e) => {
                proof {
                    let rws = crate::engine::engine_rows(crate::engine::cols_of(&bt));
                    let bad = choose|m: int| 0 <= m < rows@.len()
                        && !row_cells_ok((#[trigger] rows@[m])@);
                    assert(rows.deep_view()[bad] == rws[bad]);
                    assert(!row_cells_ok(rws[bad]));
                }
                return Err(e);
            },
        };
        proof {
            reveal_strlit("32");
        }
        let size = String::from_str("32");
        proof {
            assert(size@ =~= size32_lit());
        }
        let blk = Block { name: bname, offset, range, size, regs };
        proof {
            let rws = crate::engine::engine_rows(crate::engine::cols_of(&bt));
            assert forall|m: int| 0 <= m < rws.len()
                implies !(!row_cells_ok(#[trigger] rws[m])) by {
                assert(rows.deep_view()[m] == rws[m]);
                assert(row_cells_ok(rows@[m]@));
            }
            assert(blk@.regs =~= Seq::new(rws.len(), |m: int| reg_of_row(rws[m])));
            assert(spec_regs_of_table(bt) == Ok::<Seq<SpecRegister>, int>(blk@.regs));
        }
        let ghost prevb = blks.deep_view();
        blks.push(blk);
        bi = bi + 1;
        proof {
            assert(blks.deep_view() =~= prevb.push(blk@));
            let tail = spec_blocks(p.names.deep_view(), p.tables@, at, bi as int, nblk as int);
            match tail {
                Ok(bs) => {
                    assert(spec_blocks(curn, curt, at, bi - 1, nblk as int)
                        == Ok::<Seq<SpecBlock>, int>(seq![blk@] + bs));
                    assert(prevb + (seq![blk@] + bs) =~= blks.deep_view() + bs);
                },
                Err(tg) => {},
            }
        }
    }
    proof {
        assert(spec_blocks(p.names.deep_view(), p.tables@, at, nblk as int, nblk as int)
            == Ok::<Seq<SpecBlock>, int>(Seq::empty()));
        assert(blks.deep_view() + Seq::<SpecBlock>::empty() =~= blks.deep_view());
    }
    let compo = Component { vendor, library, name, version, blks };
    proof {
        assert(compo@.blks == blks.deep_view());
        assert(spec_import(n0, t0) == Ok::<SpecComponent, int>(compo@));
    }
    Ok(compo)
}

} // verus!
