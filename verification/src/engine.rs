//! The register expansion engine: fills merged cells, computes widths
//! and addresses per address group, expands templated register families
//! and re-aggregates rows into one row per concrete register.

use vstd::prelude::*;
use vstd::string::*;

use crate::error::Error;
use crate::table::Table;
use crate::text::{
    base_reg_of, base_reg_spec, bit_capture, bit_capture_of, dec_render, dec_u32_ok, dec_value,
    find_brace, has_brace, hex_addr_capture, hex_addr_capture_of, hex_render, hex_value,
    parse_args, parse_args_str, parse_u32_dec, parse_u32_hex, range_capture, range_capture_of,
    str_eq_exec, u128_to_dec, u128_to_hex,
};

verus! {

/// The characters of the description given to rows that have none.
pub open spec fn no_desc_lit() -> Seq<char> {
    seq!['N', 'o', ' ', 'D', 'e', 's', 'c', 'r', 'i', 'p', 't', 'i', 'o', 'n']
}

/// A description column with absent cells set to the default text.
pub open spec fn with_desc_default(col: Seq<Option<Seq<char>>>) -> Seq<Option<Seq<char>>> {
    Seq::new(col.len(), |i: int| match col[i] {
        Some(t) => Some(t),
        None => Some(no_desc_lit()),
    })
}

/// The value at row `i` after a forward fill: the nearest value at or
/// before `i`, or nothing where no row up to `i` holds one.
pub open spec fn ffill_at(col: Seq<Option<Seq<char>>>, i: int) -> Option<Seq<char>>
    decreases i + 1,
{
    if i < 0 {
        None
    } else if col[i] is Some {
        col[i]
    } else {
        ffill_at(col, i - 1)
    }
}

/// A column after the forward fill.
pub open spec fn ffilled(col: Seq<Option<Seq<char>>>) -> Seq<Option<Seq<char>>> {
    Seq::new(col.len(), |i: int| ffill_at(col, i))
}

/// Once a filled column holds a value it keeps holding one.
pub proof fn lemma_ffill_monotone(col: Seq<Option<Seq<char>>>, j: int, i: int)
    requires
        0 <= j <= i < col.len(),
        ffill_at(col, j) is Some,
    ensures
        ffill_at(col, i) is Some,
    decreases i - j,
{
    if j < i {
        lemma_ffill_monotone(col, j, i - 1);
    }
}

/// Sets absent description cells to the default text.
pub fn desc_default(col: &Vec<Option<String>>) -> (r: Vec<Option<String>>)
    ensures
        r.deep_view() == with_desc_default(col.deep_view()),
{
    let mut out: Vec<Option<String>> = Vec::new();
    let n = col.len();
    let mut i: usize = 0;
    while i < n
        invariant
            i <= n,
            n == col@.len(),
            out@.len() == i,
            forall|j: int| 0 <= j < i
                ==> out.deep_view()[j] == with_desc_default(col.deep_view())[j],
        decreases n - i,
    {
        let cell = match &col[i] {
            Some(s) => Some(s.clone()),
            None => {
                proof {
                    reveal_strlit("No Description");
                }
                let d = String::from_str("No Description");
                proof {
                    assert(d@ =~= no_desc_lit());
                }
                Some(d)
            },
        };
        let ghost prev = out.deep_view();
        out.push(cell);
        i = i + 1;
        proof {
            assert forall|j: int| 0 <= j < i
                implies out.deep_view()[j] == with_desc_default(col.deep_view())[j] by {
                if j < i - 1 {
                    assert(out.deep_view()[j] == prev[j]);
                } else {
                    assert(out.deep_view()[j] == cell.deep_view());
                }
            }
        }
    }
    proof {
        assert(out.deep_view() =~= with_desc_default(col.deep_view()));
    }
    out
}

/// Replaces each absent cell by the nearest earlier value.
pub fn forward_fill(col: &Vec<Option<String>>) -> (r: Vec<Option<String>>)
    ensures
        r.deep_view() == ffilled(col.deep_view()),
{
    let mut out: Vec<Option<String>> = Vec::new();
    let mut last: Option<String> = None;
    let n = col.len();
    let mut i: usize = 0;
    while i < n
        invariant
            i <= n,
            n == col@.len(),
            out@.len() == i,
            last.deep_view() == ffill_at(col.deep_view(), i - 1),
            forall|j: int| 0 <= j < i ==> out.deep_view()[j] == ffill_at(col.deep_view(), j),
        decreases n - i,
    {
        let cell: Option<String> = match &col[i] {
            Some(s) => Some(s.clone()),
            None => match &last {
                Some(s) => Some(s.clone()),
                None => None,
            },
        };
        proof {
            assert(cell.deep_view() == ffill_at(col.deep_view(), i as int));
        }
        let ghost prev = out.deep_view();
        out.push(cell.clone());
        last = cell;
        i = i + 1;
        proof {
            assert forall|j: int| 0 <= j < i
                implies out.deep_view()[j] == ffill_at(col.deep_view(), j) by {
                if j < i - 1 {
                    assert(out.deep_view()[j] == prev[j]);
                }
            }
        }
    }
    proof {
        assert(out.deep_view() =~= ffilled(col.deep_view()));
    }
    out
}

/// Compares two optional texts.
pub fn opt_str_eq(a: &Option<String>, b: &Option<String>) -> (r: bool)
    ensures
        r == (a.deep_view() == b.deep_view()),
{
    match (a, b) {
        (None, None) => true,
        (Some(x), Some(y)) => {
            let e = str_eq_exec(x.as_str(), y.as_str());
            proof {
                if x@ == y@ {
                    assert(a.deep_view() == b.deep_view());
                } else {
                    assert(a.deep_view() != b.deep_view());
                }
            }
            e
        },
        _ => {
            proof {
                assert(a.deep_view() != b.deep_view());
            }
            false
        },
    }
}

/// Position of the first row at or after `j` whose key equals `key`, or -1.
pub open spec fn first_key_from(keys: Seq<Option<Seq<char>>>, key: Option<Seq<char>>, j: int) -> int
    decreases keys.len() - j,
{
    if j < 0 || j >= keys.len() {
        -1
    } else if keys[j] == key {
        j
    } else {
        first_key_from(keys, key, j + 1)
    }
}

/// Position of the first row of the address group row `i` belongs to.
pub open spec fn gfirst(addrs: Seq<Option<Seq<char>>>, i: int) -> int {
    first_key_from(addrs, addrs[i], 0)
}

/// Finds the first row of the address group row `i` belongs to.
pub fn gfirst_exec(addrs: &Vec<Option<String>>, i: usize) -> (r: usize)
    requires
        i < addrs@.len(),
    ensures
        r as int == gfirst(addrs.deep_view(), i as int),
        r <= i,
        addrs.deep_view()[r as int] == addrs.deep_view()[i as int],
{
    let ghost keys = addrs.deep_view();
    let mut j: usize = 0;
    loop
        invariant
            j <= i,
            i < addrs@.len(),
            keys == addrs.deep_view(),
            first_key_from(keys, keys[i as int], 0) == first_key_from(keys, keys[i as int], j as int),
        decreases i - j,
    {
        if opt_str_eq(&addrs[j], &addrs[i]) {
            proof {
                assert(addrs@[j as int].deep_view() == keys[j as int]);
            }
            return j;
        }
        if j == i {
            proof {
                assert(keys[i as int] == keys[i as int]);
                assert(false);
            }
        }
        j = j + 1;
    }
}

/// The numeric width of one cell: absent cells count as zero.
pub open spec fn wval(w: Option<u32>) -> nat {
    match w {
        Some(v) => v as nat,
        None => 0,
    }
}

/// Sum of the parsed widths of the rows before `upto` whose address
/// equals `key`.
pub open spec fn gsum(
    addrs: Seq<Option<Seq<char>>>,
    ws: Seq<Option<u32>>,
    key: Option<Seq<char>>,
    upto: int,
) -> nat
    decreases upto,
{
    if upto <= 0 {
        0
    } else if addrs[upto - 1] == key {
        gsum(addrs, ws, key, upto - 1) + wval(ws[upto - 1])
    } else {
        gsum(addrs, ws, key, upto - 1)
    }
}

/// A group's width sum is bounded by the row count times the largest width.
pub proof fn lemma_gsum_bound(
    addrs: Seq<Option<Seq<char>>>,
    ws: Seq<Option<u32>>,
    key: Option<Seq<char>>,
    upto: int,
)
    requires
        upto >= 0,
    ensures
        gsum(addrs, ws, key, upto) <= upto * 0xFFFF_FFFF,
    decreases upto,
{
    if upto > 0 {
        lemma_gsum_bound(addrs, ws, key, upto - 1);
        assert((upto - 1) * 0xFFFF_FFFF + 0xFFFF_FFFF == upto * 0xFFFF_FFFF) by (nonlinear_arith);
    }
}

/// Sums the widths of row `i`'s address group.
pub fn gsum_exec(addrs: &Vec<Option<String>>, ws: &Vec<u32>, present: &Vec<bool>, i: usize) -> (r:
    u128)
    requires
        i < addrs@.len(),
        ws@.len() == addrs@.len(),
        present@.len() == addrs@.len(),
    ensures
        r as nat == gsum(
            addrs.deep_view(),
            widths_model(ws@, present@),
            addrs.deep_view()[i as int],
            addrs@.len() as int,
        ),
{
    let ghost keys = addrs.deep_view();
    let ghost wm = widths_model(ws@, present@);
    let n = addrs.len();
    let mut acc: u128 = 0;
    let mut j: usize = 0;
    while j < n
        invariant
            j <= n,
            i < n,
            n == addrs@.len(),
            ws@.len() == n,
            present@.len() == n,
            keys == addrs.deep_view(),
            wm == widths_model(ws@, present@),
            acc as nat == gsum(keys, wm, keys[i as int], j as int),
            acc as nat <= (j as nat) * 0xFFFF_FFFF,
        decreases n - j,
    {
        if opt_str_eq(&addrs[j], &addrs[i]) {
            let w: u128 = if present[j] {
                ws[j] as u128
            } else {
                0
            };
            proof {
                assert(w as nat == wval(wm[j as int]));
                assert((j as nat) * 0xFFFF_FFFF + 0xFFFF_FFFF == (j + 1) as nat * 0xFFFF_FFFF)
                    by (nonlinear_arith);
                assert((j + 1) as nat * 0xFFFF_FFFF <= (n as nat) * 0xFFFF_FFFF)
                    by (nonlinear_arith)
                    requires j + 1 <= n,
                {}
                assert((n as nat) * 0xFFFF_FFFF < u128::MAX) by (nonlinear_arith)
                    requires n <= usize::MAX,
                {}
            }
            acc = acc + w;
        } else {
            proof {
                assert((j as nat) * 0xFFFF_FFFF <= (j + 1) as nat * 0xFFFF_FFFF)
                    by (nonlinear_arith);
            }
        }
        j = j + 1;
    }
    acc
}

/// The widths column as optional numbers: a value where the cell held
/// one, nothing where the cell was empty.
pub open spec fn widths_model(ws: Seq<u32>, present: Seq<bool>) -> Seq<Option<u32>> {
    Seq::new(ws.len(), |i: int| if present[i] {
        Some(ws[i])
    } else {
        None
    })
}

/// The register table's columns after the fill steps: the texts of the
/// eight columns the engine reads, and the widths as numbers.
pub ghost struct Cols {
    pub addr: Seq<Option<Seq<char>>>,
    pub reg: Seq<Option<Seq<char>>>,
    pub field: Seq<Option<Seq<char>>>,
    pub bit: Seq<Option<Seq<char>>>,
    pub width_str: Seq<Option<Seq<char>>>,
    pub width_num: Seq<Option<u32>>,
    pub attribute: Seq<Option<Seq<char>>>,
    pub default: Seq<Option<Seq<char>>>,
    pub description: Seq<Option<Seq<char>>>,
}

impl Cols {
    /// All columns have the row count's length.
    pub open spec fn wf(&self) -> bool {
        &&& self.reg.len() == self.addr.len()
        &&& self.field.len() == self.addr.len()
        &&& self.bit.len() == self.addr.len()
        &&& self.width_str.len() == self.addr.len()
        &&& self.width_num.len() == self.addr.len()
        &&& self.attribute.len() == self.addr.len()
        &&& self.default.len() == self.addr.len()
        &&& self.description.len() == self.addr.len()
    }
}

/// The first register name of row `i`'s address group.
pub open spec fn first_reg_of(c: Cols, i: int) -> Option<Seq<char>> {
    c.reg[gfirst(c.addr, i)]
}

/// True of a row whose group's first register name marks a family.
pub open spec fn expandable_of(c: Cols, i: int) -> bool {
    first_reg_of(c, i) matches Some(s) && has_brace(s)
}

/// The family's base name for row `i`: the group's first register name
/// with any "{n}" suffix stripped.
pub open spec fn base_reg_meta(c: Cols, i: int) -> Seq<char> {
    base_reg_spec(first_reg_of(c, i)->0)
}

/// The series arguments read from the group's first register name.
pub open spec fn args_of(c: Cols, i: int) -> Option<Seq<u32>> {
    match first_reg_of(c, i) {
        Some(s) => match range_capture(s) {
            Some(cap) => parse_args(cap),
            None => None,
        },
        None => None,
    }
}

/// How many numbers the series start, start+step, ... below stop holds.
pub open spec fn range_count(start: int, stop: int, step: int) -> nat {
    if start >= stop || step <= 0 {
        0
    } else {
        ((stop - start - 1) / step + 1) as nat
    }
}

/// The numbers start, start+step, ... below stop.
pub open spec fn range_seq(start: int, stop: int, step: int) -> Seq<u32> {
    Seq::new(range_count(start, stop, step), |t: int| (start + t * step) as u32)
}

/// The expansion series of row `i`: from three arguments a stepped
/// range, from two a unit-step range, from one a range from zero; any
/// other argument list, and a zero step, yield no series. A zero step
/// is treated like any other malformed argument list — the row is
/// later dropped by the filter rather than aborting the conversion.
pub open spec fn series_of(c: Cols, i: int) -> Option<Seq<u32>> {
    match args_of(c, i) {
        Some(a) => if a.len() == 3 {
            if a[2] == 0 {
                None
            } else {
                Some(range_seq(a[0] as int, a[1] as int, a[2] as int))
            }
        } else if a.len() == 2 {
            Some(range_seq(a[0] as int, a[1] as int, 1))
        } else if a.len() == 1 {
            Some(range_seq(0, a[0] as int, 1))
        } else {
            None
        },
        None => None,
    }
}

/// The base address of row `i`: the number the hex digits after the
/// first "0x" of its address cell denote, where they denote one that
/// fits in 32 bits.
pub open spec fn base_addr_of(c: Cols, i: int) -> Option<u32> {
    match c.addr[i] {
        Some(s) => match hex_addr_capture(s) {
            Some(cap) => if hex_value(cap) <= u32::MAX as nat {
                Some(hex_value(cap) as u32)
            } else {
                None
            },
            None => None,
        },
        None => None,
    }
}

/// The low bit index captured from row `i`'s bit cell.
pub open spec fn bit_off_of(c: Cols, i: int) -> Option<Seq<char>> {
    match c.bit[i] {
        Some(s) => bit_capture(s),
        None => None,
    }
}

/// The width sum of row `i`'s address group.
pub open spec fn sum_of(c: Cols, i: int) -> nat {
    gsum(c.addr, c.width_num, c.addr[i], c.addr.len() as int)
}

/// That sum in bytes.
pub open spec fn bytes_of(c: Cols, i: int) -> nat {
    sum_of(c, i) / 8
}

/// True of a row whose field cell holds non-empty text.
pub open spec fn field_ok(c: Cols, i: int) -> bool {
    c.field[i] matches Some(f) && f.len() > 0
}

/// The entries row `i` leaves after the explode and the filter, as
/// pairs of the row position and the attached series value: a family
/// row keeps one entry per series value; a plain row with a field
/// keeps one entry, or one per series value where a series matched its
/// name; everything else is dropped.
pub open spec fn row_kept(c: Cols, i: int) -> Seq<(int, Option<u32>)> {
    if first_reg_of(c, i) is None {
        Seq::empty()
    } else if expandable_of(c, i) {
        match series_of(c, i) {
            Some(vs) => if vs.len() > 0 {
                Seq::new(vs.len(), |t: int| (i, Some(vs[t])))
            } else {
                Seq::empty()
            },
            None => Seq::empty(),
        }
    } else if field_ok(c, i) {
        match series_of(c, i) {
            Some(vs) => if vs.len() > 0 {
                Seq::new(vs.len(), |t: int| (i, Some(vs[t])))
            } else {
                seq![(i, Option::<u32>::None)]
            },
            None => seq![(i, Option::<u32>::None)],
        }
    } else {
        Seq::empty()
    }
}

/// The kept entries of the rows before `i`, in row order.
pub open spec fn kept_upto(c: Cols, i: int) -> Seq<(int, Option<u32>)>
    decreases i,
{
    if i <= 0 {
        Seq::empty()
    } else {
        kept_upto(c, i - 1) + row_kept(c, i - 1)
    }
}

/// One kept entry with everything the re-group reads from it.
pub ghost struct WorkModel {
    pub expandable: bool,
    pub base: Seq<char>,
    pub n: Option<u32>,
    pub reg: Seq<char>,
    pub addr: Option<Seq<char>>,
    pub reg_width: Seq<char>,
    pub field: Option<Seq<char>>,
    pub width: Option<Seq<char>>,
    pub attribute: Option<Seq<char>>,
    pub bit_offset: Option<Seq<char>>,
    pub default: Option<Seq<char>>,
    pub description: Option<Seq<char>>,
}

/// The concrete address of a kept entry: for a family row, the base
/// address plus the series value times the byte width, rendered as
/// upper-case hexadecimal; for a plain row, its address cell.
pub open spec fn final_addr(c: Cols, e: (int, Option<u32>)) -> Option<Seq<char>> {
    if expandable_of(c, e.0) {
        match base_addr_of(c, e.0) {
            Some(b) => Some(
                seq!['0', 'x'] + hex_render(b as nat + e.1->0 as nat * bytes_of(c, e.0)),
            ),
            None => None,
        }
    } else {
        c.addr[e.0]
    }
}

/// What a kept entry carries into the re-group.
pub open spec fn work_model(c: Cols, e: (int, Option<u32>)) -> WorkModel {
    WorkModel {
        expandable: expandable_of(c, e.0),
        base: base_reg_meta(c, e.0),
        n: e.1,
        reg: if expandable_of(c, e.0) {
            base_reg_meta(c, e.0)
        } else {
            c.reg[e.0]->0
        },
        addr: final_addr(c, e),
        reg_width: dec_render(sum_of(c, e.0)),
        field: c.field[e.0],
        width: c.width_str[e.0],
        attribute: c.attribute[e.0],
        bit_offset: bit_off_of(c, e.0),
        default: c.default[e.0],
        description: c.description[e.0],
    }
}

/// True where the value stands somewhere before `upto`.
pub open spec fn val_appears(vals: Seq<Option<u32>>, w: u32, upto: int) -> bool {
    exists|j: int| 0 <= j < upto && vals[j] == Some(w)
}

/// The dense rank of `v` among the values: how many distinct values
/// below `v` the list holds before `upto`.
pub open spec fn dense_rank(vals: Seq<Option<u32>>, v: u32, upto: int) -> nat
    decreases upto,
{
    if upto <= 0 {
        0
    } else if vals[upto - 1] matches Some(w) && w < v && !val_appears(vals, vals[upto - 1]->0,
        upto - 1) {
        dense_rank(vals, v, upto - 1) + 1
    } else {
        dense_rank(vals, v, upto - 1)
    }
}

/// The series values of the kept entries before `upto` whose family
/// base equals `base`.
pub open spec fn base_vals(
    kept: Seq<(int, Option<u32>)>,
    c: Cols,
    base: Seq<char>,
    upto: int,
) -> Seq<Option<u32>>
    decreases upto,
{
    if upto <= 0 {
        Seq::empty()
    } else if base_reg_meta(c, kept[upto - 1].0) == base {
        base_vals(kept, c, base, upto - 1) + seq![kept[upto - 1].1]
    } else {
        base_vals(kept, c, base, upto - 1)
    }
}

/// The final register name of a kept entry: for a family row, the base
/// name, an underscore and the zero-based dense rank of its series
/// value within the family; for a plain row, its register cell.
pub open spec fn final_reg(c: Cols, kept: Seq<(int, Option<u32>)>, e: (int, Option<u32>)) -> Seq<
    char,
> {
    if expandable_of(c, e.0) {
        let vals = base_vals(kept, c, base_reg_meta(c, e.0), kept.len() as int);
        base_reg_meta(c, e.0) + seq!['_'] + dec_render(dense_rank(vals, e.1->0, vals.len() as int))
    } else {
        c.reg[e.0]->0
    }
}

/// One output row: a concrete register with its field lists.
pub ghost struct SpecRegRow {
    pub reg: Seq<char>,
    pub addr: Option<Seq<char>>,
    pub reg_width: Seq<char>,
    pub field: Seq<Option<Seq<char>>>,
    pub width: Seq<Option<Seq<char>>>,
    pub attribute: Seq<Option<Seq<char>>>,
    pub bit_offset: Seq<Option<Seq<char>>>,
    pub default: Seq<Option<Seq<char>>>,
    pub description: Seq<Option<Seq<char>>>,
    pub n_series: Seq<Option<u32>>,
}

/// Position of the first output row with the given name at or after
/// `g`, or -1.
pub open spec fn find_group(acc: Seq<SpecRegRow>, key: Seq<char>, g: int) -> int
    decreases acc.len() - g,
{
    if g < 0 || g >= acc.len() {
        -1
    } else if acc[g].reg == key {
        g
    } else {
        find_group(acc, key, g + 1)
    }
}

/// An output row extended by one kept entry's per-field values.
pub open spec fn append_entry(row: SpecRegRow, w: WorkModel) -> SpecRegRow {
    SpecRegRow {
        reg: row.reg,
        addr: row.addr,
        reg_width: row.reg_width,
        field: row.field.push(w.field),
        width: row.width.push(w.width),
        attribute: row.attribute.push(w.attribute),
        bit_offset: row.bit_offset.push(w.bit_offset),
        default: row.default.push(w.default),
        description: row.description.push(w.description),
        n_series: row.n_series.push(w.n),
    }
}

/// A fresh output row opened by one kept entry.
pub open spec fn new_group(key: Seq<char>, w: WorkModel) -> SpecRegRow {
    SpecRegRow {
        reg: key,
        addr: w.addr,
        reg_width: w.reg_width,
        field: seq![w.field],
        width: seq![w.width],
        attribute: seq![w.attribute],
        bit_offset: seq![w.bit_offset],
        default: seq![w.default],
        description: seq![w.description],
        n_series: seq![w.n],
    }
}

/// The output rows after the first `k` kept entries were re-grouped by
/// their final register name, first-seen order kept.
pub open spec fn regroup_upto(c: Cols, kept: Seq<(int, Option<u32>)>, k: int) -> Seq<SpecRegRow>
    decreases k,
{
    if k <= 0 {
        Seq::empty()
    } else {
        let acc = regroup_upto(c, kept, k - 1);
        let e = kept[k - 1];
        let w = work_model(c, e);
        let key = final_reg(c, kept, e);
        let g = find_group(acc, key, 0);
        if g >= 0 {
            acc.update(g, append_entry(acc[g], w))
        } else {
            acc.push(new_group(key, w))
        }
    }
}

/// Everything the engine yields for the given columns.
pub open spec fn engine_rows(c: Cols) -> Seq<SpecRegRow> {
    let kept = kept_upto(c, c.addr.len() as int);
    regroup_upto(c, kept, kept.len() as int)
}

/// Builds the series start, start+step, ... below stop.
pub fn build_range(start: u32, stop: u32, step: u32) -> (r: Vec<u32>)
    requires
        step >= 1,
    ensures
        r@ == range_seq(start as int, stop as int, step as int),
{
    let ghost count = range_count(start as int, stop as int, step as int);
    let mut out: Vec<u32> = Vec::new();
    let mut cur: u64 = start as u64;
    while cur < stop as u64
        invariant
            step >= 1,
            out@.len() <= 0xFFFF_FFFF,
            cur == start as u64 + out@.len() * step,
            forall|m: int| 0 <= m < out@.len()
                ==> (#[trigger] out@[m]) == (start as int + m * step) as u32
                    && start as int + m * step < stop as int,
        decreases stop as int + step as int - cur,
    {
        proof {
            assert(cur <= u32::MAX);
            let l = out@.len() as int;
            assert((l + 1) * step == l * step + step) by (nonlinear_arith);
            if l + 1 > 0xFFFF_FFFF {
                assert(l == 0xFFFF_FFFF);
                assert(l * step >= l) by (nonlinear_arith)
                    requires step >= 1, l >= 0,
                {}
                assert(false);
            }
        }
        out.push(cur as u32);
        cur = cur + step as u64;
    }
    proof {
        let l = out@.len() as int;
        let a = start as int;
        let b = stop as int;
        let s = step as int;
        if l == 0 {
            assert(a >= b);
            assert(range_count(a, b, s) == 0);
        } else {
            assert(out@[l - 1] == (a + (l - 1) * s) as u32);
            assert(a + (l - 1) * s < b);
            assert(a + l * s >= b);
            assert((b - a - 1) / s == l - 1) by (nonlinear_arith)
                requires
                    s >= 1,
                    a + (l - 1) * s < b,
                    a + l * s >= b,
                    l >= 1,
            {}
            assert(range_count(a, b, s) == l);
        }
        assert(out@ =~= range_seq(a, b, s));
    }
    out
}

/// Counts the distinct series values below `v`.
pub fn dense_rank_exec(vals: &Vec<Option<u32>>, v: u32) -> (r: usize)
    ensures
        r as nat == dense_rank(vals@, v, vals@.len() as int),
{
    let n = vals.len();
    let mut cnt: usize = 0;
    let mut m: usize = 0;
    while m < n
        invariant
            m <= n,
            n == vals@.len(),
            cnt <= m,
            cnt as nat == dense_rank(vals@, v, m as int),
        decreases n - m,
    {
        let take: bool = match vals[m] {
            Some(w) => {
                if w < v {
                    let mut seen = false;
                    let mut j: usize = 0;
                    while j < m
                        invariant
                            j <= m,
                            m < n,
                            n == vals@.len(),
                            vals@[m as int] == Some(w),
                            seen == val_appears(vals@, w, j as int),
                        decreases m - j,
                    {
                        let hit = match vals[j] {
                            Some(x) => x == w,
                            None => false,
                        };
                        proof {
                            if hit {
                                assert(vals@[j as int] == Some(w));
                                assert(val_appears(vals@, w, j + 1));
                            } else {
                                if val_appears(vals@, w, j + 1) && !val_appears(vals@, w, j as int) {
                                    assert(vals@[j as int] == Some(w));
                                }
                            }
                        }
                        seen = seen || hit;
                        j = j + 1;
                    }
                    !seen
                } else {
                    false
                }
            },
            None => false,
        };
        if take {
            cnt = cnt + 1;
        }
        m = m + 1;
    }
    cnt
}

/// One output row of the engine: a concrete register, its address and
/// width, and its per-field values as parallel lists indexed one to one.
#[derive(Debug)]
pub struct RegRow {
    pub reg: String,
    pub addr: Option<String>,
    pub reg_width: String,
    pub field: Vec<Option<String>>,
    pub width: Vec<Option<String>>,
    pub attribute: Vec<Option<String>>,
    pub bit_offset: Vec<Option<String>>,
    pub default: Vec<Option<String>>,
    pub description: Vec<Option<String>>,
    pub n_series: Vec<Option<u32>>,
}

impl View for RegRow {
    type V = SpecRegRow;

    open spec fn view(&self) -> SpecRegRow {
        SpecRegRow {
            reg: self.reg@,
            addr: self.addr.deep_view(),
            reg_width: self.reg_width@,
            field: self.field.deep_view(),
            width: self.width.deep_view(),
            attribute: self.attribute.deep_view(),
            bit_offset: self.bit_offset.deep_view(),
            default: self.default.deep_view(),
            description: self.description.deep_view(),
            n_series: self.n_series@,
        }
    }
}

impl DeepView for RegRow {
    type V = SpecRegRow;

    open spec fn deep_view(&self) -> SpecRegRow {
        self.view()
    }
}

/// One kept entry between the explode and the re-group.
pub struct WorkRow {
    pub expandable: bool,
    pub base: String,
    pub n: Option<u32>,
    pub reg: String,
    pub addr: Option<String>,
    pub reg_width: String,
    pub field: Option<String>,
    pub width: Option<String>,
    pub attribute: Option<String>,
    pub bit_offset: Option<String>,
    pub default: Option<String>,
    pub description: Option<String>,
}

impl View for WorkRow {
    type V = WorkModel;

    open spec fn view(&self) -> WorkModel {
        WorkModel {
            expandable: self.expandable,
            base: self.base@,
            n: self.n,
            reg: self.reg@,
            addr: self.addr.deep_view(),
            reg_width: self.reg_width@,
            field: self.field.deep_view(),
            width: self.width.deep_view(),
            attribute: self.attribute.deep_view(),
            bit_offset: self.bit_offset.deep_view(),
            default: self.default.deep_view(),
            description: self.description.deep_view(),
        }
    }
}

/// Copies an optional text.
fn clone_opt(a: &Option<String>) -> (r: Option<String>)
    ensures
        r.deep_view() == a.deep_view(),
{
    match a {
        Some(s) => Some(s.clone()),
        None => None,
    }
}

/// Copies a list of optional texts.
fn clone_opt_vec(v: &Vec<Option<String>>) -> (r: Vec<Option<String>>)
    ensures
        r.deep_view() == v.deep_view(),
{
    let mut out: Vec<Option<String>> = Vec::new();
    let n = v.len();
    let mut i: usize = 0;
    while i < n
        invariant
            i <= n,
            n == v@.len(),
            out@.len() == i,
            forall|j: int| 0 <= j < i ==> out.deep_view()[j] == v.deep_view()[j],
        decreases n - i,
    {
        out.push(clone_opt(&v[i]));
        i = i + 1;
    }
    proof {
        assert(out.deep_view() =~= v.deep_view());
    }
    out
}

/// Copies a list of optional numbers.
fn clone_num_vec(v: &Vec<Option<u32>>) -> (r: Vec<Option<u32>>)
    ensures
        r@ == v@,
{
    let mut out: Vec<Option<u32>> = Vec::new();
    let n = v.len();
    let mut i: usize = 0;
    while i < n
        invariant
            i <= n,
            n == v@.len(),
            out@.len() == i,
            forall|j: int| 0 <= j < i ==> out@[j] == v@[j],
        decreases n - i,
    {
        out.push(v[i]);
        i = i + 1;
    }
    proof {
        assert(out@ =~= v@);
    }
    out
}

/// Copies one output row.
fn clone_reg_row(r: &RegRow) -> (c: RegRow)
    ensures
        c@ == r@,
{
    RegRow {
        reg: r.reg.clone(),
        addr: clone_opt(&r.addr),
        reg_width: r.reg_width.clone(),
        field: clone_opt_vec(&r.field),
        width: clone_opt_vec(&r.width),
        attribute: clone_opt_vec(&r.attribute),
        bit_offset: clone_opt_vec(&r.bit_offset),
        default: clone_opt_vec(&r.default),
        description: clone_opt_vec(&r.description),
        n_series: clone_num_vec(&r.n_series),
    }
}

/// The per-field lists of an output row walk in step.
pub open spec fn row_lists_wf(r: SpecRegRow) -> bool {
    &&& r.width.len() == r.field.len()
    &&& r.attribute.len() == r.field.len()
    &&& r.bit_offset.len() == r.field.len()
    &&& r.default.len() == r.field.len()
    &&& r.description.len() == r.field.len()
    &&& r.n_series.len() == r.field.len()
}

/// Every row the re-group yields keeps its lists in step: a fresh row
/// opens every list with one entry, and an append extends every list.
pub proof fn lemma_regroup_wf(c: Cols, kept: Seq<(int, Option<u32>)>, k: int)
    requires
        k >= 0,
    ensures
        forall|g: int| 0 <= g < regroup_upto(c, kept, k).len()
            ==> row_lists_wf(#[trigger] regroup_upto(c, kept, k)[g]),
    decreases k,
{
    if k > 0 {
        lemma_regroup_wf(c, kept, k - 1);
        let acc = regroup_upto(c, kept, k - 1);
        let e = kept[k - 1];
        let w = work_model(c, e);
        let key = final_reg(c, kept, e);
        let g = find_group(acc, key, 0);
        if g >= 0 {
            lemma_find_group_found(acc, key, 0);
            assert forall|h: int| 0 <= h < regroup_upto(c, kept, k).len()
                implies row_lists_wf(#[trigger] regroup_upto(c, kept, k)[h]) by {
                if h == g {
                    assert(row_lists_wf(acc[g]));
                    assert(regroup_upto(c, kept, k)[h] == append_entry(acc[g], w));
                } else {
                    assert(regroup_upto(c, kept, k)[h] == acc[h]);
                }
            }
        } else {
            assert forall|h: int| 0 <= h < regroup_upto(c, kept, k).len()
                implies row_lists_wf(#[trigger] regroup_upto(c, kept, k)[h]) by {
                if h < acc.len() {
                    assert(regroup_upto(c, kept, k)[h] == acc[h]);
                } else {
                    assert(regroup_upto(c, kept, k)[h] == new_group(key, w));
                }
            }
        }
    }
}

/// A found output row stands inside the list and bears the name.
pub proof fn lemma_find_group_found(acc: Seq<SpecRegRow>, key: Seq<char>, i: int)
    requires
        0 <= i,
        find_group(acc, key, i) >= 0,
    ensures
        i <= find_group(acc, key, i) < acc.len(),
        acc[find_group(acc, key, i)].reg == key,
    decreases acc.len() - i,
{
    if i < acc.len() && acc[i].reg != key {
        lemma_find_group_found(acc, key, i + 1);
    }
}

/// Every kept entry points at a row whose group has a first register
/// name; family entries carry a series value.
pub proof fn lemma_kept_wf(c: Cols, i: int, k: int)
    requires
        0 <= k < kept_upto(c, i).len(),
        i <= c.addr.len(),
    ensures
        0 <= kept_upto(c, i)[k].0 < i,
        first_reg_of(c, kept_upto(c, i)[k].0) is Some,
        expandable_of(c, kept_upto(c, i)[k].0) ==> kept_upto(c, i)[k].1 is Some,
    decreases i,
{
    if i > 0 {
        let pre = kept_upto(c, i - 1);
        if k < pre.len() {
            lemma_kept_wf(c, i - 1, k);
        } else {
            let e = row_kept(c, i - 1)[k - pre.len()];
            assert(kept_upto(c, i)[k] == e);
        }
    }
}

/// The names of the eight columns the engine reads.
pub open spec fn addr_lit() -> Seq<char> {
    seq!['A', 'D', 'D', 'R']
}

pub open spec fn reg_lit() -> Seq<char> {
    seq!['R', 'E', 'G']
}

pub open spec fn field_lit() -> Seq<char> {
    seq!['F', 'I', 'E', 'L', 'D']
}

pub open spec fn bit_lit() -> Seq<char> {
    seq!['B', 'I', 'T']
}

pub open spec fn width_lit() -> Seq<char> {
    seq!['W', 'I', 'D', 'T', 'H']
}

pub open spec fn attribute_lit() -> Seq<char> {
    seq!['A', 'T', 'T', 'R', 'I', 'B', 'U', 'T', 'E']
}

pub open spec fn default_lit() -> Seq<char> {
    seq!['D', 'E', 'F', 'A', 'U', 'L', 'T']
}

pub open spec fn description_lit() -> Seq<char> {
    seq!['D', 'E', 'S', 'C', 'R', 'I', 'P', 'T', 'I', 'O', 'N']
}

/// True where the table has all eight required columns.
pub open spec fn cols_present(t: &Table) -> bool {
    &&& t.col_index_spec(addr_lit()) >= 0
    &&& t.col_index_spec(reg_lit()) >= 0
    &&& t.col_index_spec(field_lit()) >= 0
    &&& t.col_index_spec(bit_lit()) >= 0
    &&& t.col_index_spec(width_lit()) >= 0
    &&& t.col_index_spec(attribute_lit()) >= 0
    &&& t.col_index_spec(default_lit()) >= 0
    &&& t.col_index_spec(description_lit()) >= 0
}

/// The number a width cell holds, where it holds one that fits.
pub open spec fn parsed_width_cell(cell: Option<Seq<char>>) -> Option<u32> {
    match cell {
        Some(s) => if dec_u32_ok(s) {
            Some(dec_value(s) as u32)
        } else {
            None
        },
        None => None,
    }
}

/// The numbers of a whole width column.
pub open spec fn parsed_widths(col: Seq<Option<Seq<char>>>) -> Seq<Option<u32>> {
    Seq::new(col.len(), |i: int| parsed_width_cell(col[i]))
}

/// True where every present width cell reads as a number.
pub open spec fn widths_ok_col(col: Seq<Option<Seq<char>>>) -> bool {
    forall|i: int| 0 <= i < col.len() ==> ((#[trigger] col[i]) is Some ==> dec_u32_ok(col[i]->0))
}

/// The engine's view of a table: its eight columns after the
/// description default and the forward fill.
pub open spec fn cols_of(t: &Table) -> Cols {
    let wstr = ffilled(t.col_spec(width_lit()));
    Cols {
        addr: ffilled(t.col_spec(addr_lit())),
        reg: ffilled(t.col_spec(reg_lit())),
        field: ffilled(t.col_spec(field_lit())),
        bit: ffilled(t.col_spec(bit_lit())),
        width_str: wstr,
        width_num: parsed_widths(wstr),
        attribute: ffilled(t.col_spec(attribute_lit())),
        default: ffilled(t.col_spec(default_lit())),
        description: ffilled(with_desc_default(t.col_spec(description_lit()))),
    }
}

/// Looks an output row up by its register name.
fn find_row(out: &Vec<RegRow>, key: &str) -> (r: Option<usize>)
    ensures
        match r {
            Some(g) => find_group(out.deep_view(), key@, 0) == g as int && g < out@.len(),
            None => find_group(out.deep_view(), key@, 0) == -1,
        },
{
    let n = out.len();
    let mut g: usize = 0;
    while g < n
        invariant
            g <= n,
            n == out@.len(),
            find_group(out.deep_view(), key@, 0) == find_group(out.deep_view(), key@, g as int),
        decreases n - g,
    {
        if str_eq_exec(out[g].reg.as_str(), key) {
            return Some(g);
        }
        g = g + 1;
    }
    None
}

/// Normalizes one block's register table: fills merged cells, computes
/// group widths and addresses, expands templated families and yields
/// one row per concrete register. Refused: a table missing one of the
/// eight columns, and a width cell that does not read as a number.
pub fn parse_register(t: &Table) -> (r: Result<Vec<RegRow>, Error>)
    requires
        t.wf(),
    ensures
        match r {
            Ok(rows) => {
                &&& cols_present(t)
                &&& widths_ok_col(cols_of(t).width_str)
                &&& rows.deep_view() == engine_rows(cols_of(t))
            },
            Err(e) => {
                &&& (e is Column || e is Parse)
                &&& (e is Column <==> !cols_present(t))
                &&& (e is Parse <==> cols_present(t) && !widths_ok_col(cols_of(t).width_str))
            },
        },
{
    proof {
        reveal_strlit("ADDR");
        reveal_strlit("REG");
        reveal_strlit("FIELD");
        reveal_strlit("BIT");
        reveal_strlit("WIDTH");
        reveal_strlit("ATTRIBUTE");
        reveal_strlit("DEFAULT");
        reveal_strlit("DESCRIPTION");
        assert("ADDR"@ =~= addr_lit());
        assert("REG"@ =~= reg_lit());
        assert("FIELD"@ =~= field_lit());
        assert("BIT"@ =~= bit_lit());
        assert("WIDTH"@ =~= width_lit());
        assert("ATTRIBUTE"@ =~= attribute_lit());
        assert("DEFAULT"@ =~= default_lit());
        assert("DESCRIPTION"@ =~= description_lit());
    }
    let ai = match t.col_index("ADDR") {
        Some(i) => i,
        None => {
            return Err(Error::Column(String::from_str("missing column ADDR")));
        },
    };
    let ri = match t.col_index("REG") {
        Some(i) => i,
        None => {
            return Err(Error::Column(String::from_str("missing column REG")));
        },
    };
    let fi = match t.col_index("FIELD") {
        Some(i) => i,
        None => {
            return Err(Error::Column(String::from_str("missing column FIELD")));
        },
    };
    let bi = match t.col_index("BIT") {
        Some(i) => i,
        None => {
            return Err(Error::Column(String::from_str("missing column BIT")));
        },
    };
    let wi = match t.col_index("WIDTH") {
        Some(i) => i,
        None => {
            return Err(Error::Column(String::from_str("missing column WIDTH")));
        },
    };
    let ti = match t.col_index("ATTRIBUTE") {
        Some(i) => i,
        None => {
            return Err(Error::Column(String::from_str("missing column ATTRIBUTE")));
        },
    };
    let di = match t.col_index("DEFAULT") {
        Some(i) => i,
        None => {
            return Err(Error::Column(String::from_str("missing column DEFAULT")));
        },
    };
    let si = match t.col_index("DESCRIPTION") {
        Some(i) => i,
        None => {
            return Err(Error::Column(String::from_str("missing column DESCRIPTION")));
        },
    };
    let addr_f = forward_fill(&t.cols[ai]);
    let reg_f = forward_fill(&t.cols[ri]);
    let field_f = forward_fill(&t.cols[fi]);
    let bit_f = forward_fill(&t.cols[bi]);
    let width_f = forward_fill(&t.cols[wi]);
    let attr_f = forward_fill(&t.cols[ti]);
    let def_f = forward_fill(&t.cols[di]);
    let desc0 = desc_default(&t.cols[si]);
    let desc_f = forward_fill(&desc0);
    let ghost c = cols_of(t);
    let ghost raw_reg = t.cols@[ri as int].deep_view();
    proof {
        assert(addr_f.deep_view() == c.addr);
        assert(reg_f.deep_view() == c.reg);
        assert(field_f.deep_view() == c.field);
        assert(bit_f.deep_view() == c.bit);
        assert(width_f.deep_view() == c.width_str);
        assert(attr_f.deep_view() == c.attribute);
        assert(def_f.deep_view() == c.default);
        assert(desc_f.deep_view() == c.description);
        assert(c.reg == ffilled(raw_reg));
    }
    let n = addr_f.len();
    proof {
        assert(t.cols@[ai as int]@.len() == t.height());
        assert(t.cols@[ri as int]@.len() == t.height());
        assert(t.cols@[fi as int]@.len() == t.height());
        assert(t.cols@[bi as int]@.len() == t.height());
        assert(t.cols@[wi as int]@.len() == t.height());
        assert(t.cols@[ti as int]@.len() == t.height());
        assert(t.cols@[di as int]@.len() == t.height());
        assert(t.cols@[si as int]@.len() == t.height());
        assert(c.wf());
        assert(c.addr.len() == n);
    }
    // Width cells as numbers; a present cell that does not read as one
    // aborts the conversion.
    let mut wvals: Vec<u32> = Vec::new();
    let mut wpres: Vec<bool> = Vec::new();
    let mut i: usize = 0;
    while i < n
        invariant
            i <= n,
            n == width_f@.len(),
            cols_present(t),
            c == cols_of(t),
            width_f.deep_view() == c.width_str,
            c.width_num == parsed_widths(c.width_str),
            c.width_str.len() == n,
            wvals@.len() == i,
            wpres@.len() == i,
            forall|j: int| 0 <= j < i
                ==> widths_model(wvals@, wpres@)[j] == c.width_num[j],
            forall|j: int| 0 <= j < i
                ==> ((#[trigger] c.width_str[j]) is Some ==> dec_u32_ok(c.width_str[j]->0)),
        decreases n - i,
    {
        let ghost prevm = widths_model(wvals@, wpres@);
        match &width_f[i] {
            None => {
                wvals.push(0);
                wpres.push(false);
            },
            Some(s) => {
                match parse_u32_dec(s.as_str()) {
                    Some(v) => {
                        wvals.push(v);
                        wpres.push(true);
                    },
                    None => {
                        proof {
                            assert(c.width_str[i as int] is Some);
                            assert(!dec_u32_ok(c.width_str[i as int]->0));
                            assert(!widths_ok_col(c.width_str));
                        }
                        return Err(Error::Parse(String::from_str("width is not a number")));
                    },
                }
            },
        }
        i = i + 1;
        proof {
            assert forall|j: int| 0 <= j < i
                implies widths_model(wvals@, wpres@)[j] == c.width_num[j] by {
                if j < i - 1 {
                    assert(widths_model(wvals@, wpres@)[j] == prevm[j]);
                }
            }
        }
    }
    proof {
        assert(widths_model(wvals@, wpres@) =~= c.width_num);
        assert(widths_ok_col(c.width_str));
    }
    // First pass: explode and filter, keeping one work row per entry.
    let mut work: Vec<WorkRow> = Vec::new();
    let mut i: usize = 0;
    while i < n
        invariant
            i <= n,
            n == addr_f@.len(),
            n == reg_f@.len(),
            n == field_f@.len(),
            n == bit_f@.len(),
            n == width_f@.len(),
            n == attr_f@.len(),
            n == def_f@.len(),
            n == desc_f@.len(),
            n == wvals@.len(),
            n == wpres@.len(),
            addr_f.deep_view() == c.addr,
            reg_f.deep_view() == c.reg,
            field_f.deep_view() == c.field,
            bit_f.deep_view() == c.bit,
            width_f.deep_view() == c.width_str,
            attr_f.deep_view() == c.attribute,
            def_f.deep_view() == c.default,
            desc_f.deep_view() == c.description,
            widths_model(wvals@, wpres@) == c.width_num,
            c.reg == ffilled(raw_reg),
            raw_reg.len() == n,
            c.wf(),
            c.addr.len() == n,
            work@.len() == kept_upto(c, i as int).len(),
            forall|m: int| 0 <= m < work@.len()
                ==> (#[trigger] work@[m])@ == work_model(c, kept_upto(c, i as int)[m]),
        decreases n - i,
    {
        let ghost kprev = kept_upto(c, i as int);
        let f = gfirst_exec(&addr_f, i);
        let first_reg_some = match &reg_f[f] {
            Some(_) => true,
            None => false,
        };
        if first_reg_some {
            let fr: String = match &reg_f[f] {
                Some(s) => s.clone(),
                None => {
                    proof {
                        assert(false);
                    }
                    String::new()
                },
            };
            proof {
                assert(Some(fr@) == first_reg_of(c, i as int));
            }
            let expandable = match find_brace(fr.as_str()) {
                Some(_) => true,
                None => false,
            };
            proof {
                assert(expandable == expandable_of(c, i as int));
            }
            let base = base_reg_of(fr.as_str());
            proof {
                assert(base@ == base_reg_meta(c, i as int));
            }
            let args: Option<Vec<u32>> = match range_capture_of(fr.as_str()) {
                Some(cap) => parse_args_str(cap.as_str()),
                None => None,
            };
            proof {
                match &args {
                    Some(a) => assert(args_of(c, i as int) == Some(a@)),
                    None => assert(args_of(c, i as int) is None),
                }
            }
            let series: Option<Vec<u32>> = match &args {
                Some(a) => {
                    if a.len() == 3 {
                        if a[2] == 0 {
                            None
                        } else {
                            Some(build_range(a[0], a[1], a[2]))
                        }
                    } else if a.len() == 2 {
                        Some(build_range(a[0], a[1], 1))
                    } else if a.len() == 1 {
                        Some(build_range(0, a[0], 1))
                    } else {
                        None
                    }
                },
                None => None,
            };
            proof {
                match &series {
                    Some(vs) => assert(series_of(c, i as int) == Some(vs@)),
                    None => assert(series_of(c, i as int) is None),
                }
            }
            let sum = gsum_exec(&addr_f, &wvals, &wpres, i);
            proof {
                assert(sum as nat == sum_of(c, i as int));
            }
            let reg_width_s = u128_to_dec(sum);
            let bytes: u128 = sum / 8;
            let base_addr: Option<u32> = match &addr_f[i] {
                Some(s) => match hex_addr_capture_of(s.as_str()) {
                    Some(cap) => parse_u32_hex(cap.as_str()),
                    None => None,
                },
                None => None,
            };
            proof {
                assert(base_addr == base_addr_of(c, i as int));
            }
            let bitoff: Option<String> = match &bit_f[i] {
                Some(s) => bit_capture_of(s.as_str()),
                None => None,
            };
            proof {
                assert(bitoff.deep_view() == bit_off_of(c, i as int));
            }
            let fok = match &field_f[i] {
                Some(fv) => !fv.as_str().is_empty(),
                None => false,
            };
            proof {
                assert(fok == field_ok(c, i as int));
            }
            let series_live: bool = match &series {
                Some(vs) => vs.len() > 0,
                None => false,
            };
            if (expandable && series_live) || (!expandable && fok && series_live) {
                // The guard above settled that a series is present; the
                // other arm is unreachable and proved so.
                let vs: &Vec<u32> = match &series {
                    Some(vs) => vs,
                    None => {
                        proof {
                            assert(false);
                        }
                        &wvals
                    },
                };
                let ghost rk = row_kept(c, i as int);
                proof {
                    assert(rk =~= Seq::new(vs@.len(), |t2: int| (i as int, Some(vs@[t2]))));
                }
                let reg_plain: String = if expandable {
                    base.clone()
                } else {
                    match &reg_f[i] {
                        Some(rg) => rg.clone(),
                        None => {
                            proof {
                                lemma_ffill_monotone(raw_reg, f as int, i as int);
                                assert(false);
                            }
                            String::new()
                        },
                    }
                };
                let mut t2: usize = 0;
                let vlen = vs.len();
                while t2 < vlen
                    invariant
                        t2 <= vlen,
                        vlen == vs@.len(),
                        work@.len() == kprev.len() + t2,
                        rk == row_kept(c, i as int),
                        rk.len() == vlen,
                        forall|m: int| 0 <= m < kprev.len()
                            ==> (#[trigger] work@[m])@ == work_model(c, kprev[m]),
                        forall|m: int| kprev.len() <= m < work@.len()
                            ==> (#[trigger] work@[m])@ == work_model(c, rk[m - kprev.len()]),
                        rk == Seq::new(vs@.len(), |q: int| (i as int, Some(vs@[q]))),
                        i < n,
                        c.addr.len() == n,
                        expandable == expandable_of(c, i as int),
                        base@ == base_reg_meta(c, i as int),
                        reg_plain@ == (if expandable_of(c, i as int) {
                            base_reg_meta(c, i as int)
                        } else {
                            c.reg[i as int]->0
                        }),
                        sum as nat == sum_of(c, i as int),
                        bytes as nat == bytes_of(c, i as int),
                        reg_width_s@ == dec_render(sum_of(c, i as int)),
                        base_addr == base_addr_of(c, i as int),
                        bitoff.deep_view() == bit_off_of(c, i as int),
                        addr_f.deep_view() == c.addr,
                        field_f.deep_view() == c.field,
                        width_f.deep_view() == c.width_str,
                        attr_f.deep_view() == c.attribute,
                        def_f.deep_view() == c.default,
                        desc_f.deep_view() == c.description,
                        n == addr_f@.len(),
                        n == field_f@.len(),
                        n == width_f@.len(),
                        n == attr_f@.len(),
                        n == def_f@.len(),
                        n == desc_f@.len(),
                    decreases vlen - t2,
                {
                    let v = vs[t2];
                    let addr_cell: Option<String> = if expandable {
                        match base_addr {
                            Some(b) => {
                                proof {
                                    lemma_gsum_bound(
                                        c.addr,
                                        c.width_num,
                                        c.addr[i as int],
                                        c.addr.len() as int,
                                    );
                                    assert(sum as nat <= (n as nat) * 0xFFFF_FFFF);
                                    assert((n as nat) * 0xFFFF_FFFF
                                        <= 0xFFFF_FFFF_FFFF_FFFFnat * 0xFFFF_FFFF)
                                        by (nonlinear_arith)
                                        requires n <= 0xFFFF_FFFF_FFFF_FFFFnat,
                                    {}
                                    assert((v as u128) * bytes
                                        <= 0xFFFF_FFFFu128 * bytes) by (nonlinear_arith)
                                        requires v <= 0xFFFF_FFFFu128, bytes >= 0,
                                    {}
                                    assert(0xFFFF_FFFFu128 * bytes
                                        <= 0xFFFF_FFFFu128 * 0x1FFF_FFFF_FFFF_FFFF_FFFF_FFFFu128)
                                        by (nonlinear_arith)
                                        requires bytes <= 0x1FFF_FFFF_FFFF_FFFF_FFFF_FFFFu128,
                                    {}
                                }
                                let val: u128 = b as u128 + (v as u128) * bytes;
                                let hexs = u128_to_hex(val);
                                proof {
                                    reveal_strlit("0x");
                                }
                                let mut astr = String::from_str("0x");
                                proof {
                                    assert(astr@ =~= seq!['0', 'x']);
                                }
                                astr.append(hexs.as_str());
                                Some(astr)
                            },
                            None => None,
                        }
                    } else {
                        clone_opt(&addr_f[i])
                    };
                    proof {
                        assert(addr_cell.deep_view()
                            == final_addr(c, (i as int, Some(v))));
                    }
                    let wr = WorkRow {
                        expandable,
                        base: base.clone(),
                        n: Some(v),
                        reg: reg_plain.clone(),
                        addr: addr_cell,
                        reg_width: reg_width_s.clone(),
                        field: clone_opt(&field_f[i]),
                        width: clone_opt(&width_f[i]),
                        attribute: clone_opt(&attr_f[i]),
                        bit_offset: clone_opt(&bitoff),
                        default: clone_opt(&def_f[i]),
                        description: clone_opt(&desc_f[i]),
                    };
                    proof {
                        assert(wr@ == work_model(c, (i as int, Some(v))));
                        assert(rk[t2 as int] == (i as int, Some(v)));
                    }
                    work.push(wr);
                    t2 = t2 + 1;
                }
                proof {
                    assert(kept_upto(c, i as int + 1) == kprev + rk);
                }
            } else if !expandable && fok {
                // A plain row with a field and no series keeps one entry.
                let ghost rk = row_kept(c, i as int);
                proof {
                    assert(rk =~= seq![(i as int, Option::<u32>::None)]);
                }
                let reg_plain: String = match &reg_f[i] {
                    Some(rg) => rg.clone(),
                    None => {
                        proof {
                            lemma_ffill_monotone(raw_reg, f as int, i as int);
                            assert(false);
                        }
                        String::new()
                    },
                };
                let wr = WorkRow {
                    expandable,
                    base: base.clone(),
                    n: None,
                    reg: reg_plain,
                    addr: clone_opt(&addr_f[i]),
                    reg_width: reg_width_s.clone(),
                    field: clone_opt(&field_f[i]),
                    width: clone_opt(&width_f[i]),
                    attribute: clone_opt(&attr_f[i]),
                    bit_offset: clone_opt(&bitoff),
                    default: clone_opt(&def_f[i]),
                    description: clone_opt(&desc_f[i]),
                };
                proof {
                    assert(wr@ == work_model(c, (i as int, Option::<u32>::None)));
                    assert(kept_upto(c, i as int + 1) == kprev + rk);
                }
                work.push(wr);
            } else {
                proof {
                    assert(row_kept(c, i as int) =~= Seq::<(int, Option<u32>)>::empty());
                    assert(kept_upto(c, i as int + 1) == kprev + row_kept(c, i as int));
                    assert(kept_upto(c, i as int + 1) =~= kprev);
                }
            }
        } else {
            proof {
                assert(first_reg_of(c, i as int) is None);
                assert(row_kept(c, i as int) =~= Seq::<(int, Option<u32>)>::empty());
                assert(kept_upto(c, i as int + 1) =~= kprev);
            }
        }
        i = i + 1;
    }
    let ghost kept = kept_upto(c, n as int);
    proof {
        assert(work@.len() == kept.len());
    }
    // Second pass: rank family entries, name each row finally, and
    // re-group by that name.
    let mut out: Vec<RegRow> = Vec::new();
    let wn = work.len();
    let mut k: usize = 0;
    while k < wn
        invariant
            k <= wn,
            wn == work@.len(),
            wn == kept.len(),
            kept == kept_upto(c, n as int),
            n == c.addr.len(),
            c.wf(),
            forall|m: int| 0 <= m < work@.len()
                ==> (#[trigger] work@[m])@ == work_model(c, kept[m]),
            out.deep_view() == regroup_upto(c, kept, k as int),
        decreases wn - k,
    {
        let e_expandable = work[k].expandable;
        let reg_final: String = if e_expandable {
            let mut vals: Vec<Option<u32>> = Vec::new();
            let mut m: usize = 0;
            while m < wn
                invariant
                    m <= wn,
                    wn == work@.len(),
                    wn == kept.len(),
                    k < wn,
                    n == c.addr.len(),
                    kept == kept_upto(c, n as int),
                    forall|q: int| 0 <= q < work@.len()
                        ==> (#[trigger] work@[q])@ == work_model(c, kept[q]),
                    vals@ == base_vals(kept, c, work@[k as int]@.base, m as int),
                decreases wn - m,
            {
                if str_eq_exec(work[m].base.as_str(), work[k].base.as_str()) {
                    vals.push(work[m].n);
                } else {
                }
                m = m + 1;
            }
            let v: u32 = match work[k].n {
                Some(v) => v,
                None => {
                    proof {
                        lemma_kept_wf(c, n as int, k as int);
                        assert(false);
                    }
                    0
                },
            };
            let rank = dense_rank_exec(&vals, v);
            let mut rf = work[k].base.clone();
            proof {
                reveal_strlit("_");
                assert("_"@ =~= seq!['_']);
            }
            rf.append("_");
            let ranks = u128_to_dec(rank as u128);
            rf.append(ranks.as_str());
            proof {
                assert(rf@ == final_reg(c, kept, kept[k as int]));
            }
            rf
        } else {
            let rf = work[k].reg.clone();
            proof {
                assert(rf@ == final_reg(c, kept, kept[k as int]));
            }
            rf
        };
        // Find this name's output row, if one was opened already.
        let hit = find_row(&out, reg_final.as_str());
        let wk_field = clone_opt(&work[k].field);
        let wk_width = clone_opt(&work[k].width);
        let wk_attr = clone_opt(&work[k].attribute);
        let wk_bit = clone_opt(&work[k].bit_offset);
        let wk_def = clone_opt(&work[k].default);
        let wk_desc = clone_opt(&work[k].description);
        let ghost prevo = out.deep_view();
        if let Some(g) = hit {
            let mut row = clone_reg_row(&out[g]);
            row.field.push(wk_field);
            row.width.push(wk_width);
            row.attribute.push(wk_attr);
            row.bit_offset.push(wk_bit);
            row.default.push(wk_def);
            row.description.push(wk_desc);
            row.n_series.push(work[k].n);
            proof {
                let ghost ap = append_entry(prevo[g as int], work_model(c, kept[k as int]));
                assert(row@.field =~= ap.field);
                assert(row@.width =~= ap.width);
                assert(row@.attribute =~= ap.attribute);
                assert(row@.bit_offset =~= ap.bit_offset);
                assert(row@.default =~= ap.default);
                assert(row@.description =~= ap.description);
                assert(row@.n_series =~= ap.n_series);
                assert(row@ == ap);
            }
            out.set(g, row);
            proof {
                assert(out.deep_view() =~= prevo.update(
                    g as int,
                    append_entry(prevo[g as int], work_model(c, kept[k as int])),
                ));
            }
        } else {
            let row = RegRow {
                reg: reg_final,
                addr: clone_opt(&work[k].addr),
                reg_width: work[k].reg_width.clone(),
                field: vec![wk_field],
                width: vec![wk_width],
                attribute: vec![wk_attr],
                bit_offset: vec![wk_bit],
                default: vec![wk_def],
                description: vec![wk_desc],
                n_series: vec![work[k].n],
            };
            proof {
                assert(row@.field =~= seq![work_model(c, kept[k as int]).field]);
                assert(row@.width =~= seq![work_model(c, kept[k as int]).width]);
                assert(row@.attribute =~= seq![work_model(c, kept[k as int]).attribute]);
                assert(row@.bit_offset =~= seq![work_model(c, kept[k as int]).bit_offset]);
                assert(row@.default =~= seq![work_model(c, kept[k as int]).default]);
                assert(row@.description =~= seq![work_model(c, kept[k as int]).description]);
                assert(row@.n_series =~= seq![work_model(c, kept[k as int]).n]);
                assert(row@ == new_group(
                    final_reg(c, kept, kept[k as int]),
                    work_model(c, kept[k as int]),
                ));
            }
            out.push(row);
            proof {
                assert(out.deep_view() =~= prevo.push(new_group(
                    final_reg(c, kept, kept[k as int]),
                    work_model(c, kept[k as int]),
                )));
            }
        }
        k = k + 1;
    }
    proof {
        assert(out.deep_view() == engine_rows(c));
    }
    Ok(out)
}

} // verus!
