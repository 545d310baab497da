//! The named-column table built from one sheet's cell grid: the first
//! grid row names the columns, the remaining rows fill them.

use vstd::prelude::*;
use vstd::string::*;

use crate::error::Error;
use crate::text::{str_eq_exec, u128_to_dec, dec_render};

verus! {

/// One sheet as named columns of optional text, all of one length.
#[derive(Debug)]
pub struct Table {
    pub names: Vec<String>,
    pub cols: Vec<Vec<Option<String>>>,
}

impl Table {
    /// The number of data rows.
    pub open spec fn height(&self) -> nat {
        if self.cols@.len() > 0 {
            self.cols@[0]@.len()
        } else {
            0
        }
    }

    /// Every column is named, all columns have one length, and no two
    /// columns share a name.
    pub open spec fn wf(&self) -> bool {
        &&& self.names@.len() == self.cols@.len()
        &&& forall|i: int| 0 <= i < self.cols@.len() ==> (#[trigger] self.cols@[i])@.len()
            == self.height()
        &&& forall|i: int, j: int| 0 <= i < j < self.names@.len()
            ==> (#[trigger] self.names@[i])@ != (#[trigger] self.names@[j])@
    }

    /// Position of the column with the given name, or -1.
    pub open spec fn col_index_spec(&self, name: Seq<char>) -> int {
        find_name(self.names.deep_view(), name, 0)
    }

    /// The cells of the column with the given name.
    pub open spec fn col_spec(&self, name: Seq<char>) -> Seq<Option<Seq<char>>> {
        self.cols@[self.col_index_spec(name)].deep_view()
    }

    /// The number of data rows.
    pub fn num_rows(&self) -> (r: usize)
        ensures
            r as nat == self.height(),
    {
        if self.cols.len() == 0 {
            0
        } else {
            self.cols[0].len()
        }
    }

    /// Looks a column up by name.
    pub fn col_index(&self, name: &str) -> (r: Option<usize>)
        ensures
            match r {
                Some(i) => self.col_index_spec(name@) == i as int && i < self.names@.len(),
                None => self.col_index_spec(name@) == -1,
            },
    {
        let n = self.names.len();
        let mut i: usize = 0;
        while i < n
            invariant
                i <= n,
                n == self.names@.len(),
                find_name(self.names.deep_view(), name@, 0)
                    == find_name(self.names.deep_view(), name@, i as int),
            decreases n - i,
        {
            if str_eq_exec(self.names[i].as_str(), name) {
                return Some(i);
            }
            i = i + 1;
        }
        None
    }
}

/// Position of the first name equal to `name` at or after `i`, or -1.
pub open spec fn find_name(names: Seq<Seq<char>>, name: Seq<char>, i: int) -> int
    decreases names.len() - i,
{
    if i < 0 || i >= names.len() {
        -1
    } else if names[i] == name {
        i
    } else {
        find_name(names, name, i + 1)
    }
}

/// The header text of one cell of the first grid row: empty cells read
/// as empty text.
pub open spec fn raw_header(cell: Option<Seq<char>>) -> Seq<char> {
    match cell {
        Some(t) => t,
        None => Seq::empty(),
    }
}

/// The header texts of a grid's first row.
pub open spec fn headers_of(g: Seq<Seq<Option<Seq<char>>>>) -> Seq<Seq<char>> {
    g[0].map_values(|c: Option<Seq<char>>| raw_header(c))
}

/// The number of entries before position `i` that equal `x`.
pub open spec fn count_eq_before(h: Seq<Seq<char>>, x: Seq<char>, i: int) -> nat
    decreases i,
{
    if i <= 0 {
        0
    } else if h[i - 1] == x {
        count_eq_before(h, x, i - 1) + 1
    } else {
        count_eq_before(h, x, i - 1)
    }
}

/// The characters of the suffix that marks a repeated header.
pub open spec fn dedup_lit() -> Seq<char> {
    seq!['_', 'd', 'u', 'p', 'l', 'i', 'c', 'a', 't', 'e', 'd', '_']
}

/// The column name given to position `i` of the header row: the raw
/// text for a first occurrence; for the n-th repeat, the raw text, the
/// suffix "_duplicated_" and the count n.
pub open spec fn dedup_name(hdrs: Seq<Seq<char>>, i: int) -> Seq<char> {
    let c = count_eq_before(hdrs, hdrs[i], i);
    if c == 0 {
        hdrs[i]
    } else {
        hdrs[i] + dedup_lit() + dec_render(c)
    }
}

/// True where deduplication still leaves two equal column names.
pub open spec fn has_dup_names(hdrs: Seq<Seq<char>>) -> bool {
    exists|a: int, b: int| 0 <= a < b < hdrs.len()
        && dedup_name(hdrs, a) == dedup_name(hdrs, b)
}

/// True where every data row has the header row's width.
pub open spec fn grid_rect(g: Seq<Seq<Option<Seq<char>>>>) -> bool {
    forall|r: int| 1 <= r < g.len() ==> (#[trigger] g[r]).len() == g[0].len()
}

/// Counts the earlier header cells with the given text.
fn count_eq_before_exec(raws: &Vec<String>, i: usize) -> (r: usize)
    requires
        i < raws@.len(),
    ensures
        r as nat == count_eq_before(raws.deep_view(), raws.deep_view()[i as int], i as int),
{
    let mut c: usize = 0;
    let mut j: usize = 0;
    while j < i
        invariant
            j <= i,
            i < raws@.len(),
            c <= j,
            c as nat == count_eq_before(raws.deep_view(), raws.deep_view()[i as int], j as int),
        decreases i - j,
    {
        if str_eq_exec(raws[j].as_str(), raws[i].as_str()) {
            c = c + 1;
        }
        j = j + 1;
    }
    c
}

/// Builds a table from one sheet's grid. The first row supplies the
/// column names, repeats disambiguated by an occurrence suffix; the
/// remaining rows fill the columns. Refused: a grid with no rows, one
/// whose rows differ in width, and one whose names still collide.
pub fn build_table(grid: &Vec<Vec<Option<String>>>) -> (r: Result<Table, Error>)
    ensures
        match r {
            Ok(t) => {
                let g = grid.deep_view();
                &&& g.len() > 0
                &&& grid_rect(g)
                &&& !has_dup_names(headers_of(g))
                &&& t.wf()
                &&& t.names@.len() == g[0].len()
                &&& forall|i: int| 0 <= i < t.names@.len()
                    ==> t.names.deep_view()[i] == dedup_name(headers_of(g), i)
                &&& g[0].len() > 0 ==> t.height() == g.len() - 1
                &&& forall|i: int, k: int|
                    #![trigger t.cols@[i].deep_view()[k]]
                    0 <= i < g[0].len() && 0 <= k < g.len() - 1
                    ==> t.cols@[i].deep_view()[k] == g[k + 1][i]
            },
            Err(e) => {
                let g = grid.deep_view();
                &&& (g.len() == 0 || !grid_rect(g) || has_dup_names(headers_of(g)))
                &&& (e is Empty <==> g.len() == 0)
                &&& (e is Column <==> g.len() > 0)
            },
        },
{
    let nrows = grid.len();
    if nrows == 0 {
        return Err(Error::Empty(String::from_str("sheet has no rows")));
    }
    let w = grid[0].len();
    let mut r: usize = 1;
    while r < nrows
        invariant
            1 <= r <= nrows,
            nrows == grid@.len(),
            w == grid@[0]@.len(),
            forall|k: int| 1 <= k < r ==> (#[trigger] grid@[k])@.len() == w,
        decreases nrows - r,
    {
        if grid[r].len() != w {
            proof {
                assert(grid.deep_view()[r as int].len() != grid.deep_view()[0].len());
                assert(!grid_rect(grid.deep_view()));
            }
            return Err(Error::Column(String::from_str("rows differ in width")));
        }
        r = r + 1;
    }
    let ghost g = grid.deep_view();
    proof {
        assert forall|k: int| 1 <= k < g.len() implies (#[trigger] g[k]).len() == g[0].len() by {
            assert(grid@[k]@.len() == w);
        }
    }
    // Raw header texts of the first row.
    let ghost hdrs = headers_of(g);
    let mut raws: Vec<String> = Vec::new();
    let mut i: usize = 0;
    while i < w
        invariant
            i <= w,
            grid@.len() >= 1,
            w == grid@[0]@.len(),
            g == grid.deep_view(),
            hdrs == headers_of(g),
            raws@.len() == i,
            forall|j: int| 0 <= j < i ==> raws.deep_view()[j] == hdrs[j],
        decreases w - i,
    {
        let raw = match &grid[0][i] {
            Some(s) => s.clone(),
            None => String::new(),
        };
        raws.push(raw);
        i = i + 1;
    }
    proof {
        assert(raws.deep_view() =~= hdrs);
    }
    // Deduplicated column names, refused on a residual collision.
    let mut names: Vec<String> = Vec::new();
    let mut i: usize = 0;
    while i < w
        invariant
            i <= w,
            grid@.len() >= 1,
            w == grid@[0]@.len(),
            g == grid.deep_view(),
            hdrs == headers_of(g),
            hdrs.len() == w,
            raws.deep_view() == hdrs,
            raws@.len() == w,
            names@.len() == i,
            forall|j: int| 0 <= j < i ==> names.deep_view()[j] == dedup_name(hdrs, j),
            forall|a: int, b: int| 0 <= a < b < i
                ==> dedup_name(hdrs, a) != dedup_name(hdrs, b),
        decreases w - i,
    {
        let c = count_eq_before_exec(&raws, i);
        let nm: String = if c == 0 {
            raws[i].clone()
        } else {
            let mut nm = raws[i].clone();
            proof {
                reveal_strlit("_duplicated_");
                assert("_duplicated_"@ =~= dedup_lit());
            }
            nm.append("_duplicated_");
            let suffix = u128_to_dec(c as u128);
            nm.append(suffix.as_str());
            nm
        };
        let mut j: usize = 0;
        while j < i
            invariant
                j <= i,
                i < w,
                grid@.len() >= 1,
                g == grid.deep_view(),
                names@.len() == i,
                hdrs == headers_of(g),
                hdrs.len() == w,
                nm@ == dedup_name(hdrs, i as int),
                forall|k: int| 0 <= k < i ==> names.deep_view()[k] == dedup_name(hdrs, k),
                forall|k: int| 0 <= k < j ==> dedup_name(hdrs, k) != dedup_name(hdrs, i as int),
            decreases i - j,
        {
            if str_eq_exec(names[j].as_str(), nm.as_str()) {
                proof {
                    assert(names.deep_view()[j as int] == names@[j as int]@);
                    assert(dedup_name(hdrs, j as int) == dedup_name(hdrs, i as int));
                    assert(0 <= (j as int) && (j as int) < (i as int) && (i as int) < hdrs.len());
                    assert(has_dup_names(hdrs));
                    assert(g.len() >= 1);
                }
                return Err(Error::Column(String::from_str("duplicate column name")));
            }
            j = j + 1;
        }
        names.push(nm);
        i = i + 1;
    }
    // Column bodies.
    let mut cols: Vec<Vec<Option<String>>> = Vec::new();
    let mut i: usize = 0;
    while i < w
        invariant
            i <= w,
            w == grid@[0]@.len(),
            nrows == grid@.len(),
            nrows >= 1,
            g == grid.deep_view(),
            grid_rect(g),
            cols@.len() == i,
            forall|j: int| 0 <= j < i ==> (#[trigger] cols@[j])@.len() == nrows - 1,
            forall|j: int, k: int|
                #![trigger cols@[j].deep_view()[k]]
                0 <= j < i && 0 <= k < nrows - 1
                ==> cols@[j].deep_view()[k] == g[k + 1][j],
        decreases w - i,
    {
        let mut col: Vec<Option<String>> = Vec::new();
        let mut k: usize = 1;
        while k < nrows
            invariant
                1 <= k <= nrows,
                i < w,
                w == grid@[0]@.len(),
                nrows == grid@.len(),
                g == grid.deep_view(),
                grid_rect(g),
                col@.len() == k - 1,
                forall|m: int| 0 <= m < k - 1 ==> col.deep_view()[m] == g[m + 1][i as int],
            decreases nrows - k,
        {
            proof {
                assert(g[k as int].len() == g[0].len());
                assert(grid@[k as int]@.len() == w);
            }
            let cell = match &grid[k][i] {
                Some(s) => Some(s.clone()),
                None => None,
            };
            proof {
                assert(cell.deep_view() == g[k as int][i as int]);
            }
            let ghost prevv = col@;
            let ghost prevd = col.deep_view();
            col.push(cell);
            k = k + 1;
            proof {
                assert(col@ == prevv.push(cell));
                assert forall|m: int| 0 <= m < k - 1
                    implies col.deep_view()[m] == g[m + 1][i as int] by {
                    if m < prevv.len() {
                        assert(col@[m] == prevv[m]);
                        assert(prevd[m] == g[m + 1][i as int]);
                    } else {
                        assert(m == prevv.len());
                        assert(col.deep_view()[m] == cell.deep_view());
                    }
                }
            }
        }
        let ghost prevc = cols@;
        cols.push(col);
        i = i + 1;
        proof {
            assert(cols@ == prevc.push(col));
            assert forall|j: int, m: int|
                #![trigger cols@[j].deep_view()[m]]
                0 <= j < i && 0 <= m < nrows - 1
                implies cols@[j].deep_view()[m] == g[m + 1][j] by {
                if j < i - 1 {
                    assert(cols@[j] == prevc[j]);
                    assert(prevc[j].deep_view()[m] == g[m + 1][j]);
                } else {
                    assert(cols@[j] == col);
                }
            }
        }
    }
    let t = Table { names, cols };
    proof {
        if t.cols@.len() > 0 {
            assert(t.height() == nrows - 1);
        }
        assert forall|a: int, b: int| 0 <= a < b < t.names@.len()
            implies (#[trigger] t.names@[a])@ != (#[trigger] t.names@[b])@ by {
            assert(t.names.deep_view()[a] == t.names@[a]@);
            assert(t.names.deep_view()[b] == t.names@[b]@);
            assert(t.names.deep_view()[a] == dedup_name(hdrs, a));
            assert(t.names.deep_view()[b] == dedup_name(hdrs, b));
        }
    }
    Ok(t)
}

} // verus!
