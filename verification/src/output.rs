//! The output normalizer: hex normalization, canonical access strings,
//! and the mapping from the internal component tree to the external
//! hierarchical schema.

use vstd::prelude::*;
use vstd::string::*;

use crate::schema::{Component, SpecComponent, SpecBlock, SpecRegister, SpecField};
use crate::text::{
    dec_u64_ok, dec_u64_value, dec_u32_plus_ok, dec_u32_plus_value, hex_render, parse_u64_dec,
    parse_u32_plus, trim_left, trim_str, trimmed, u128_to_hex, str_ieq, str_ieq_exec,
};

verus! {

/// True of trimmed text that already carries a hex prefix.
pub open spec fn has_hex_prefix(t: Seq<char>) -> bool {
    t.len() >= 2 && t[0] == '0' && (t[1] == 'x' || t[1] == 'X')
}

/// What `ensure_hex` yields: the trimmed text unchanged where it
/// already starts with a hex prefix; else, where it reads as a decimal
/// number, that number as "0x" and upper-case hex digits; else the
/// trimmed text unchanged.
pub open spec fn ensure_hex_spec(s: Seq<char>) -> Seq<char> {
    let t = trimmed(s, false);
    if has_hex_prefix(t) {
        t
    } else if dec_u64_ok(t) {
        seq!['0', 'x'] + hex_render(dec_u64_value(t))
    } else {
        t
    }
}

/// Normalizes address text to hexadecimal, best effort.
pub fn ensure_hex(s: String) -> (r: String)
    ensures
        r@ == ensure_hex_spec(s@),
{
    let t = trim_str(s.as_str(), false);
    let n = t.as_str().unicode_len();
    let prefixed = if n >= 2 {
        let c0 = t.as_str().get_char(0);
        let c1 = t.as_str().get_char(1);
        c0 == '0' && (c1 == 'x' || c1 == 'X')
    } else {
        false
    };
    if prefixed {
        return t;
    }
    match parse_u64_dec(t.as_str()) {
        Some(v) => {
            proof {
                reveal_strlit("0x");
            }
            let mut out = String::from_str("0x");
            proof {
                assert(out@ =~= seq!['0', 'x']);
            }
            let hexs = u128_to_hex(v as u128);
            out.append(hexs.as_str());
            out
        },
        None => t,
    }
}

/// Normalizing twice changes nothing beyond the first pass.
///
/// A prefixed result keeps its prefix; a rendered number starts with
/// "0x"; a passthrough is already trimmed and still fails to parse.
pub proof fn lemma_ensure_hex_idempotent(s: Seq<char>)
    ensures
        ensure_hex_spec(ensure_hex_spec(s)) == ensure_hex_spec(s),
{
    let r = ensure_hex_spec(s);
    let t = trimmed(s, false);
    lemma_trimmed_of_trimmed(s);
    if has_hex_prefix(t) {
        assert(trimmed(r, false) == r);
        assert(has_hex_prefix(r));
    } else if dec_u64_ok(t) {
        let h = seq!['0', 'x'] + hex_render(dec_u64_value(t));
        lemma_hex_render_no_space(dec_u64_value(t));
        lemma_trim_of_clean(h);
        assert(trimmed(r, false) == r);
        assert(has_hex_prefix(r));
    } else {
        assert(trimmed(r, false) == r);
    }
}

/// The trim of trimmed text is itself: its edges hold no blank space,
/// so another trim finds nothing to remove.
proof fn lemma_trimmed_of_trimmed(s: Seq<char>)
    ensures
        trimmed(trimmed(s, false), false) == trimmed(s, false),
{
    let u = trim_left(s, false);
    let t = crate::text::trim_right(u, false);
    lemma_trim_left_head(s);
    lemma_trim_right_last(u);
    lemma_trim_right_head(u);
    if t.len() > 0 {
        assert(!crate::text::is_trim_char(t[0], false));
        assert(trim_left(t, false) == t);
        assert(!crate::text::is_trim_char(t.last(), false));
        assert(crate::text::trim_right(t, false) == t);
    } else {
        assert(trim_left(t, false) == t);
        assert(crate::text::trim_right(t, false) == t);
    }
}

/// A left trim leaves no blank space in front.
proof fn lemma_trim_left_head(s: Seq<char>)
    ensures
        trim_left(s, false).len() > 0
            ==> !crate::text::is_trim_char(trim_left(s, false)[0], false),
    decreases s.len(),
{
    if s.len() > 0 && crate::text::is_trim_char(s[0], false) {
        lemma_trim_left_head(s.drop_first());
    }
}

/// A right trim leaves no blank space at the end.
proof fn lemma_trim_right_last(u: Seq<char>)
    ensures
        crate::text::trim_right(u, false).len() > 0
            ==> !crate::text::is_trim_char(crate::text::trim_right(u, false).last(), false),
    decreases u.len(),
{
    if u.len() > 0 && crate::text::is_trim_char(u.last(), false) {
        lemma_trim_right_last(u.drop_last());
    }
}

/// A right trim keeps the front character where anything is left.
proof fn lemma_trim_right_head(u: Seq<char>)
    ensures
        crate::text::trim_right(u, false).len() > 0
            ==> u.len() > 0 && crate::text::trim_right(u, false)[0] == u[0],
    decreases u.len(),
{
    if u.len() > 0 && crate::text::is_trim_char(u.last(), false) {
        lemma_trim_right_head(u.drop_last());
    }
}

/// Rendered hex digits hold no blank space.
proof fn lemma_hex_render_no_space(n: nat)
    ensures
        forall|i: int| 0 <= i < hex_render(n).len()
            ==> !crate::text::is_trim_char(#[trigger] hex_render(n)[i], false),
        hex_render(n).len() > 0,
    decreases n,
{
    if n >= 16 {
        lemma_hex_render_no_space(n / 16);
        assert forall|i: int| 0 <= i < hex_render(n).len()
            implies !crate::text::is_trim_char(#[trigger] hex_render(n)[i], false) by {
            if i < hex_render(n / 16).len() {
                assert(hex_render(n)[i] == hex_render(n / 16)[i]);
            }
        }
    }
}

/// Text that starts with '0' and holds no blank space is its own trim.
proof fn lemma_trim_of_clean(h: Seq<char>)
    requires
        forall|i: int| 0 <= i < h.len() ==> !crate::text::is_trim_char(#[trigger] h[i], false),
        h.len() > 0,
    ensures
        trimmed(h, false) == h,
{
    assert(crate::text::trim_left(h, false) == h);
    lemma_no_space_right(h);
}

proof fn lemma_no_space_right(h: Seq<char>)
    requires
        forall|i: int| 0 <= i < h.len() ==> !crate::text::is_trim_char(#[trigger] h[i], false),
    ensures
        crate::text::trim_right(h, false) == h,
    decreases h.len(),
{
    if h.len() > 0 && crate::text::is_trim_char(h.last(), false) {
        assert(false);
    }
}

/// The canonical access strings.
pub open spec fn read_write_lit() -> Seq<char> {
    seq!['r', 'e', 'a', 'd', '-', 'w', 'r', 'i', 't', 'e']
}

pub open spec fn read_only_lit() -> Seq<char> {
    seq!['r', 'e', 'a', 'd', '-', 'o', 'n', 'l', 'y']
}

pub open spec fn write_only_lit() -> Seq<char> {
    seq!['w', 'r', 'i', 't', 'e', '-', 'o', 'n', 'l', 'y']
}

/// The canonical access string an attribute maps to, compared without
/// regard to letter case: the three named pairs, and "read-write" as
/// the fallback for every other text. Write-one-to-clear attributes
/// deliberately take the fallback too: the canonical mapping knows
/// only the three access kinds, and anything beyond them defaults.
pub open spec fn access_of(attr: Seq<char>) -> Seq<char> {
    if str_ieq(attr, seq!['R', 'W']) || str_ieq(attr, seq!['R', 'E', 'A', 'D', '-', 'W', 'R', 'I', 'T', 'E']) {
        read_write_lit()
    } else if str_ieq(attr, seq!['R', 'O']) || str_ieq(attr, seq!['R', 'E', 'A', 'D', '-', 'O', 'N', 'L', 'Y']) {
        read_only_lit()
    } else if str_ieq(attr, seq!['W', 'O']) || str_ieq(attr, seq!['W', 'R', 'I', 'T', 'E', '-', 'O', 'N', 'L', 'Y']) {
        write_only_lit()
    } else {
        read_write_lit()
    }
}

/// Maps an attribute to its canonical access string.
pub fn access_exec(attr: &str) -> (r: String)
    ensures
        r@ == access_of(attr@),
{
    proof {
        reveal_strlit("RW");
        reveal_strlit("READ-WRITE");
        reveal_strlit("RO");
        reveal_strlit("READ-ONLY");
        reveal_strlit("WO");
        reveal_strlit("WRITE-ONLY");
        reveal_strlit("read-write");
        reveal_strlit("read-only");
        reveal_strlit("write-only");
        assert("RW"@ =~= seq!['R', 'W']);
        assert("READ-WRITE"@ =~= seq!['R', 'E', 'A', 'D', '-', 'W', 'R', 'I', 'T', 'E']);
        assert("RO"@ =~= seq!['R', 'O']);
        assert("READ-ONLY"@ =~= seq!['R', 'E', 'A', 'D', '-', 'O', 'N', 'L', 'Y']);
        assert("WO"@ =~= seq!['W', 'O']);
        assert("WRITE-ONLY"@ =~= seq!['W', 'R', 'I', 'T', 'E', '-', 'O', 'N', 'L', 'Y']);
        assert("read-write"@ =~= read_write_lit());
        assert("read-only"@ =~= read_only_lit());
        assert("write-only"@ =~= write_only_lit());
    }
    if str_ieq_exec(attr, "RW") || str_ieq_exec(attr, "READ-WRITE") {
        String::from_str("read-write")
    } else if str_ieq_exec(attr, "RO") || str_ieq_exec(attr, "READ-ONLY") {
        String::from_str("read-only")
    } else if str_ieq_exec(attr, "WO") || str_ieq_exec(attr, "WRITE-ONLY") {
        String::from_str("write-only")
    } else {
        String::from_str("read-write")
    }
}

/// A number parsed from text with a fallback for anything unreadable,
/// read as Rust's unsigned parsing reads it: one leading plus allowed.
pub open spec fn parse_or(s: Seq<char>, fallback: u32) -> u32 {
    if dec_u32_plus_ok(s) {
        dec_u32_plus_value(s) as u32
    } else {
        fallback
    }
}

/// Parses text as a number, falling back where it does not read as one.
pub fn parse_or_exec(s: &str, fallback: u32) -> (r: u32)
    ensures
        r == parse_or(s@, fallback),
{
    match parse_u32_plus(s) {
        Some(v) => v,
        None => fallback,
    }
}

/// One field of the external schema.
#[derive(Debug)]
pub struct ImportField {
    pub name: String,
    pub description: Option<String>,
    pub bit_offset: u32,
    pub bit_width: u32,
    pub access: String,
    pub reset_value: String,
}

pub ghost struct SpecImportField {
    pub name: Seq<char>,
    pub description: Option<Seq<char>>,
    pub bit_offset: u32,
    pub bit_width: u32,
    pub access: Seq<char>,
    pub reset_value: Seq<char>,
}

impl View for ImportField {
    type V = SpecImportField;

    open spec fn view(&self) -> SpecImportField {
        SpecImportField {
            name: self.name@,
            description: self.description.deep_view(),
            bit_offset: self.bit_offset,
            bit_width: self.bit_width,
            access: self.access@,
            reset_value: self.reset_value@,
        }
    }
}

impl DeepView for ImportField {
    type V = SpecImportField;

    open spec fn deep_view(&self) -> SpecImportField {
        self.view()
    }
}

/// One register of the external schema.
#[derive(Debug)]
pub struct ImportRegister {
    pub name: String,
    pub address_offset: String,
    pub size: u32,
    pub description: Option<String>,
    pub fields: Vec<ImportField>,
}

pub ghost struct SpecImportRegister {
    pub name: Seq<char>,
    pub address_offset: Seq<char>,
    pub size: u32,
    pub description: Option<Seq<char>>,
    pub fields: Seq<SpecImportField>,
}

impl View for ImportRegister {
    type V = SpecImportRegister;

    open spec fn view(&self) -> SpecImportRegister {
        SpecImportRegister {
            name: self.name@,
            address_offset: self.address_offset@,
            size: self.size,
            description: self.description.deep_view(),
            fields: self.fields.deep_view(),
        }
    }
}

impl DeepView for ImportRegister {
    type V = SpecImportRegister;

    open spec fn deep_view(&self) -> SpecImportRegister {
        self.view()
    }
}

/// One address block of the external schema.
#[derive(Debug)]
pub struct ImportAddressBlock {
    pub name: String,
    pub base_address: String,
    pub range: String,
    pub width: u32,
    pub registers: Vec<ImportRegister>,
}

pub ghost struct SpecImportAddressBlock {
    pub name: Seq<char>,
    pub base_address: Seq<char>,
    pub range: Seq<char>,
    pub width: u32,
    pub registers: Seq<SpecImportRegister>,
}

impl View for ImportAddressBlock {
    type V = SpecImportAddressBlock;

    open spec fn view(&self) -> SpecImportAddressBlock {
        SpecImportAddressBlock {
            name: self.name@,
            base_address: self.base_address@,
            range: self.range@,
            width: self.width,
            registers: self.registers.deep_view(),
        }
    }
}

impl DeepView for ImportAddressBlock {
    type V = SpecImportAddressBlock;

    open spec fn deep_view(&self) -> SpecImportAddressBlock {
        self.view()
    }
}

/// One memory map of the external schema.
#[derive(Debug)]
pub struct ImportMemoryMap {
    pub name: String,
    pub address_blocks: Vec<ImportAddressBlock>,
}

pub ghost struct SpecImportMemoryMap {
    pub name: Seq<char>,
    pub address_blocks: Seq<SpecImportAddressBlock>,
}

impl View for ImportMemoryMap {
    type V = SpecImportMemoryMap;

    open spec fn view(&self) -> SpecImportMemoryMap {
        SpecImportMemoryMap {
            name: self.name@,
            address_blocks: self.address_blocks.deep_view(),
        }
    }
}

impl DeepView for ImportMemoryMap {
    type V = SpecImportMemoryMap;

    open spec fn deep_view(&self) -> SpecImportMemoryMap {
        self.view()
    }
}

/// The project header of the external schema.
#[derive(Debug)]
pub struct ImportProject {
    pub name: String,
    pub description: Option<String>,
    pub vendor: String,
    pub library: String,
    pub version: String,
}

pub ghost struct SpecImportProject {
    pub name: Seq<char>,
    pub description: Option<Seq<char>>,
    pub vendor: Seq<char>,
    pub library: Seq<char>,
    pub version: Seq<char>,
}

impl View for ImportProject {
    type V = SpecImportProject;

    open spec fn view(&self) -> SpecImportProject {
        SpecImportProject {
            name: self.name@,
            description: self.description.deep_view(),
            vendor: self.vendor@,
            library: self.library@,
            version: self.version@,
        }
    }
}

/// The whole external schema: the project and its memory maps.
#[derive(Debug)]
pub struct ImportData {
    pub project: ImportProject,
    pub memory_maps: Vec<ImportMemoryMap>,
}

pub ghost struct SpecImportData {
    pub project: SpecImportProject,
    pub memory_maps: Seq<SpecImportMemoryMap>,
}

impl View for ImportData {
    type V = SpecImportData;

    open spec fn view(&self) -> SpecImportData {
        SpecImportData {
            project: self.project.view(),
            memory_maps: self.memory_maps.deep_view(),
        }
    }
}

/// The name of the one memory map that wraps all blocks.
pub open spec fn default_map_lit() -> Seq<char> {
    seq!['d', 'e', 'f', 'a', 'u', 'l', 't', '_', 'm', 'a', 'p']
}

/// The version given to a component that names none.
pub open spec fn default_version_lit() -> Seq<char> {
    seq!['0', '.', '1', '.', '0']
}

/// The external form of one field.
pub open spec fn spec_convert_field(f: SpecField) -> SpecImportField {
    SpecImportField {
        name: f.name,
        description: Some(f.desc),
        bit_offset: parse_or(f.offset, 0),
        bit_width: parse_or(f.width, 1),
        access: access_of(f.attr),
        reset_value: f.reset,
    }
}

/// The external form of one register: its address offset passes
/// through unchanged, already hexadecimal from the engine.
pub open spec fn spec_convert_register(r: SpecRegister) -> SpecImportRegister {
    SpecImportRegister {
        name: r.name,
        address_offset: r.offset,
        size: parse_or(r.size, 32),
        description: None,
        fields: Seq::new(r.fields.len(), |i: int| spec_convert_field(r.fields[i])),
    }
}

/// The external form of one block: its offset and range normalized to
/// hexadecimal text.
pub open spec fn spec_convert_block(b: SpecBlock) -> SpecImportAddressBlock {
    SpecImportAddressBlock {
        name: b.name,
        base_address: ensure_hex_spec(b.offset),
        range: ensure_hex_spec(b.range),
        width: parse_or(b.size, 32),
        registers: Seq::new(b.regs.len(), |i: int| spec_convert_register(b.regs[i])),
    }
}

/// The external form of the whole component: one memory map named
/// "default_map" wraps all blocks, and a blank version becomes "0.1.0".
pub open spec fn spec_convert(c: SpecComponent) -> SpecImportData {
    SpecImportData {
        project: SpecImportProject {
            name: c.name,
            description: None,
            vendor: c.vendor,
            library: c.library,
            version: if trimmed(c.version, false).len() == 0 {
                default_version_lit()
            } else {
                c.version
            },
        },
        memory_maps: seq![SpecImportMemoryMap {
            name: default_map_lit(),
            address_blocks: Seq::new(c.blks.len(), |i: int| spec_convert_block(c.blks[i])),
        }],
    }
}

/// Maps the internal component tree into the external schema.
pub fn convert_component_to_import_data(compo: Component) -> (d: ImportData)
    ensures
        d@ == spec_convert(compo@),
{
    let ghost cm = compo@;
    let mut blocks: Vec<ImportAddressBlock> = Vec::new();
    let nb = compo.blks.len();
    let mut bi: usize = 0;
    while bi < nb
        invariant
            bi <= nb,
            nb == compo.blks@.len(),
            cm == compo@,
            blocks@.len() == bi,
            forall|q: int| 0 <= q < bi
                ==> blocks.deep_view()[q] == spec_convert_block(cm.blks[q]),
        decreases nb - bi,
    {
        let blk = &compo.blks[bi];
        let mut regs: Vec<ImportRegister> = Vec::new();
        let nr = blk.regs.len();
        let mut ri: usize = 0;
        while ri < nr
            invariant
                ri <= nr,
                bi < nb,
                nb == compo.blks@.len(),
                cm == compo@,
                blk == &compo.blks@[bi as int],
                nr == compo.blks@[bi as int].regs@.len(),
                regs@.len() == ri,
                forall|q: int| 0 <= q < ri
                    ==> regs.deep_view()[q]
                        == spec_convert_register(cm.blks[bi as int].regs[q]),
            decreases nr - ri,
        {
            let reg = &blk.regs[ri];
            let mut fields: Vec<ImportField> = Vec::new();
            let nf = reg.fields.len();
            let mut fi: usize = 0;
            while fi < nf
                invariant
                    fi <= nf,
                    ri < nr,
                    bi < nb,
                    nb == compo.blks@.len(),
                    cm == compo@,
                    blk == &compo.blks@[bi as int],
                    nr == compo.blks@[bi as int].regs@.len(),
                    reg == &compo.blks@[bi as int].regs@[ri as int],
                    nf == compo.blks@[bi as int].regs@[ri as int].fields@.len(),
                    fields@.len() == fi,
                    forall|q: int| 0 <= q < fi
                        ==> fields.deep_view()[q]
                            == spec_convert_field(cm.blks[bi as int].regs[ri as int].fields[q]),
                decreases nf - fi,
            {
                let f = &reg.fields[fi];
                let imp = ImportField {
                    name: f.name.clone(),
                    description: Some(f.desc.clone()),
                    bit_offset: parse_or_exec(f.offset.as_str(), 0),
                    bit_width: parse_or_exec(f.width.as_str(), 1),
                    access: access_exec(f.attr.as_str()),
                    reset_value: f.reset.clone(),
                };
                proof {
                    assert(imp@ == spec_convert_field(
                        cm.blks[bi as int].regs[ri as int].fields[fi as int],
                    ));
                }
                let ghost prevf = fields.deep_view();
                fields.push(imp);
                fi = fi + 1;
                proof {
                    assert forall|q: int| 0 <= q < fi
                        implies fields.deep_view()[q] == spec_convert_field(
                            cm.blks[bi as int].regs[ri as int].fields[q],
                        ) by {
                        if q < fi - 1 {
                            assert(fields.deep_view()[q] == prevf[q]);
                        }
                    }
                }
            }
            let impreg = ImportRegister {
                name: reg.name.clone(),
                address_offset: reg.offset.clone(),
                size: parse_or_exec(reg.size.as_str(), 32),
                description: None,
                fields,
            };
            proof {
                assert(impreg@.fields
                    =~= spec_convert_register(cm.blks[bi as int].regs[ri as int]).fields);
                assert(impreg@ == spec_convert_register(cm.blks[bi as int].regs[ri as int]));
            }
            let ghost prevr = regs.deep_view();
            regs.push(impreg);
            ri = ri + 1;
            proof {
                assert forall|q: int| 0 <= q < ri
                    implies regs.deep_view()[q]
                        == spec_convert_register(cm.blks[bi as int].regs[q]) by {
                    if q < ri - 1 {
                        assert(regs.deep_view()[q] == prevr[q]);
                    }
                }
            }
        }
        let impblk = ImportAddressBlock {
            name: blk.name.clone(),
            base_address: ensure_hex(blk.offset.clone()),
            range: ensure_hex(blk.range.clone()),
            width: parse_or_exec(blk.size.as_str(), 32),
            registers: regs,
        };
        proof {
            assert(impblk@.registers =~= spec_convert_block(cm.blks[bi as int]).registers);
            assert(impblk@ == spec_convert_block(cm.blks[bi as int]));
        }
        let ghost prevb = blocks.deep_view();
        blocks.push(impblk);
        bi = bi + 1;
        proof {
            assert forall|q: int| 0 <= q < bi
                implies blocks.deep_view()[q] == spec_convert_block(cm.blks[q]) by {
                if q < bi - 1 {
                    assert(blocks.deep_view()[q] == prevb[q]);
                }
            }
        }
    }
    let trimmed_version = trim_str(compo.version.as_str(), false);
    let version = if trimmed_version.as_str().unicode_len() == 0 {
        proof {
            reveal_strlit("0.1.0");
        }
        let v = String::from_str("0.1.0");
        proof {
            assert(v@ =~= default_version_lit());
        }
        v
    } else {
        compo.version
    };
    proof {
        reveal_strlit("default_map");
    }
    let map_name = String::from_str("default_map");
    proof {
        assert(map_name@ =~= default_map_lit());
    }
    let d = ImportData {
        project: ImportProject {
            name: compo.name,
            description: None,
            vendor: compo.vendor,
            library: compo.library,
            version,
        },
        memory_maps: vec![ImportMemoryMap { name: map_name, address_blocks: blocks }],
    };
    proof {
        assert(d@.memory_maps[0].address_blocks =~= spec_convert(cm).memory_maps[0].address_blocks);
        assert(d@.memory_maps =~= spec_convert(cm).memory_maps);
        assert(d@ == spec_convert(cm));
    }
    d
}

} // verus!
