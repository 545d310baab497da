use register_excel_parser::error::Error;
use register_excel_parser::import_from_sheets;
use register_excel_parser::parse_excel_to_import_data;
use register_excel_parser::schema::SheetPool;
use register_excel_parser::table::build_table;

fn cell(s: &str) -> Option<String> {
    Some(s.to_string())
}

fn version_sheet() -> (String, Vec<Vec<Option<String>>>) {
    (
        "VERSION".to_string(),
        vec![
            vec![cell("VENDOR"), cell("LIBRARY"), cell("NAME"), cell("VERSION")],
            vec![cell("Acme"), cell("corelib"), cell("chip"), cell("1.0")],
        ],
    )
}

fn ctrl_sheet(name: &str) -> (String, Vec<Vec<Option<String>>>) {
    (
        name.to_string(),
        vec![
            vec![
                cell("ADDR"),
                cell("REG"),
                cell("FIELD"),
                cell("BIT"),
                cell("WIDTH"),
                cell("ATTRIBUTE"),
                cell("DEFAULT"),
                cell("DESCRIPTION"),
            ],
            vec![
                cell("0x0"),
                cell("STATUS"),
                cell("EN"),
                cell("[0]"),
                cell("1"),
                cell("RW"),
                cell("0"),
                None,
            ],
        ],
    )
}

#[test]
fn whole_workbook_maps_to_one_block_with_one_register() {
    let sheets = vec![
        version_sheet(),
        (
            "ADDRESS_MAP".to_string(),
            vec![
                vec![cell("BLOCK"), cell("OFFSET"), cell("RANGE")],
                vec![cell("CTRL"), cell("0"), cell("0x100")],
            ],
        ),
        ctrl_sheet("CTRL"),
    ];
    let d = import_from_sheets(sheets).unwrap();
    assert_eq!(d.project.name, "chip");
    assert_eq!(d.project.vendor, "Acme");
    assert_eq!(d.project.library, "corelib");
    assert_eq!(d.project.version, "1.0");
    assert_eq!(d.memory_maps.len(), 1);
    assert_eq!(d.memory_maps[0].name, "default_map");
    let blocks = &d.memory_maps[0].address_blocks;
    assert_eq!(blocks.len(), 1);
    assert_eq!(blocks[0].name, "CTRL");
    assert_eq!(blocks[0].base_address, "0x0");
    assert_eq!(blocks[0].range, "0x100");
    assert_eq!(blocks[0].width, 32);
    assert_eq!(blocks[0].registers.len(), 1);
    let reg = &blocks[0].registers[0];
    assert_eq!(reg.name, "STATUS");
    assert_eq!(reg.address_offset, "0x0");
    assert_eq!(reg.size, 1);
    assert_eq!(reg.fields.len(), 1);
    let f = &reg.fields[0];
    assert_eq!(f.name, "EN");
    assert_eq!(f.bit_offset, 0);
    assert_eq!(f.bit_width, 1);
    assert_eq!(f.access, "read-write");
    assert_eq!(f.reset_value, "0");
    assert_eq!(f.description.as_deref(), Some("No Description"));
}

#[test]
fn second_reference_to_one_sheet_is_not_found() {
    let sheets = vec![
        version_sheet(),
        (
            "ADDRESS_MAP".to_string(),
            vec![
                vec![cell("BLOCK"), cell("OFFSET"), cell("RANGE")],
                vec![cell("CTRL"), cell("0"), cell("0x100")],
                vec![cell("CTRL"), cell("0x200"), cell("0x100")],
            ],
        ),
        ctrl_sheet("CTRL"),
    ];
    let err = import_from_sheets(sheets).unwrap_err();
    assert!(matches!(err, Error::NotFound(_)));
}

#[test]
fn sheet_names_match_after_trim_and_case_fold() {
    let sheets = vec![
        version_sheet(),
        (
            "ADDRESS_MAP".to_string(),
            vec![
                vec![cell("BLOCK"), cell("OFFSET"), cell("RANGE")],
                vec![cell("ctrl"), cell("0"), cell("0x100")],
            ],
        ),
        ctrl_sheet(" Ctrl "),
    ];
    let d = import_from_sheets(sheets).unwrap();
    assert_eq!(d.memory_maps[0].address_blocks[0].name, "ctrl");
}

#[test]
fn missing_version_sheet_is_not_found() {
    let sheets = vec![ctrl_sheet("CTRL")];
    let err = import_from_sheets(sheets).unwrap_err();
    assert!(matches!(err, Error::NotFound(_)));
}

#[test]
fn blank_version_defaults() {
    let sheets = vec![
        (
            "VERSION".to_string(),
            vec![
                vec![cell("VENDOR"), cell("LIBRARY"), cell("NAME"), cell("VERSION")],
                vec![cell("Acme"), cell("corelib"), cell("chip"), cell(" \u{00A0} ")],
            ],
        ),
        (
            "ADDRESS_MAP".to_string(),
            vec![vec![cell("BLOCK"), cell("OFFSET"), cell("RANGE")]],
        ),
    ];
    let d = import_from_sheets(sheets).unwrap();
    assert_eq!(d.project.version, "0.1.0");
    assert_eq!(d.memory_maps[0].address_blocks.len(), 0);
}

#[test]
fn missing_version_column_is_reported() {
    let sheets = vec![
        (
            "VERSION".to_string(),
            vec![
                vec![cell("VENDOR"), cell("LIBRARY"), cell("NAME")],
                vec![cell("Acme"), cell("corelib"), cell("chip")],
            ],
        ),
    ];
    let err = import_from_sheets(sheets).unwrap_err();
    assert!(matches!(err, Error::Column(_)));
}

#[test]
fn empty_version_cell_is_missing_data() {
    let sheets = vec![
        (
            "VERSION".to_string(),
            vec![
                vec![cell("VENDOR"), cell("LIBRARY"), cell("NAME"), cell("VERSION")],
                vec![cell("Acme"), None, cell("chip"), cell("1.0")],
            ],
        ),
    ];
    let err = import_from_sheets(sheets).unwrap_err();
    assert!(matches!(err, Error::NoData(_)));
}

#[test]
fn a_later_sheet_with_the_same_name_replaces_the_earlier_one() {
    let grid_a = vec![vec![cell("A")], vec![cell("1")]];
    let grid_b = vec![vec![cell("B")], vec![cell("2")]];
    let mut pool = SheetPool::new();
    pool.insert("S".to_string(), build_table(&grid_a).unwrap());
    pool.insert(" s ".to_string(), build_table(&grid_b).unwrap());
    let t = pool.take("S").unwrap();
    assert_eq!(t.names[0], "B");
    assert!(pool.take("S").is_err());
}

#[test]
fn pool_take_consumes_the_entry() {
    let grid = vec![vec![cell("A")], vec![cell("1")]];
    let t = build_table(&grid).unwrap();
    let mut pool = SheetPool::new();
    pool.insert("Sheet1".to_string(), t);
    assert!(pool.take("sheet1").is_ok());
    let err = pool.take("sheet1").unwrap_err();
    assert!(matches!(err, Error::NotFound(_)));
}

#[test]
fn undecodable_workbook_bytes_are_a_decode_error() {
    let err = parse_excel_to_import_data(b"this is not a workbook").unwrap_err();
    assert!(matches!(err, Error::Decode(_)));
}
