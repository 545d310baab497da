use register_excel_parser::engine::parse_register;
use register_excel_parser::error::Error;
use register_excel_parser::table::build_table;

fn cell(s: &str) -> Option<String> {
    Some(s.to_string())
}

fn header() -> Vec<Option<String>> {
    vec![
        cell("ADDR"),
        cell("REG"),
        cell("FIELD"),
        cell("BIT"),
        cell("WIDTH"),
        cell("ATTRIBUTE"),
        cell("DEFAULT"),
        cell("DESCRIPTION"),
    ]
}

#[test]
fn widths_sum_per_address_group() {
    let grid = vec![
        header(),
        vec![cell("0x0"), cell("R1"), cell("F1"), cell("0"), cell("1"), cell("RW"), cell("0"), cell("d")],
        vec![None, None, cell("F2"), cell("1"), cell("2"), cell("RW"), cell("0"), cell("d")],
    ];
    let t = build_table(&grid).unwrap();
    let rows = parse_register(&t).unwrap();
    assert_eq!(rows.len(), 1);
    assert_eq!(rows[0].reg, "R1");
    assert_eq!(rows[0].reg_width, "3");
    assert_eq!(rows[0].addr, cell("0x0"));
    assert_eq!(rows[0].field, vec![cell("F1"), cell("F2")]);
}

#[test]
fn zero_byte_width_keeps_expanded_addresses_at_the_base() {
    // The group's width sum is 3 bits, so the byte stride is zero and
    // every member of the family shares the base address.
    let grid = vec![
        header(),
        vec![cell("0x10"), cell("B{n}, n=range(0,2)"), cell("F1"), cell("0"), cell("1"), cell("RW"), cell("0"), cell("d")],
        vec![None, None, cell("F2"), cell("2:1"), cell("2"), cell("RW"), cell("0"), cell("d")],
    ];
    let t = build_table(&grid).unwrap();
    let rows = parse_register(&t).unwrap();
    assert_eq!(rows.len(), 2);
    assert_eq!(rows[0].reg, "B_0");
    assert_eq!(rows[1].reg, "B_1");
    assert_eq!(rows[0].addr, cell("0x10"));
    assert_eq!(rows[1].addr, cell("0x10"));
}

#[test]
fn non_expandable_row_survives_with_one_field() {
    let grid = vec![
        header(),
        vec![cell("0x4"), cell("CTRL"), cell("EN"), cell("0"), cell("1"), cell("RW"), cell("0"), cell("d")],
    ];
    let t = build_table(&grid).unwrap();
    let rows = parse_register(&t).unwrap();
    assert_eq!(rows.len(), 1);
    assert_eq!(rows[0].reg, "CTRL");
    assert_eq!(rows[0].field, vec![cell("EN")]);
    assert_eq!(rows[0].addr, cell("0x4"));
}

#[test]
fn template_expands_into_named_and_addressed_registers() {
    let grid = vec![
        header(),
        vec![cell("0x100"), cell("BUF{n}, n=range(0,3)"), cell("F0"), cell("15:0"), cell("16"), cell("RW"), cell("0"), cell("d")],
        vec![None, None, cell("F1"), cell("31:16"), cell("16"), cell("RW"), cell("0"), cell("d")],
    ];
    let t = build_table(&grid).unwrap();
    let rows = parse_register(&t).unwrap();
    assert_eq!(rows.len(), 3);
    assert_eq!(rows[0].reg, "BUF_0");
    assert_eq!(rows[1].reg, "BUF_1");
    assert_eq!(rows[2].reg, "BUF_2");
    assert_eq!(rows[0].addr, cell("0x100"));
    assert_eq!(rows[1].addr, cell("0x104"));
    assert_eq!(rows[2].addr, cell("0x108"));
    assert_eq!(rows[0].reg_width, "32");
    // Both field rows fold into each concrete register, low bits first.
    assert_eq!(rows[0].field, vec![cell("F0"), cell("F1")]);
    assert_eq!(rows[0].bit_offset, vec![cell("0"), cell("16")]);
}

#[test]
fn rows_without_a_field_are_dropped() {
    let grid = vec![
        header(),
        vec![cell("0x0"), cell("R1"), None, None, cell("1"), cell("RW"), cell("0"), cell("d")],
    ];
    let t = build_table(&grid).unwrap();
    let rows = parse_register(&t).unwrap();
    assert_eq!(rows.len(), 0);
}

#[test]
fn expandable_row_with_malformed_series_is_dropped() {
    let grid = vec![
        header(),
        vec![cell("0x0"), cell("R{n}"), cell("F"), cell("0"), cell("1"), cell("RW"), cell("0"), cell("d")],
    ];
    let t = build_table(&grid).unwrap();
    let rows = parse_register(&t).unwrap();
    assert_eq!(rows.len(), 0);
}

#[test]
fn missing_column_is_refused() {
    let grid = vec![
        vec![cell("ADDR"), cell("REG")],
        vec![cell("0x0"), cell("R1")],
    ];
    let t = build_table(&grid).unwrap();
    let err = parse_register(&t).unwrap_err();
    assert!(matches!(err, Error::Column(_)));
}

#[test]
fn unreadable_width_is_refused() {
    let grid = vec![
        header(),
        vec![cell("0x0"), cell("R1"), cell("F"), cell("0"), cell("wide"), cell("RW"), cell("0"), cell("d")],
    ];
    let t = build_table(&grid).unwrap();
    let err = parse_register(&t).unwrap_err();
    assert!(matches!(err, Error::Parse(_)));
}

#[test]
fn the_largest_width_still_sums() {
    let grid = vec![
        header(),
        vec![cell("0x0"), cell("R"), cell("F"), cell("0"), cell("4294967295"), cell("RW"), cell("0"), cell("d")],
        vec![None, None, cell("G"), cell("1"), cell("4294967295"), cell("RW"), cell("0"), cell("d")],
    ];
    let t = build_table(&grid).unwrap();
    let rows = parse_register(&t).unwrap();
    assert_eq!(rows[0].reg_width, "8589934590");
}

#[test]
fn absent_description_becomes_the_default_text() {
    let grid = vec![
        header(),
        vec![cell("0x0"), cell("R1"), cell("F"), cell("0"), cell("1"), cell("RW"), cell("0"), None],
    ];
    let t = build_table(&grid).unwrap();
    let rows = parse_register(&t).unwrap();
    assert_eq!(rows[0].description, vec![cell("No Description")]);
}

#[test]
fn series_arguments_take_spaces_and_tabs() {
    let grid = vec![
        header(),
        vec![cell("0x0"), cell("P{n}, n = range( 0 , 2 )"), cell("F"), cell("0"), cell("8"), cell("RW"), cell("0"), cell("d")],
    ];
    let t = build_table(&grid).unwrap();
    let rows = parse_register(&t).unwrap();
    assert_eq!(rows.len(), 2);
    assert_eq!(rows[0].reg, "P_0");
    assert_eq!(rows[1].reg, "P_1");
}

#[test]
fn series_on_a_plain_name_replicates_its_fields() {
    // A register whose name carries a range expression but no "{n}" is
    // not expandable, yet the explode still replicates its row once per
    // series value before the re-group gathers them again.
    let grid = vec![
        header(),
        vec![cell("0x0"), cell("CTRL n=range(0,2)"), cell("F"), cell("0"), cell("1"), cell("RW"), cell("0"), cell("d")],
    ];
    let t = build_table(&grid).unwrap();
    let rows = parse_register(&t).unwrap();
    assert_eq!(rows.len(), 1);
    assert_eq!(rows[0].reg, "CTRL n=range(0,2)");
    assert_eq!(rows[0].field, vec![cell("F"), cell("F")]);
    assert_eq!(rows[0].n_series, vec![Some(0), Some(1)]);
}

#[test]
fn families_sharing_a_base_share_one_rank_order() {
    // Two address groups of one family: the dense rank runs over the
    // family as a whole, ties sharing a rank.
    let grid = vec![
        header(),
        vec![cell("0x0"), cell("A{n}, n=range(0,1)"), cell("F"), cell("0"), cell("8"), cell("RW"), cell("0"), cell("d")],
        vec![cell("0x8"), cell("A{n}, n=range(1,2)"), cell("G"), cell("0"), cell("8"), cell("RW"), cell("0"), cell("d")],
    ];
    let t = build_table(&grid).unwrap();
    let rows = parse_register(&t).unwrap();
    assert_eq!(rows.len(), 2);
    assert_eq!(rows[0].reg, "A_0");
    assert_eq!(rows[1].reg, "A_1");
    assert_eq!(rows[0].addr, cell("0x0"));
    assert_eq!(rows[1].addr, cell("0x9"));
}

#[test]
fn bit_cell_yields_the_low_bit_of_a_range() {
    let grid = vec![
        header(),
        vec![cell("0x0"), cell("R"), cell("F0"), cell("15:8"), cell("8"), cell("RW"), cell("0"), cell("d")],
        vec![None, None, cell("F1"), cell("[3]"), cell("1"), cell("RW"), cell("0"), cell("d")],
        vec![None, None, cell("F2"), cell("none"), cell("1"), cell("RW"), cell("0"), cell("d")],
    ];
    let t = build_table(&grid).unwrap();
    let rows = parse_register(&t).unwrap();
    assert_eq!(rows.len(), 1);
    assert_eq!(rows[0].bit_offset, vec![cell("8"), cell("3"), None]);
}

#[test]
fn stepped_series_expands_with_the_given_stride() {
    let grid = vec![
        header(),
        vec![cell("0x0"), cell("Q{n}, n=range(2,8,3)"), cell("F"), cell("7:0"), cell("8"), cell("RW"), cell("0"), cell("d")],
    ];
    let t = build_table(&grid).unwrap();
    let rows = parse_register(&t).unwrap();
    // Series 2, 5 with one byte per register.
    assert_eq!(rows.len(), 2);
    assert_eq!(rows[0].reg, "Q_0");
    assert_eq!(rows[1].reg, "Q_1");
    assert_eq!(rows[0].addr, cell("0x2"));
    assert_eq!(rows[1].addr, cell("0x5"));
}
