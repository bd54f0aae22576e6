use sat_sight::catalog::{
    is_decimal_number, parse_id, parse_star_file, read_row, rows_from_records, ColumnLayout,
    Diagnostic, RowFault,
};

const HR_LON_LAT_MAG: ColumnLayout = ColumnLayout { id_col: 0, lon_col: 1, lat_col: 2, mag_col: 3 };

fn fields(texts: &[&str]) -> Vec<String> {
    texts.iter().map(|t| t.to_string()).collect()
}

#[test]
fn catalogue_is_read_row_by_row() {
    let data = b"hr,lon,lat,mag\n1,1.5,-2.25,6.7\n2,350,89.9,-1.46\n";
    let loaded = parse_star_file(data, &HR_LON_LAT_MAG);
    assert!(loaded.skipped.is_empty());
    assert_eq!(loaded.rows.len(), 2);
    assert_eq!(loaded.rows[0].hr, 1);
    assert_eq!(loaded.rows[0].lon, "1.5");
    assert_eq!(loaded.rows[0].lat, "-2.25");
    assert_eq!(loaded.rows[0].mag, "6.7");
    assert_eq!(loaded.rows[1].hr, 2);
    assert_eq!(loaded.rows[1].lon, "350");
    assert_eq!(loaded.rows[1].lat, "89.9");
    assert_eq!(loaded.rows[1].mag, "-1.46");
}

#[test]
fn first_line_is_the_header() {
    let loaded = parse_star_file(b"7,1,2,3\n", &HR_LON_LAT_MAG);
    assert!(loaded.rows.is_empty());
    assert!(loaded.skipped.is_empty());
    let loaded = parse_star_file(b"", &HR_LON_LAT_MAG);
    assert!(loaded.rows.is_empty());
    assert!(loaded.skipped.is_empty());
}

#[test]
fn column_layout_decides_which_axis_is_which() {
    let data = b"hr,a,b,mag\n5,10,20,3\n";
    let lon_first = parse_star_file(data, &HR_LON_LAT_MAG);
    assert_eq!(lon_first.rows[0].lon, "10");
    assert_eq!(lon_first.rows[0].lat, "20");
    let lat_first = ColumnLayout { id_col: 0, lat_col: 1, lon_col: 2, mag_col: 3 };
    let swapped = parse_star_file(data, &lat_first);
    assert_eq!(swapped.rows[0].lat, "10");
    assert_eq!(swapped.rows[0].lon, "20");
}

#[test]
fn columns_may_stand_anywhere() {
    let data = b"name,mag,x,lat,hr,lon\nSirius,-1.46,,-16.7,2491,101.3\n";
    let layout = ColumnLayout { id_col: 4, lon_col: 5, lat_col: 3, mag_col: 1 };
    let loaded = parse_star_file(data, &layout);
    assert!(loaded.skipped.is_empty());
    assert_eq!(loaded.rows[0].hr, 2491);
    assert_eq!(loaded.rows[0].lon, "101.3");
    assert_eq!(loaded.rows[0].lat, "-16.7");
    assert_eq!(loaded.rows[0].mag, "-1.46");
}

#[test]
fn bad_rows_are_skipped_and_noted() {
    let data = b"hr,lon,lat,mag\n\
1,10,20,3\n\
x,10,20,3\n\
3,10,north,3\n\
4,10,20\n\
5,10,20,3\n\
6,,20,3\n\
7,10,20,\n\
8,1e2,-.5,+3.\n";
    let loaded = parse_star_file(data, &HR_LON_LAT_MAG);
    let ids: Vec<u32> = loaded.rows.iter().map(|r| r.hr).collect();
    assert_eq!(ids, vec![1, 5, 8]);
    assert_eq!(
        loaded.skipped,
        vec![
            Diagnostic { row: 1, fault: RowFault::BadId },
            Diagnostic { row: 2, fault: RowFault::BadNumber },
            Diagnostic { row: 3, fault: RowFault::Unreadable },
            Diagnostic { row: 5, fault: RowFault::BadNumber },
            Diagnostic { row: 6, fault: RowFault::BadNumber },
        ]
    );
}

#[test]
fn row_that_is_no_text_is_unreadable() {
    let data = b"hr,lon,lat,mag\n1,10,20,3\n2,\xff\xfe,20,3\n3,10,20,3\n";
    let loaded = parse_star_file(data, &HR_LON_LAT_MAG);
    let ids: Vec<u32> = loaded.rows.iter().map(|r| r.hr).collect();
    assert_eq!(ids, vec![1, 3]);
    assert_eq!(loaded.skipped, vec![Diagnostic { row: 1, fault: RowFault::Unreadable }]);
}

#[test]
fn row_too_short_for_the_layout_misses_a_field() {
    let data = b"hr,lon,lat\n1,10,20\n2,30,40\n";
    let loaded = parse_star_file(data, &HR_LON_LAT_MAG);
    assert!(loaded.rows.is_empty());
    assert_eq!(
        loaded.skipped,
        vec![
            Diagnostic { row: 0, fault: RowFault::MissingField },
            Diagnostic { row: 1, fault: RowFault::MissingField },
        ]
    );
}

#[test]
fn quoted_fields_are_unquoted() {
    let data = b"hr,lon,lat,mag\n\"12\",\"1.5\",\"2\",\"3\"\n";
    let loaded = parse_star_file(data, &HR_LON_LAT_MAG);
    assert_eq!(loaded.rows.len(), 1);
    assert_eq!(loaded.rows[0].hr, 12);
    assert_eq!(loaded.rows[0].lon, "1.5");
}

#[test]
fn space_around_a_number_spoils_it() {
    let data = b"hr,lon,lat,mag\n 1,10,20,3\n2, 10,20,3\n";
    let loaded = parse_star_file(data, &HR_LON_LAT_MAG);
    assert!(loaded.rows.is_empty());
    assert_eq!(
        loaded.skipped,
        vec![
            Diagnostic { row: 0, fault: RowFault::BadId },
            Diagnostic { row: 1, fault: RowFault::BadNumber },
        ]
    );
}

#[test]
fn faults_are_found_in_a_fixed_order() {
    // too short wins over a bad identifier, a bad identifier over a bad number
    assert_eq!(
        read_row(&fields(&["x", "y"]), &HR_LON_LAT_MAG).unwrap_err(),
        RowFault::MissingField
    );
    assert_eq!(
        read_row(&fields(&["x", "y", "1", "1"]), &HR_LON_LAT_MAG).unwrap_err(),
        RowFault::BadId
    );
    assert_eq!(
        read_row(&fields(&["1", "y", "1", "1"]), &HR_LON_LAT_MAG).unwrap_err(),
        RowFault::BadNumber
    );
    let row = read_row(&fields(&["1", "2", "3", "4", "more"]), &HR_LON_LAT_MAG).unwrap();
    assert_eq!((row.hr, row.lon.as_str(), row.lat.as_str(), row.mag.as_str()), (1, "2", "3", "4"));
}

#[test]
fn records_that_could_not_be_read_are_noted() {
    let records = vec![None, Some(fields(&["3", "1", "2", "3"])), None];
    let loaded = rows_from_records(&records, &HR_LON_LAT_MAG);
    assert_eq!(loaded.rows.len(), 1);
    assert_eq!(loaded.rows[0].hr, 3);
    assert_eq!(
        loaded.skipped,
        vec![
            Diagnostic { row: 0, fault: RowFault::Unreadable },
            Diagnostic { row: 2, fault: RowFault::Unreadable },
        ]
    );
}

#[test]
fn identifiers_are_unsigned_whole_numbers() {
    assert_eq!(parse_id("0"), Some(0));
    assert_eq!(parse_id("9110"), Some(9110));
    assert_eq!(parse_id("+17"), Some(17));
    assert_eq!(parse_id("007"), Some(7));
    assert_eq!(parse_id("4294967295"), Some(u32::MAX));
    assert_eq!(parse_id("4294967296"), None);
    assert_eq!(parse_id("99999999999999999999999999"), None);
    assert_eq!(parse_id(""), None);
    assert_eq!(parse_id("+"), None);
    assert_eq!(parse_id("-1"), None);
    assert_eq!(parse_id("-0"), None);
    assert_eq!(parse_id("++1"), None);
    assert_eq!(parse_id("1+"), None);
    assert_eq!(parse_id("12a"), None);
    assert_eq!(parse_id("1.0"), None);
    assert_eq!(parse_id(" 1"), None);
    assert_eq!(parse_id("1 "), None);
    assert_eq!(parse_id("\u{663}"), None);
}

#[test]
fn identifiers_are_read_as_the_machine_reads_them() {
    for text in
        ["0", "12", "+12", "-12", "", "+", "4294967295", "4294967296", "1e3", "0x10", "1_000"]
    {
        assert_eq!(parse_id(text), text.parse::<u32>().ok(), "{:?}", text);
    }
}

#[test]
fn decimal_numbers_are_recognised() {
    for text in [
        "0", "12", "-7.25", "+7.25", ".5", "-.5", "3.", "+3.", "6.02e23", "6.02E23", "1e-5",
        "1E+5", "-1.e2", ".5e0", "000.000", "359.99999",
    ] {
        assert!(is_decimal_number(text), "{:?}", text);
        assert!(text.parse::<f32>().is_ok(), "{:?}", text);
    }
}

#[test]
fn what_is_no_decimal_number_is_refused() {
    for text in [
        "", "+", "-", ".", "+.", "e5", ".e5", "1e", "1e+", "1e-", "1ee5", "1e5.0", "1.2.3", "--1",
        "+-1", "1-", "1+1", " 1", "1 ", "1,5", "abc", "12a", "0x10", "inf", "-inf", "nan", "NaN",
        "infinity", "1_000", "\u{663}",
    ] {
        assert!(!is_decimal_number(text), "{:?}", text);
    }
}
