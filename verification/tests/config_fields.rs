use tile_clerk::{ConfigField, ConfigParseError, TilesetInformation};

fn session(rows: &str, columns: &str, width: &str, height: &str) -> TilesetInformation {
    let mut info = TilesetInformation::default();
    info.rows = String::from(rows);
    info.columns = String::from(columns);
    info.width_px = String::from(width);
    info.height_px = String::from(height);
    info
}

#[test]
fn empty_fields_are_not_complete() {
    let info = TilesetInformation::default();
    assert!(!info.is_complete());
    assert_eq!(info.parsed(), Err(ConfigParseError::NotANumber(ConfigField::Rows)));
}

#[test]
fn all_fields_present_parse_to_configuration() {
    let info = session("2", "3", "16", "24");
    assert!(info.is_complete());
    let cfg = info.parsed().unwrap();
    assert_eq!(cfg.rows, 2);
    assert_eq!(cfg.columns, 3);
    assert_eq!(cfg.tile_width_px, 16);
    assert_eq!(cfg.tile_height_px, 24);
}

#[test]
fn non_numeric_field_is_reported_by_name() {
    let info = session("abc", "3", "16", "24");
    assert_eq!(info.parsed(), Err(ConfigParseError::NotANumber(ConfigField::Rows)));
    let info2 = session("2", "1x", "16", "24");
    assert_eq!(info2.parsed(), Err(ConfigParseError::NotANumber(ConfigField::Columns)));
    let info3 = session("2", "3", " 16", "24");
    assert_eq!(info3.parsed(), Err(ConfigParseError::NotANumber(ConfigField::WidthPx)));
    assert!(!info3.is_complete());
}

#[test]
fn zero_field_is_non_positive() {
    let info = session("0", "3", "16", "24");
    assert_eq!(info.parsed(), Err(ConfigParseError::NonPositive(ConfigField::Rows)));
    let info2 = session("2", "3", "16", "0");
    assert_eq!(info2.parsed(), Err(ConfigParseError::NonPositive(ConfigField::HeightPx)));
}

#[test]
fn first_failing_field_wins() {
    let info = session("1", "", "0", "x");
    assert_eq!(info.parsed(), Err(ConfigParseError::NotANumber(ConfigField::Columns)));
}

#[test]
fn oversized_field_is_not_a_number() {
    let info = session("99999999999999999999", "3", "16", "24");
    assert_eq!(info.parsed(), Err(ConfigParseError::NotANumber(ConfigField::Rows)));
    let info2 = session("2147483647", "3", "16", "24");
    assert_eq!(info2.parsed().unwrap().rows, 2147483647);
    let info3 = session("2147483648", "3", "16", "24");
    assert_eq!(info3.parsed(), Err(ConfigParseError::NotANumber(ConfigField::Rows)));
}
