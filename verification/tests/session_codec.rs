use tile_clerk::{deserialize, TileMetadata, TilesetInformation};

fn record(name: &str, x: i32, y: i32) -> TileMetadata {
    TileMetadata { name: String::from(name), x, y }
}

fn assert_sessions_equal(a: &TilesetInformation, b: &TilesetInformation) {
    assert_eq!(a.rows, b.rows);
    assert_eq!(a.columns, b.columns);
    assert_eq!(a.width_px, b.width_px);
    assert_eq!(a.height_px, b.height_px);
    assert_eq!(a.image_path, b.image_path);
    assert_eq!(a.image_raw, b.image_raw);
    assert_eq!(a.tiles, b.tiles);
}

#[test]
fn append_keeps_order_and_duplicates() {
    let mut store = TilesetInformation::default();
    store.append(record("grass", 1, 0));
    store.append(record("rock", 0, 1));
    store.append(record("grass", 1, 0));
    let records = store.all();
    assert_eq!(records.len(), 3);
    assert_eq!(records[0], record("grass", 1, 0));
    assert_eq!(records[1], record("rock", 0, 1));
    assert_eq!(records[2], record("grass", 1, 0));
}

#[test]
fn serialize_of_fresh_session_is_exact() {
    let store = TilesetInformation::default();
    let text = store.serialize();
    assert_eq!(
        text.as_str(),
        "rows=0:\ncolumns=0:\nwidth_px=0:\nheight_px=0:\nimage_path=0:\nimage_raw=0:\ntiles=0\n",
    );
}

#[test]
fn serialize_of_full_session_is_exact() {
    let mut store = TilesetInformation::default();
    store.rows = String::from("2");
    store.columns = String::from("3");
    store.width_px = String::from("16");
    store.height_px = String::from("24");
    store.image_path = String::from("tiles.png");
    store.image_raw = vec![0x0f, 0xa0];
    store.append(record("ab", 1, 0));
    let text = store.serialize();
    assert_eq!(
        text.as_str(),
        "rows=1:2\ncolumns=1:3\nwidth_px=2:16\nheight_px=2:24\nimage_path=9:tiles.png\nimage_raw=2:0fa0\ntiles=1\nname=2:ab\nx=1\ny=0\n",
    );
}

#[test]
fn round_trip_of_empty_store() {
    let store = TilesetInformation::default();
    let text = store.serialize();
    let back = deserialize(text.as_str()).unwrap();
    assert_sessions_equal(&store, &back);
}

#[test]
fn round_trip_of_single_record() {
    let mut store = TilesetInformation::default();
    store.rows = String::from("2");
    store.columns = String::from("2");
    store.width_px = String::from("16");
    store.height_px = String::from("16");
    store.append(record("grass", 1, 0));
    let text = store.serialize();
    let back = deserialize(text.as_str()).unwrap();
    assert_sessions_equal(&store, &back);
}

#[test]
fn round_trip_with_duplicates_image_and_odd_names() {
    let mut store = TilesetInformation::default();
    store.rows = String::from("10");
    store.columns = String::from("12");
    store.width_px = String::from("8");
    store.height_px = String::from("8");
    store.image_path = String::from("assets/over world.png");
    store.image_raw = vec![0, 255, 16, 1, 2, 3];
    store.append(record("grass", 1, 0));
    store.append(record("grass", 1, 0));
    store.append(record("name=with:odd\nchars", 11, 9));
    store.append(record("", 0, 0));
    let text = store.serialize();
    let back = deserialize(text.as_str()).unwrap();
    assert_sessions_equal(&store, &back);
}

#[test]
fn deserialize_of_handwritten_text() {
    let text = "rows=1:2\ncolumns=1:3\nwidth_px=2:16\nheight_px=2:24\nimage_path=0:\nimage_raw=1:ff\ntiles=2\nname=1:a\nx=2\ny=0\nname=0:\nx=0\ny=1\n";
    let back = deserialize(text).unwrap();
    assert_eq!(back.rows.as_str(), "2");
    assert_eq!(back.columns.as_str(), "3");
    assert_eq!(back.width_px.as_str(), "16");
    assert_eq!(back.height_px.as_str(), "24");
    assert_eq!(back.image_raw, vec![0xff]);
    assert_eq!(back.tiles.len(), 2);
    assert_eq!(back.tiles[0], record("a", 2, 0));
    assert_eq!(back.tiles[1], record("", 0, 1));
}

#[test]
fn deserialize_rejects_malformed_text() {
    assert!(deserialize("").is_none());
    assert!(deserialize("xx").is_none());
    assert!(deserialize("rows=1:2\n").is_none());
    // A record count larger than the remaining text can satisfy.
    assert!(deserialize(
        "rows=0:\ncolumns=0:\nwidth_px=0:\nheight_px=0:\nimage_path=0:\nimage_raw=0:\ntiles=7\n",
    )
    .is_none());
    // Bad hexadecimal in the image bytes.
    assert!(deserialize(
        "rows=0:\ncolumns=0:\nwidth_px=0:\nheight_px=0:\nimage_path=0:\nimage_raw=1:zz\ntiles=0\n",
    )
    .is_none());
    // A wrong length prefix.
    assert!(deserialize(
        "rows=2:2\ncolumns=0:\nwidth_px=0:\nheight_px=0:\nimage_path=0:\nimage_raw=0:\ntiles=0\n",
    )
    .is_none());
    // Trailing garbage after a complete session.
    assert!(deserialize(
        "rows=0:\ncolumns=0:\nwidth_px=0:\nheight_px=0:\nimage_path=0:\nimage_raw=0:\ntiles=0\nx",
    )
    .is_none());
}

#[test]
fn trailing_text_after_records_is_rejected() {
    let mut store = TilesetInformation::default();
    store.append(record("a", 0, 0));
    let mut text = store.serialize();
    let back = deserialize(text.as_str()).unwrap();
    assert_sessions_equal(&store, &back);
    text.push('\n');
    assert!(deserialize(text.as_str()).is_none());
}
