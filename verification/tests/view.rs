//! A1 labels.

use ehkatra::view::{column_label, row_label};

#[test]
fn column_labels_are_bijective_base_26() {
    for (index, expected) in [
        (0, "A"),
        (25, "Z"),
        (26, "AA"),
        (27, "AB"),
        (51, "AZ"),
        (52, "BA"),
        (701, "ZZ"),
        (702, "AAA"),
        (16_383, "XFD"),
    ] {
        assert_eq!(column_label(index), expected, "column {index}");
    }
    assert_eq!(row_label(0), "1");
    assert_eq!(row_label(1_048_575), "1048576");
}

#[test]
fn distinct_columns_have_distinct_labels() {
    let labels: Vec<String> = (0..2000).map(column_label).collect();
    for i in 0..labels.len() {
        for j in (i + 1)..labels.len().min(i + 60) {
            assert_ne!(labels[i], labels[j]);
        }
    }
}

#[test]
fn row_labels_count_from_one() {
    assert_eq!(row_label(9), "10");
    assert_eq!(row_label(99), "100");
}
