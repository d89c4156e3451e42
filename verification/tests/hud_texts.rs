use cys::hud::{display_name, hover_text, int_string, stat_text};

#[test]
fn counters_read_label_and_value() {
    assert_eq!(stat_text("Food", 12), "Food: 12");
    assert_eq!(stat_text("Money", 0), "Money: 0");
    assert_eq!(stat_text("Money", -45), "Money: -45");
}

#[test]
fn integers_in_decimal() {
    assert_eq!(int_string(0), "0");
    assert_eq!(int_string(907), "907");
    assert_eq!(int_string(i32::MIN), "-2147483648");
    assert_eq!(int_string(i32::MAX), "2147483647");
}

#[test]
fn hover_line_of_a_rack() {
    assert_eq!(hover_text(3, 8, "rack"), "rack: 3/8");
}

#[test]
fn tooltip_names_use_spaces() {
    assert_eq!(display_name("street_fence"), "street fence");
    assert_eq!(display_name("box"), "box");
    assert_eq!(display_name("__"), "  ");
}
