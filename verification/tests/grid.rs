use ksbd_bot::bot_flow::{jump_rows, parse_nav_callback, NavBtn};

#[test]
fn grid_for_single_page_is_one_degenerate_row() {
    let rows = jump_rows(0);
    assert_eq!(rows, vec![vec![NavBtn::First, NavBtn::Last(0)]]);
}

#[test]
fn grid_for_two_hundred_fifty_pages() {
    let rows = jump_rows(250);
    assert_eq!(
        rows,
        vec![
            vec![
                NavBtn::First,
                NavBtn::Page(25),
                NavBtn::Page(50),
                NavBtn::Page(75),
                NavBtn::Page(100),
            ],
            vec![
                NavBtn::Page(125),
                NavBtn::Page(150),
                NavBtn::Page(175),
                NavBtn::Page(200),
            ],
            vec![NavBtn::Page(225)],
            vec![NavBtn::Last(250)],
        ]
    );
}

#[test]
fn grid_row_boundary_is_strict() {
    // a target equal to the highest index is left to the LAST button
    let rows = jump_rows(100);
    assert_eq!(
        rows,
        vec![
            vec![NavBtn::First, NavBtn::Page(25), NavBtn::Page(50), NavBtn::Page(75)],
            vec![NavBtn::Last(100)],
        ]
    );
}

#[test]
fn grid_below_first_button_is_degenerate() {
    let rows = jump_rows(25);
    assert_eq!(rows, vec![vec![NavBtn::First, NavBtn::Last(25)]]);
}

#[test]
fn nav_callback_parses_its_own_data() {
    assert_eq!(parse_nav_callback("n-0"), Some(0));
    assert_eq!(parse_nav_callback("n-137"), Some(137));
    let data = ksbd_bot::page_sender::nav_callback_data(42);
    assert_eq!(data, "n-42");
    assert_eq!(parse_nav_callback(&data), Some(42));
}

#[test]
fn nav_callback_rejects_foreign_data() {
    assert_eq!(parse_nav_callback("x-5"), None);
    assert_eq!(parse_nav_callback("n-"), None);
    assert_eq!(parse_nav_callback("n-12a"), None);
    assert_eq!(parse_nav_callback("n5"), None);
    assert_eq!(parse_nav_callback(""), None);
    assert_eq!(parse_nav_callback("n-99999999999999999999999999"), None);
}
