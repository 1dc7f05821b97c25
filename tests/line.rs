use starfield::{get_color, LinkStyle};

#[test]
fn dashed_line_skips_its_start_and_marches() {
    assert_eq!(get_color(LinkStyle::Dashed, 20, 0, 0), 0);
    assert_eq!(get_color(LinkStyle::Dashed, 20, 3, 0), 0);
    assert_eq!(get_color(LinkStyle::Dashed, 20, 5, 0), 1);
    assert_eq!(get_color(LinkStyle::Dashed, 20, 7, 0), 1);
    assert_eq!(get_color(LinkStyle::Dashed, 20, 8, 0), 0);
    assert_eq!(get_color(LinkStyle::Dashed, 20, 8, 6), 1);
}

#[test]
fn dim_line_fades_at_both_ends() {
    assert_eq!(get_color(LinkStyle::Dim, 20, 2, 0), 0);
    assert_eq!(get_color(LinkStyle::Dim, 20, 3, 0), 1);
    assert_eq!(get_color(LinkStyle::Dim, 20, 4, 0), 0);
    assert_eq!(get_color(LinkStyle::Dim, 20, 5, 0), 1);
    assert_eq!(get_color(LinkStyle::Dim, 20, 10, 0), 1);
    assert_eq!(get_color(LinkStyle::Dim, 20, 16, 0), 0);
    assert_eq!(get_color(LinkStyle::Dim, 20, 17, 0), 1);
    assert_eq!(get_color(LinkStyle::Dim, 20, 18, 0), 0);
}

#[test]
fn bright_line_shines() {
    assert_eq!(get_color(LinkStyle::Bright, 30, 3, 0), 0);
    assert_eq!(get_color(LinkStyle::Bright, 30, 4, 100), 1);
    assert_eq!(get_color(LinkStyle::Bright, 30, 6, 100), 2);
    assert_eq!(get_color(LinkStyle::Bright, 30, 15, 100), 2);
    assert_eq!(get_color(LinkStyle::Bright, 30, 15, 6), 3);
    assert_eq!(get_color(LinkStyle::Bright, 30, 12, 6), 3);
    assert_eq!(get_color(LinkStyle::Bright, 30, 18, 6), 2);
    assert_eq!(get_color(LinkStyle::Bright, 30, 27, 0), 0);
}
