use slicer::output::{format_bytes, format_number, render_bar_cells};

#[test]
fn test_format_bytes() {
    assert_eq!(format_bytes(500), "500 B");
    assert_eq!(format_bytes(1024), "1.00 KB");
    assert_eq!(format_bytes(1_048_576), "1.00 MB");
    assert_eq!(format_bytes(1_073_741_824), "1.00 GB");
    assert_eq!(format_bytes(2_500_000_000), "2.33 GB");
}

#[test]
fn format_bytes_edges() {
    assert_eq!(format_bytes(0), "0 B");
    assert_eq!(format_bytes(1023), "1023 B");
    assert_eq!(format_bytes(1536), "1.50 KB");
    assert_eq!(format_bytes(1_048_575), "1024.00 KB");
    // 1152 / 1024 = 1.125 exactly: a tie, rounded to the even hundredth.
    assert_eq!(format_bytes(1152), "1.12 KB");
    // 1168 / 1024 = 1.140625
    assert_eq!(format_bytes(1168), "1.14 KB");
    assert_eq!(format_bytes(u64::MAX), "17179869184.00 GB");
    assert_eq!(format_bytes(1_000_000), "976.56 KB");
}

#[test]
fn test_format_number() {
    assert_eq!(format_number(0), "0");
    assert_eq!(format_number(999), "999");
    assert_eq!(format_number(1_000), "1,000");
    assert_eq!(format_number(1_234_567), "1,234,567");
}

#[test]
fn format_number_edges() {
    assert_eq!(format_number(12_345), "12,345");
    assert_eq!(format_number(100_000), "100,000");
    assert_eq!(format_number(u64::MAX), "18,446,744,073,709,551,615");
    assert_eq!(format_number(1_234_567).replace(',', ""), "1234567");
}

#[test]
fn bar_cells_fill_width() {
    let bar = render_bar_cells(5, 10);
    assert_eq!(bar.chars().count(), 10);
    assert!(bar.contains('█'));
    assert!(bar.contains('░'));
}

#[test]
fn render_bar_cells_shapes() {
    assert_eq!(render_bar_cells(3, 5), "███░░");
    assert_eq!(render_bar_cells(0, 3), "░░░");
    assert_eq!(render_bar_cells(4, 2), "████");
    assert_eq!(render_bar_cells(0, 0), "");
}
