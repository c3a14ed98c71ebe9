use dsopt::calendar::civil_from_days;
use dsopt::screen::{centered_rect, first_visible, thousands, Area};
use dsopt::text::{
    chars_of, decimal_text, left_aligned_text, parse_number, right_aligned_text, trim, white_space,
    zero_padded_text,
};
use dsopt::{format_size, format_timestamp};

#[test]
fn groups_digits_with_commas() {
    assert_eq!(thousands(0), "0");
    assert_eq!(thousands(999), "999");
    assert_eq!(thousands(1_234_567), "1,234,567");
}

#[test]
fn groups_every_third_digit() {
    assert_eq!(thousands(1000), "1,000");
    assert_eq!(thousands(12_345), "12,345");
    assert_eq!(thousands(123_456), "123,456");
    assert_eq!(thousands(u64::MAX), "18,446,744,073,709,551,615");
    for value in [0u64, 7, 10, 999, 1000, 1001, 65_536, 1_000_000, u64::MAX] {
        assert_eq!(thousands(value).replace(',', ""), value.to_string());
    }
}

#[test]
fn centres_a_dialog_inside_the_frame() {
    let area = Area { x: 0, y: 0, width: 100, height: 40 };
    let dialog = centered_rect(74, 7, area);
    assert_eq!(dialog.width, 74);
    assert_eq!(dialog.x, 13);
    assert_eq!(dialog.y, 16);
}

#[test]
fn never_centres_a_dialog_larger_than_the_frame() {
    let dialog = centered_rect(200, 100, Area { x: 0, y: 0, width: 40, height: 10 });
    assert_eq!((dialog.width, dialog.height), (40, 10));
}

#[test]
fn centres_a_dialog_in_an_area_off_the_corner() {
    let dialog = centered_rect(10, 4, Area { x: 5, y: 6, width: 21, height: 9 });
    assert_eq!((dialog.x, dialog.y, dialog.width, dialog.height), (10, 8, 10, 4));
}

#[test]
fn shows_the_last_lines() {
    assert_eq!(first_visible(10, 4), 6);
    assert_eq!(first_visible(3, 4), 0);
    assert_eq!(first_visible(3, 0), 2);
    assert_eq!(first_visible(0, 0), 0);
}

#[test]
fn formats_byte_counts() {
    assert_eq!(format_size(999), "999 B");
    assert_eq!(format_size(1024), "1.0 KB");
    assert_eq!(format_size(1024 * 1024), "1.0 MB");
    assert_eq!(format_size(1536), "1.5 KB");
}

fn float_format(size: u64) -> String {
    let mut value = size as f64;
    for unit in ["B", "KB", "MB", "GB", "TB"] {
        if value < 1024.0 || unit == "TB" {
            return if unit == "B" { format!("{size} B") } else { format!("{value:.1} {unit}") };
        }
        value /= 1024.0;
    }
    format!("{size} B")
}

#[test]
fn formats_sizes_as_floating_point_does() {
    let mut sizes: Vec<u64> = vec![
        0,
        1,
        1023,
        1024,
        1025,
        1075,
        1076,
        1126,
        1127,
        1228,
        1280,
        1331,
        1332,
        1024 * 1024 - 1,
        1024 * 1024,
        1024 * 1024 * 1024 - 1,
        1_099_511_627_775,
        1_099_511_627_776,
        (1 << 53) - 1,
        1 << 53,
        (1 << 53) + 1,
        (1 << 60) - 1,
        (1 << 60) + 64,
        u64::MAX - 1024,
        u64::MAX - 1023,
        u64::MAX,
    ];
    let mut seed: u64 = 99;
    for shift in 0..64u32 {
        for _ in 0..40 {
            seed = seed.wrapping_mul(6364136223846793005).wrapping_add(1442695040888963407);
            sizes.push(seed >> shift);
        }
    }
    for unit in [1024u64, 1024 * 1024, 1024 * 1024 * 1024, 1 << 40] {
        for step in 0..100u64 {
            sizes.push(unit + unit / 20 * step);
            sizes.push(unit * 5 + unit / 4 * step);
        }
    }
    for size in sizes {
        assert_eq!(format_size(size), float_format(size), "{}", size);
    }
}

#[test]
fn formats_the_unix_epoch() {
    assert_eq!(format_timestamp(0), "1970-01-01 00:00 UTC");
}

#[test]
fn formats_a_known_timestamp() {
    assert_eq!(format_timestamp(1_000_000_000), "2001-09-09 01:46 UTC");
}

#[test]
fn formats_leap_days_and_turns_of_the_year() {
    assert_eq!(format_timestamp(951_782_400), "2000-02-29 00:00 UTC");
    assert_eq!(format_timestamp(951_868_799), "2000-02-29 23:59 UTC");
    assert_eq!(format_timestamp(951_868_800), "2000-03-01 00:00 UTC");
    assert_eq!(format_timestamp(1_735_689_599), "2024-12-31 23:59 UTC");
    assert_eq!(format_timestamp(4_107_542_400), "2100-03-01 00:00 UTC");
    assert_eq!(format_timestamp(253_402_300_800), "10000-01-01 00:00 UTC");
}

#[test]
fn timestamps_order_as_their_instants_do() {
    let instants: [u64; 12] = [
        0, 59, 60, 3_599, 3_600, 86_399, 86_400, 951_782_399, 951_782_400, 1_000_000_000,
        4_107_542_400, 253_402_300_799,
    ];
    for early in instants {
        let text = format_timestamp(early);
        assert_eq!(text.len(), 20);
        assert!(text.ends_with(" UTC"));
        for late in instants {
            if early <= late {
                assert!(text <= format_timestamp(late));
                assert_eq!(text == format_timestamp(late), early / 60 == late / 60);
            }
        }
    }
    assert_eq!(format_timestamp(253_402_300_799), "9999-12-31 23:59 UTC");
}

#[test]
fn finds_dates_before_the_epoch() {
    assert_eq!(civil_from_days(0), (1970, 1, 1));
    assert_eq!(civil_from_days(-1), (1969, 12, 31));
    assert_eq!(civil_from_days(-719_468), (0, 3, 1));
    assert_eq!(civil_from_days(-719_469), (0, 2, 29));
}

#[test]
fn dates_follow_each_other_day_by_day() {
    let mut previous = civil_from_days(-150_000);
    for day in -149_999..150_000i64 {
        let date = civil_from_days(day);
        let next_day = date.0 == previous.0 && date.1 == previous.1 && date.2 == previous.2 + 1;
        let next_month = date.0 == previous.0 && date.1 == previous.1 + 1 && date.2 == 1;
        let next_year =
            date.0 == previous.0 + 1 && (date.1, date.2) == (1, 1) && (previous.1, previous.2) == (12, 31);
        assert!(next_day || next_month || next_year);
        previous = date;
    }
}

#[test]
fn writes_numbers_in_fields() {
    assert_eq!(decimal_text(u64::MAX), "18446744073709551615");
    assert_eq!(zero_padded_text(7, 4), "0007");
    assert_eq!(zero_padded_text(12345, 4), "12345");
    assert_eq!(right_aligned_text("1.0 KB", 10), format!("{:>10}", "1.0 KB"));
    assert_eq!(left_aligned_text("Rust build output", 24), format!("{:<24}", "Rust build output"));
    assert_eq!(left_aligned_text("longer than that", 3), "longer than that");
}

#[test]
fn knows_white_space_as_the_standard_library_does() {
    for c in '\0'..=char::MAX {
        assert_eq!(white_space(c), c.is_whitespace(), "{:?}", c);
    }
}

#[test]
fn trims_and_reads_numbers_as_the_standard_library_does() {
    for text in [
        "", " ", "4", " 4\t", "+4", "-4", "+", "04", "4 4", "٣", "18446744073709551615",
        "18446744073709551616", "99999999999999999999999", "+0",
    ] {
        let typed = trim(&chars_of(text));
        assert_eq!(typed.iter().collect::<String>(), text.trim());
        assert_eq!(parse_number(&typed, u64::MAX), text.trim().parse::<u64>().ok(), "{:?}", text);
    }
    assert_eq!(parse_number(&chars_of("256"), 255), None);
    assert_eq!(parse_number(&chars_of("255"), 255), Some(255));
}
