use kabu_manager::amount::Amount;
use kabu_manager::csv_import::{decode_csv_bytes, extract_date_from_text, normalize_account_type};
use kabu_manager::date::CalendarDate;
use kabu_manager::records::parse_number;
use kabu_manager::text::{chars_equal, contains_chars, trim_chars};

fn units(n: i128) -> Amount {
    Amount { micros: n * 1_000_000 }
}

fn date(year: i32, month: u32, day: u32) -> CalendarDate {
    CalendarDate { year, month, day }
}

fn text_of(chars: Vec<char>) -> String {
    chars.into_iter().collect()
}

#[test]
fn parse_number_strips_separators_and_signs() {
    assert_eq!(parse_number("1,234"), Some(units(1234)));
    assert_eq!(parse_number("\"1,234\""), None);
    assert_eq!(parse_number("+2.85%"), Some(Amount { micros: 2_850_000 }));
    assert_eq!(parse_number(" 12株 "), Some(units(12)));
    assert_eq!(parse_number("1,500円"), Some(units(1500)));
    assert_eq!(parse_number("-308"), Some(units(-308)));
    assert_eq!(parse_number("0.5"), Some(Amount { micros: 500_000 }));
}

#[test]
fn parse_number_reads_placeholders_as_missing() {
    assert_eq!(parse_number("--"), None);
    assert_eq!(parse_number("-"), None);
    assert_eq!(parse_number(""), None);
    assert_eq!(parse_number("   "), None);
    assert_eq!(parse_number("abc"), None);
    assert_eq!(parse_number("↑"), None);
}

#[test]
fn parse_number_reads_exponents() {
    assert_eq!(parse_number("1e3"), Some(units(1000)));
    assert_eq!(parse_number("1E+3"), Some(units(1000)));
    assert_eq!(parse_number("1.5E-2"), Some(Amount { micros: 15_000 }));
    assert_eq!(parse_number("-2.5e1"), Some(units(-25)));
    assert_eq!(parse_number(".5e1"), Some(units(5)));
    assert_eq!(parse_number("12e-7"), Some(Amount { micros: 1 }));
    assert_eq!(parse_number("2.5e-7"), Some(units(0)));
    assert_eq!(parse_number("0e99999999999999999999999"), Some(units(0)));
    assert_eq!(parse_number("1e-99999999999999999999999"), Some(units(0)));
    assert_eq!(parse_number("1e12"), Some(units(1_000_000_000_000)));
}

#[test]
fn parse_number_refuses_broken_exponents_and_huge_values() {
    assert_eq!(parse_number("1e"), None);
    assert_eq!(parse_number("1e-"), None);
    assert_eq!(parse_number("e3"), None);
    assert_eq!(parse_number("1e3x"), None);
    assert_eq!(parse_number("1e13"), None);
    assert_eq!(parse_number("1e99999999999999999999999"), None);
    assert_eq!(parse_number("inf"), None);
    assert_eq!(parse_number("NaN"), None);
}

#[test]
fn amount_text_matches_float_display() {
    assert_eq!(text_of(Amount { micros: -12_500_000 }.to_text_chars()), "-12.5");
    assert_eq!(text_of(units(100).to_text_chars()), "100");
    assert_eq!(text_of(Amount { micros: 1 }.to_text_chars()), "0.000001");
    assert_eq!(text_of(units(0).to_text_chars()), "0");
}

#[test]
fn amount_debug_text_matches_float_debug() {
    assert_eq!(text_of(units(2500).to_debug_chars()), "2500.0");
    assert_eq!(text_of(Amount { micros: 1_250_000 }.to_debug_chars()), "1.25");
    assert_eq!(text_of(Amount { micros: 5 }.to_debug_chars()), "5e-6");
    assert_eq!(text_of(Amount { micros: -12 }.to_debug_chars()), "-1.2e-5");
    assert_eq!(text_of(Amount { micros: 100 }.to_debug_chars()), "0.0001");
}

#[test]
fn account_types_get_one_spelling() {
    assert_eq!(normalize_account_type("特定預り"), "特定");
    assert_eq!(normalize_account_type(" 特定 "), "特定");
    assert_eq!(normalize_account_type("NISA預り(成長投資枠)"), "NISA成長投資枠");
    assert_eq!(normalize_account_type("NISA(つみたて投資枠)"), "NISAつみたて投資枠");
    assert_eq!(normalize_account_type("一般NISA預り"), "一般NISA");
    assert_eq!(normalize_account_type(" 一般 "), "一般");
    assert_eq!(normalize_account_type(""), "");
}

#[test]
fn normalizing_twice_changes_nothing() {
    for raw in ["特定預り", "NISA預り(成長投資枠)", "つみたて投資枠", "一般NISA", "  保護預り  "] {
        let once = normalize_account_type(raw);
        assert_eq!(normalize_account_type(&once), once);
    }
}

#[test]
fn dates_are_found_in_title_lines() {
    assert_eq!(
        extract_date_from_text("[ 残高照会 ]- 国内株式 （特定口座） -令和08年07月06日(月) 12:00現在"),
        Some(date(2026, 7, 6))
    );
    assert_eq!(extract_date_from_text("作成日 2026/07/06"), Some(date(2026, 7, 6)));
    assert_eq!(extract_date_from_text("2026年7月6日 現在"), Some(date(2026, 7, 6)));
    assert_eq!(extract_date_from_text("令和元年"), None);
    assert_eq!(extract_date_from_text("令和08年02月30日"), None);
    assert_eq!(extract_date_from_text("no date here"), None);
}

#[test]
fn era_date_comes_before_western_date() {
    assert_eq!(
        extract_date_from_text("2020/01/02 令和07年03月04日"),
        Some(date(2025, 3, 4))
    );
}

#[test]
fn csv_bytes_decode_by_their_encoding() {
    let mut with_bom = vec![0xEF, 0xBB, 0xBF];
    with_bom.extend_from_slice("特定".as_bytes());
    assert_eq!(decode_csv_bytes(&with_bom), "特定");
    assert_eq!(decode_csv_bytes("保有株数".as_bytes()), "保有株数");
    // Shift_JIS bytes of 特定
    assert_eq!(decode_csv_bytes(&[0x93, 0xC1, 0x92, 0xE8]), "特定");
    // after a byte-order mark, broken UTF-8 becomes the replacement character
    assert_eq!(decode_csv_bytes(&[0xEF, 0xBB, 0xBF, b'a', 0xFF]), "a\u{FFFD}");
}

#[test]
fn text_helpers_trim_and_search() {
    assert_eq!(trim_chars(&[' ', 'x', ' ', 'y', '\u{3000}']), vec!['x', ' ', 'y']);
    assert_eq!(trim_chars(&['\t', '\n']), Vec::<char>::new());
    assert!(contains_chars(&['預', 'り', '区', '分'], &['区', '分']));
    assert!(!contains_chars(&['区'], &['区', '分']));
    assert!(contains_chars(&['a'], &[]));
    assert!(chars_equal(&['a', 'b'], &['a', 'b']));
    assert!(!chars_equal(&['a'], &['a', 'b']));
}
