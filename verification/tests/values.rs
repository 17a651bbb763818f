use kiln::column::same_text;
use kiln::decimal::{parse_i32, render_i32};
use kiln::{stringify_col, Column, ColumnValue, ToCell};

#[test]
fn render_gives_canonical_decimal() {
    assert_eq!(render_i32(0), "0");
    assert_eq!(render_i32(7), "7");
    assert_eq!(render_i32(10), "10");
    assert_eq!(render_i32(42), "42");
    assert_eq!(render_i32(-1), "-1");
    assert_eq!(render_i32(-120), "-120");
    assert_eq!(render_i32(i32::MAX), "2147483647");
    assert_eq!(render_i32(i32::MIN), "-2147483648");
}

#[test]
fn render_agrees_with_std() {
    let samples = [0, 1, -1, 9, 10, 99, 100, 101, -999, 1000, 65535, -65536, 123456789, i32::MAX, i32::MIN];
    for i in samples {
        assert_eq!(render_i32(i), format!("{}", i));
    }
}

#[test]
fn parse_reads_signs_and_leading_zeros() {
    assert_eq!(parse_i32("42"), Some(42));
    assert_eq!(parse_i32("+42"), Some(42));
    assert_eq!(parse_i32("-42"), Some(-42));
    assert_eq!(parse_i32("007"), Some(7));
    assert_eq!(parse_i32("-0"), Some(0));
    assert_eq!(parse_i32("0"), Some(0));
    assert_eq!(parse_i32("2147483647"), Some(i32::MAX));
    assert_eq!(parse_i32("-2147483648"), Some(i32::MIN));
    assert_eq!(parse_i32("00000000000000000002147483647"), Some(i32::MAX));
}

#[test]
fn parse_refuses_what_is_no_number() {
    assert_eq!(parse_i32(""), None);
    assert_eq!(parse_i32("-"), None);
    assert_eq!(parse_i32("+"), None);
    assert_eq!(parse_i32("12a"), None);
    assert_eq!(parse_i32("a12"), None);
    assert_eq!(parse_i32(" 12"), None);
    assert_eq!(parse_i32("12 "), None);
    assert_eq!(parse_i32("1-2"), None);
    assert_eq!(parse_i32("--2"), None);
    assert_eq!(parse_i32("٣"), None);
}

#[test]
fn parse_refuses_what_does_not_fit() {
    assert_eq!(parse_i32("2147483648"), None);
    assert_eq!(parse_i32("-2147483649"), None);
    assert_eq!(parse_i32("99999999999999999999999999"), None);
    assert_eq!(parse_i32("-99999999999999999999999999"), None);
}

#[test]
fn parse_agrees_with_std() {
    let samples = [
        "", "0", "-0", "+0", "1", "-1", "+1", "12", "0012", "-0012", "+-1", "-+1", "1+", "2147483647",
        "2147483648", "-2147483648", "-2147483649", "4294967296", "1e3", "0x10", "١٢",
    ];
    for text in samples {
        assert_eq!(parse_i32(text), text.parse::<i32>().ok(), "{:?}", text);
    }
}

#[test]
fn parse_undoes_render() {
    let samples = [0, 1, -1, 9, 10, 42, -42, 1000000, i32::MAX, i32::MIN];
    for i in samples {
        assert_eq!(parse_i32(render_i32(i).as_str()), Some(i));
    }
}

#[test]
fn stringify_passes_text_through() {
    assert_eq!(stringify_col(ColumnValue::Str("bob".to_string())), "bob");
    assert_eq!(stringify_col(ColumnValue::LongStr("a long text".to_string())), "a long text");
    assert_eq!(stringify_col(ColumnValue::Byte("ff".to_string())), "ff");
    assert_eq!(stringify_col(ColumnValue::Str(String::new())), "");
}

#[test]
fn stringify_renders_integers() {
    assert_eq!(stringify_col(ColumnValue::I32(42)), "42");
    assert_eq!(stringify_col(12.to_cell()), "12");
    assert_eq!(stringify_col(ColumnValue::I32(-7)), "-7");
}

#[test]
fn integer_and_text_may_share_a_text() {
    assert_eq!(
        stringify_col(ColumnValue::I32(42)),
        stringify_col(ColumnValue::Str("42".to_string()))
    );
}

#[test]
fn round_trip_for_every_type() {
    let back = ColumnValue::parse(Column::I32, stringify_col(ColumnValue::I32(42))).unwrap();
    assert_eq!(back.i32(), Some(42));
    let back = ColumnValue::parse(Column::Str, stringify_col(ColumnValue::Str("bob".to_string()))).unwrap();
    assert_eq!(back.string(), Some("bob".to_string()));
    let back = ColumnValue::parse(Column::LongStr, stringify_col(ColumnValue::LongStr("x y".to_string()))).unwrap();
    assert!(matches!(back, ColumnValue::LongStr(ref s) if s == "x y"));
    let back = ColumnValue::parse(Column::Byte, stringify_col(ColumnValue::Byte("0a".to_string()))).unwrap();
    assert!(matches!(back, ColumnValue::Byte(ref s) if s == "0a"));
}

#[test]
fn parse_is_directed_by_the_type() {
    let as_text = ColumnValue::parse(Column::Str, "42".to_string()).unwrap();
    assert_eq!(as_text.string(), Some("42".to_string()));
    assert_eq!(as_text.i32(), None);
    let as_number = ColumnValue::parse(Column::I32, "42".to_string()).unwrap();
    assert_eq!(as_number.i32(), Some(42));
    assert_eq!(as_number.string(), None);
    assert!(ColumnValue::parse(Column::I32, "bob".to_string()).is_none());
}

#[test]
fn accessors_pick_their_variant() {
    assert_eq!(ColumnValue::I32(3).i32(), Some(3));
    assert_eq!(ColumnValue::Str("3".to_string()).i32(), None);
    assert_eq!(ColumnValue::Str("s".to_string()).string(), Some("s".to_string()));
    assert_eq!(ColumnValue::LongStr("s".to_string()).string(), None);
    assert_eq!(ColumnValue::Byte("s".to_string()).string(), None);
    assert_eq!(ColumnValue::I32(3).string(), None);
}

#[test]
fn column_of_a_value() {
    assert_eq!(ColumnValue::I32(3).column(), Column::I32);
    assert_eq!(ColumnValue::Str(String::new()).column(), Column::Str);
    assert_eq!(ColumnValue::LongStr(String::new()).column(), Column::LongStr);
    assert_eq!(ColumnValue::Byte(String::new()).column(), Column::Byte);
}

#[test]
fn clone_keeps_the_value() {
    let v = ColumnValue::Str("bob".to_string());
    assert_eq!(v.clone().string(), Some("bob".to_string()));
    assert_eq!(ColumnValue::I32(5).clone().i32(), Some(5));
}

#[test]
fn tags_are_the_four_words() {
    assert_eq!(Column::Str.tag(), "str");
    assert_eq!(Column::LongStr.tag(), "longstr");
    assert_eq!(Column::I32.tag(), "i32");
    assert_eq!(Column::Byte.tag(), "byte");
}

#[test]
fn tags_read_back() {
    for column in [Column::Str, Column::LongStr, Column::I32, Column::Byte] {
        assert_eq!(Column::from_tag(column.tag()), Some(column));
    }
    assert_eq!(Column::from_tag("block"), None);
    assert_eq!(Column::from_tag(""), None);
    assert_eq!(Column::from_tag("I32"), None);
    assert_eq!(Column::from_tag("str "), None);
}

#[test]
fn same_text_compares_whole_texts() {
    assert!(same_text("abc", "abc"));
    assert!(same_text("", ""));
    assert!(!same_text("abc", "abd"));
    assert!(!same_text("abc", "ab"));
    assert!(!same_text("abc", "ABC"));
}

#[test]
fn integers_become_32_bit_cells() {
    assert_eq!(24i32.to_cell().i32(), Some(24));
    assert_eq!(24i64.to_cell().i32(), Some(24));
    assert_eq!((-3i64).to_cell().i32(), Some(-3));
    assert_eq!(24i16.to_cell().i32(), Some(24));
    assert_eq!((-128i8).to_cell().i32(), Some(-128));
    assert_eq!(24isize.to_cell().i32(), Some(24));
}

#[test]
fn wide_integers_keep_their_low_bits() {
    assert_eq!(((1i64 << 32) + 5).to_cell().i32(), Some(5));
    assert_eq!((i32::MAX as i64 + 1).to_cell().i32(), Some(i32::MIN));
    assert_eq!(i64::MIN.to_cell().i32(), Some(0));
    assert_eq!(i64::MAX.to_cell().i32(), Some(-1));
}

#[test]
fn texts_become_str_cells() {
    assert_eq!("bob".to_cell().string(), Some("bob".to_string()));
    assert_eq!("bob".to_string().to_cell().string(), Some("bob".to_string()));
    let borrowed: &str = "jeff";
    assert_eq!(ToCell::to_cell(borrowed).string(), Some("jeff".to_string()));
    assert_eq!(ColumnValue::I32(9).to_cell().i32(), Some(9));
}
