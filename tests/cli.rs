use dynamixel::cli::{values_for_ids, ValuesError};
use dynamixel::cli::{parse_with_radix, IdRange, MultiReadSpec, MultiWriteSpec, RangeError};

fn bad(s: &str) -> RangeError {
    RangeError::BadRange(s.to_string())
}

#[test]
fn id_range_single_and_ranges_sorted() {
    assert_eq!(IdRange::parse("3").unwrap(), IdRange(vec![3]));
    assert_eq!(IdRange::parse("5,1,3-4").unwrap(), IdRange(vec![1, 3, 4, 5]));
    assert_eq!(IdRange::parse("7-5").unwrap(), IdRange(vec![5, 6, 7]));
    assert_eq!(IdRange::parse("2,2").unwrap(), IdRange(vec![2, 2]));
    assert_eq!(IdRange::parse("250-255").unwrap().0.len(), 6);
}

#[test]
fn id_range_errors_name_the_part() {
    assert_eq!(IdRange::parse("1,x"), Err(bad("x")));
    assert_eq!(IdRange::parse("1,256"), Err(bad("256")));
    assert_eq!(IdRange::parse(""), Err(bad("")));
    assert_eq!(IdRange::parse("1,"), Err(bad("")));
    assert_eq!(IdRange::parse("1-2-3"), Err(bad("1-2-3")));
    assert_eq!(IdRange::parse("-3"), Err(bad("-3")));
}

#[test]
fn multi_read_spec_parse() {
    assert_eq!(
        MultiReadSpec::parse("1:36:2"),
        Ok(MultiReadSpec { id: 1, address: 36, size: 2 })
    );
    assert_eq!(MultiReadSpec::parse("256:36:2"), Err(bad("256:36:2")));
    assert_eq!(MultiReadSpec::parse("1:36"), Err(bad("1:36")));
    assert_eq!(MultiReadSpec::parse("1:36:2:4"), Err(bad("1:36:2:4")));
    assert_eq!(MultiReadSpec::parse("1:65536:2"), Err(bad("1:65536:2")));
}

#[test]
fn multi_write_spec_parse() {
    assert_eq!(
        MultiWriteSpec::parse("2:116:00ff10Ab"),
        Ok(MultiWriteSpec { id: 2, address: 116, data: vec![0x00, 0xFF, 0x10, 0xAB] })
    );
    assert_eq!(MultiWriteSpec::parse("2:116:0"), Err(bad("2:116:0")));
    assert_eq!(MultiWriteSpec::parse("2:116:"), Err(bad("2:116:")));
    assert_eq!(MultiWriteSpec::parse("2:116:zz"), Err(bad("2:116:zz")));
}

#[test]
fn numbers_in_three_radixes() {
    assert_eq!(parse_with_radix("42", 255), Some(42));
    assert_eq!(parse_with_radix("0x2B", 255), Some(43));
    assert_eq!(parse_with_radix("0b101", 255), Some(5));
    assert_eq!(parse_with_radix("+7", 255), Some(7));
    assert_eq!(parse_with_radix("256", 255), None);
    assert_eq!(parse_with_radix("0x", 255), None);
    assert_eq!(parse_with_radix("", 255), None);
    assert_eq!(parse_with_radix("0b2", 255), None);
    assert_eq!(parse_with_radix("4294967295", u32::MAX), Some(u32::MAX));
    assert_eq!(parse_with_radix("4294967296", u32::MAX), None);
    assert_eq!(parse_with_radix("0x0x10", 255), Some(16));
}

#[test]
fn write_values_per_id() {
    let one = vec![vec![1u8, 0]];
    assert_eq!(values_for_ids(false, 3, &one), Ok(vec![vec![1, 0], vec![1, 0], vec![1, 0]]));
    assert_eq!(values_for_ids(true, 2, &one), Ok(vec![vec![1, 0], vec![1, 0]]));
    let two = vec![vec![1u8], vec![2u8]];
    assert_eq!(values_for_ids(true, 2, &two), Ok(two.clone()));
    assert_eq!(values_for_ids(false, 2, &two), Err(ValuesError::MultipleWithoutSync));
    assert_eq!(values_for_ids(true, 3, &two), Err(ValuesError::CountMismatch));
}
