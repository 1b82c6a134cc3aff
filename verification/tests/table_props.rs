use rust_cfs::proc::table::{parse_table, TableError};
use rust_cfs::proc::task::TaskChar;

fn shape(descriptor: &TaskChar) -> (u16, usize, usize, u64, u32) {
    (
        descriptor.get_id(),
        descriptor.get_cpu_time(),
        descriptor.get_cpu_burst_length(),
        descriptor.get_io_burst_length(),
        descriptor.get_weight(),
    )
}

fn shapes(text: &[u8]) -> Vec<(u16, usize, usize, u64, u32)> {
    let found = parse_table(text).unwrap();
    found.iter().map(shape).collect()
}

#[test]
fn empty_table_has_no_tasks() {
    assert!(shapes(b"").is_empty());
    assert!(shapes(b"\n").is_empty());
    assert!(shapes(b"\n\n  \t \n").is_empty());
}

#[test]
fn one_task_per_line() {
    assert_eq!(shapes(b"50 9 1 4\n50 3 7 2\n"), vec![(1, 50, 9, 1, 4), (2, 50, 3, 7, 2)]);
    assert_eq!(shapes(b"50 9 1 4\n50 3 7 2"), vec![(1, 50, 9, 1, 4), (2, 50, 3, 7, 2)]);
    assert_eq!(shapes(b"50 9 1 4"), vec![(1, 50, 9, 1, 4)]);
}

#[test]
fn identifier_is_the_line_number() {
    assert_eq!(shapes(b"\n\n7 8 9 10\n\n1 2 3 4\n"), vec![(3, 7, 8, 9, 10), (5, 1, 2, 3, 4)]);
}

#[test]
fn short_lines_describe_no_task() {
    assert_eq!(shapes(b"1 2 3\n4 5 6 7\nx\n"), vec![(2, 4, 5, 6, 7)]);
    assert!(shapes(b"a b c").is_empty());
}

#[test]
fn fields_beyond_the_fourth_are_ignored() {
    assert_eq!(shapes(b"1 2 3 4 5 six 7\n"), vec![(1, 1, 2, 3, 4)]);
}

#[test]
fn blanks_of_any_kind_separate_fields() {
    assert_eq!(shapes(b"  1\t2\x0b3\x0c4  \r\n\t9   8 7\t6\r\n"), vec![(1, 1, 2, 3, 4), (2, 9, 8, 7, 6)]);
}

#[test]
fn numbers_may_carry_a_plus_sign_and_leading_zeros() {
    assert_eq!(shapes(b"+5 007 +0 0000000000000000000000012\n"), vec![(1, 5, 7, 0, 12)]);
}

#[test]
fn largest_numbers_are_read() {
    assert_eq!(
        shapes(b"18446744073709551615 1 18446744073709551615 4294967295"),
        vec![(1, 18446744073709551615, 1, 18446744073709551615, 4294967295)]
    );
}

#[test]
fn a_field_that_is_no_number_is_an_error() {
    assert_eq!(parse_table(b"1 2 x 4\n").err(), Some(TableError::BadNumber { line: 1 }));
    assert_eq!(parse_table(b"1 2 3 4\n1 2 3 -4\n").err(), Some(TableError::BadNumber { line: 2 }));
    assert_eq!(parse_table(b"+ 2 3 4\n").err(), Some(TableError::BadNumber { line: 1 }));
    assert_eq!(parse_table(b"1 2 3 4.5\n").err(), Some(TableError::BadNumber { line: 1 }));
    assert_eq!(parse_table(b"1 ++2 3 4\n").err(), Some(TableError::BadNumber { line: 1 }));
    assert_eq!(parse_table(b"\n\n1 2 3 4\n12a 2 3 4\n5 6 7 +\n").err(), Some(TableError::BadNumber { line: 4 }));
}

#[test]
fn a_number_too_large_for_its_place_is_an_error() {
    assert_eq!(
        parse_table(b"18446744073709551616 1 1 1\n").err(),
        Some(TableError::BadNumber { line: 1 })
    );
    assert_eq!(
        parse_table(b"1 1 99999999999999999999999999 1\n").err(),
        Some(TableError::BadNumber { line: 1 })
    );
    assert_eq!(parse_table(b"1 1 1 4294967296\n").err(), Some(TableError::BadNumber { line: 1 }));
}

#[test]
fn a_task_beyond_the_last_identifier_is_an_error() {
    let mut text: Vec<u8> = vec![b'\n'; 65534];
    text.extend_from_slice(b"1 2 3 4\n");
    assert_eq!(shapes(&text), vec![(65535, 1, 2, 3, 4)]);
    text.extend_from_slice(b"\n\n");
    assert_eq!(shapes(&text), vec![(65535, 1, 2, 3, 4)]);
    text.extend_from_slice(b"5 6 7 8\n");
    assert_eq!(parse_table(&text).err(), Some(TableError::TooManyLines { line: 65538 }));
}

#[test]
fn a_zero_in_the_table_gives_an_invalid_descriptor() {
    let found = parse_table(b"5 0 1 1\n5 1 1 1\n").unwrap();
    assert_eq!(found.len(), 2);
    assert!(!found[0].is_valid());
    assert!(found[1].is_valid());
}
