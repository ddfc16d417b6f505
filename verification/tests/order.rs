use shudb::storage::order::{bytes_eq, bytes_lt};

#[test]
fn byte_strings_are_ordered_as_slices() {
    let samples: [&[u8]; 9] = [
        b"", b"\0", b"\0\0", b"a", b"aa", b"ab", b"b", b"\xff", b"\xff\0",
    ];
    for (i, a) in samples.iter().enumerate() {
        for (j, b) in samples.iter().enumerate() {
            assert_eq!(bytes_lt(a, b), i < j);
            assert_eq!(bytes_lt(a, b), a < b);
            assert_eq!(bytes_eq(a, b), i == j);
        }
    }
}
