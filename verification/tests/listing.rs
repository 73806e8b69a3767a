use shopkeeper::listing::{
    find_byte, lookup, ls, push_decimal, read_number, read_row, DirEntry, EntryMeta, Row,
};
use shopkeeper::tree::ResourceTree;

fn decimal(n: u64) -> String {
    let mut buf: Vec<u8> = Vec::new();
    push_decimal(&mut buf, n);
    String::from_utf8(buf).unwrap()
}

fn file(path: &str, name: &str, len: u64) -> DirEntry {
    DirEntry {
        path: path.as_bytes().to_vec(),
        name: Some(name.to_string()),
        meta: Some(EntryMeta { is_dir: false, len }),
    }
}

fn dir(path: &str, name: &str, len: u64) -> DirEntry {
    DirEntry {
        path: path.as_bytes().to_vec(),
        name: Some(name.to_string()),
        meta: Some(EntryMeta { is_dir: true, len }),
    }
}

fn index(paths: &[&str]) -> ResourceTree {
    ResourceTree { paths: paths.iter().map(|p| p.as_bytes().to_vec()).collect() }
}

#[test]
fn numbers_are_written_in_decimal() {
    assert_eq!(decimal(0), "0");
    assert_eq!(decimal(7), "7");
    assert_eq!(decimal(10), "10");
    assert_eq!(decimal(1000), "1000");
    assert_eq!(decimal(4294967295), "4294967295");
    assert_eq!(decimal(u64::MAX), "18446744073709551615");
}

#[test]
fn push_decimal_appends() {
    let mut buf = b"id=".to_vec();
    push_decimal(&mut buf, 42);
    assert_eq!(buf, b"id=42".to_vec());
}

#[test]
fn a_file_is_listed_with_its_size() {
    let tree = index(&["/srv", "/srv/a.txt"]);
    let text = ls(&[file("/srv/a.txt", "a.txt", 1000)], &tree);
    assert_eq!(text, b"1:1000:a.txt\n".to_vec());
}

#[test]
fn a_directory_is_listed_with_size_zero_and_a_slash() {
    let tree = index(&["/srv", "/srv/sub", "/srv/sub/f"]);
    let text = ls(&[dir("/srv/sub", "sub", 4096)], &tree);
    assert_eq!(text, b"1:0:sub/\n".to_vec());
}

#[test]
fn entries_are_listed_in_the_order_given() {
    let tree = index(&["/srv", "/srv/b", "/srv/b/x", "/srv/a", "/srv/c"]);
    let entries = [file("/srv/c", "c", 0), dir("/srv/b", "b", 0), file("/srv/a", "a", 12)];
    assert_eq!(ls(&entries, &tree), b"4:0:c\n1:0:b/\n3:12:a\n".to_vec());
}

#[test]
fn an_empty_directory_has_an_empty_listing() {
    assert_eq!(ls(&[], &index(&["/srv"])), Vec::<u8>::new());
}

#[test]
fn entries_that_cannot_be_described_are_left_out() {
    let tree = index(&["/srv", "/srv/a", "/srv/b", "/srv/c"]);
    let unknown = file("/srv/new", "new", 1);
    let unreadable = DirEntry { meta: None, ..file("/srv/a", "a", 1) };
    let unnamed = DirEntry { name: None, ..file("/srv/b", "b", 1) };
    let entries = [unknown, unreadable, unnamed, file("/srv/c", "c", 5)];
    assert_eq!(ls(&entries, &tree), b"3:5:c\n".to_vec());
}

#[test]
fn the_entry_indexed_last_names_a_path_indexed_twice() {
    let tree = index(&["/srv", "/srv/a", "/srv/a"]);
    assert_eq!(ls(&[file("/srv/a", "a", 1)], &tree), b"2:1:a\n".to_vec());
}

#[test]
fn find_byte_gives_the_first_or_the_length() {
    assert_eq!(find_byte(b"a:b:c", 0, b':'), 1);
    assert_eq!(find_byte(b"a:b:c", 1, b':'), 1);
    assert_eq!(find_byte(b"a:b:c", 2, b':'), 3);
    assert_eq!(find_byte(b"a:b:c", 4, b':'), 5);
    assert_eq!(find_byte(b"a:b:c", 5, b':'), 5);
    assert_eq!(find_byte(b"", 0, b':'), 0);
}

#[test]
fn numbers_are_read_as_decimal_with_an_optional_plus() {
    assert_eq!(read_number(b"0"), Some(0));
    assert_eq!(read_number(b"007"), Some(7));
    assert_eq!(read_number(b"+5"), Some(5));
    assert_eq!(read_number(b"1000"), Some(1000));
    assert_eq!(read_number(b"4294967295"), Some(u32::MAX));
    assert_eq!(read_number(b"0000000000004294967295"), Some(u32::MAX));
}

#[test]
fn what_is_no_number_is_not_read() {
    assert_eq!(read_number(b""), None);
    assert_eq!(read_number(b"+"), None);
    assert_eq!(read_number(b"-1"), None);
    assert_eq!(read_number(b"++1"), None);
    assert_eq!(read_number(b"1+"), None);
    assert_eq!(read_number(b"1a"), None);
    assert_eq!(read_number(b" 1"), None);
    assert_eq!(read_number(b"1 "), None);
    assert_eq!(read_number(b"4294967296"), None);
    assert_eq!(read_number(b"99999999999999999999999999"), None);
    assert_eq!(read_number(b"4294967296x"), None);
}

#[test]
fn read_number_agrees_with_the_standard_parser() {
    for text in ["0", "12", "+12", "-12", "", "+", "4294967295", "4294967296", "1_000", "١٢"] {
        assert_eq!(read_number(text.as_bytes()), text.parse::<u32>().ok());
    }
}

#[test]
fn a_row_has_three_fields() {
    assert_eq!(
        read_row(b"1:1000:a.txt"),
        Some(Row { id: 1, size: 1000, name: b"a.txt".to_vec() })
    );
    assert_eq!(read_row(b"2:0:sub/"), Some(Row { id: 2, size: 0, name: b"sub/".to_vec() }));
    assert_eq!(read_row(b"2:0:"), Some(Row { id: 2, size: 0, name: vec![] }));
    assert_eq!(read_row(b""), None);
    assert_eq!(read_row(b"1"), None);
    assert_eq!(read_row(b"1:2"), None);
    assert_eq!(read_row(b"1:2:a:b"), None);
    assert_eq!(read_row(b"1:2:a:"), None);
    assert_eq!(read_row(b"x:2:a"), None);
    assert_eq!(read_row(b"1:y:a"), None);
    assert_eq!(read_row(b":2:a"), None);
    assert_eq!(read_row(b"1::a"), None);
    assert_eq!(read_row(b"1:4294967296:big"), None);
    assert_eq!(read_row(b"4294967296:1:big"), None);
}

#[test]
fn lookup_gives_the_identifier_of_the_named_row() {
    let text = b"4:0:c\n1:0:b/\n3:12:a\n";
    assert_eq!(lookup(text, b"c"), Some(4));
    assert_eq!(lookup(text, b"b/"), Some(1));
    assert_eq!(lookup(text, b"a"), Some(3));
    assert_eq!(lookup(text, b"b"), None);
    assert_eq!(lookup(text, b"a/"), None);
    assert_eq!(lookup(text, b""), None);
    assert_eq!(lookup(b"", b"a"), None);
}

#[test]
fn lookup_takes_the_first_of_equal_names() {
    assert_eq!(lookup(b"5:1:a\n6:1:a\n", b"a"), Some(5));
}

#[test]
fn lookup_passes_over_lines_that_are_no_rows() {
    let text = b"hello\n\nx:1:a\n1:2:3:a\n9:9999999999:a\n7:1:a\n";
    assert_eq!(lookup(text, b"a"), Some(7));
}

#[test]
fn lookup_reads_a_last_line_without_a_newline() {
    assert_eq!(lookup(b"1:1:a\n2:1:b", b"b"), Some(2));
}

#[test]
fn lookup_drops_a_carriage_return_only_before_a_newline() {
    assert_eq!(lookup(b"1:1:a\r\n2:1:b\r\n", b"a"), Some(1));
    assert_eq!(lookup(b"1:1:a\r\n2:1:b\r\n", b"b"), Some(2));
    assert_eq!(lookup(b"1:1:a\r", b"a"), None);
    assert_eq!(lookup(b"1:1:a\r", b"a\r"), Some(1));
    assert_eq!(lookup(b"1:1:a\r\r\n", b"a\r"), Some(1));
}

#[test]
fn lookup_agrees_with_line_and_field_splitting_of_text() {
    let text = "1:1:a\r\n\n2:2:b:c\n+3:03:d\n4:4:e\r";
    for name in ["a", "b", "b:c", "c", "d", "e", "e\r", ""] {
        let expected = text
            .lines()
            .filter_map(|row| {
                let fields: Vec<&str> = row.split(':').collect();
                if fields.len() != 3 {
                    return None;
                }
                let id = fields[0].parse::<u32>().ok()?;
                fields[1].parse::<u32>().ok()?;
                Some((id, fields[2]))
            })
            .find(|(_, n)| *n == name)
            .map(|(id, _)| id);
        assert_eq!(lookup(text.as_bytes(), name.as_bytes()), expected);
    }
}

#[test]
fn what_ls_writes_lookup_reads() {
    let tree = index(&["/srv", "/srv/b", "/srv/b/x", "/srv/a", "/srv/c"]);
    let entries = [file("/srv/c", "c", 7), dir("/srv/b", "b", 0), file("/srv/a", "a", 12)];
    let text = ls(&entries, &tree);
    assert_eq!(lookup(&text, b"c"), Some(4));
    assert_eq!(lookup(&text, b"b/"), Some(1));
    assert_eq!(lookup(&text, b"a"), Some(3));
}
