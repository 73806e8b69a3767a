use shopkeeper::common::{MESSAGE_SIZE, SLICE_SIZE};
use shopkeeper::slicing::{get_file_slice, get_slice, get_str_slice, last_slice, FileSlice};

fn content(len: usize) -> Vec<u8> {
    (0..len).map(|i| (i % 251) as u8).collect()
}

#[test]
fn slice_size_is_what_a_datagram_leaves_after_the_header() {
    assert_eq!(MESSAGE_SIZE, 400);
    assert_eq!(SLICE_SIZE, 381);
}

#[test]
fn slice_count_rounds_up() {
    assert_eq!(last_slice(0), 0);
    assert_eq!(last_slice(1), 1);
    assert_eq!(last_slice(380), 1);
    assert_eq!(last_slice(381), 1);
    assert_eq!(last_slice(382), 2);
    assert_eq!(last_slice(762), 2);
    assert_eq!(last_slice(763), 3);
    assert_eq!(last_slice(1000), 3);
}

#[test]
fn thousand_bytes_make_three_slices() {
    let data = content(1000);
    let (first, total) = get_slice(&data, 1);
    assert_eq!(total, 3);
    assert_eq!(first, data[..381].to_vec());
    let (second, _) = get_slice(&data, 2);
    assert_eq!(second, data[381..762].to_vec());
    let (third, _) = get_slice(&data, 3);
    assert_eq!(third.len(), 238);
    assert_eq!(third, data[762..].to_vec());
}

#[test]
fn a_slice_beyond_the_last_is_empty_and_the_count_still_told() {
    let data = content(1000);
    assert_eq!(get_slice(&data, 4), (vec![], 3));
    assert_eq!(get_slice(&data, usize::MAX), (vec![], 3));
    assert_eq!(get_slice(&data, 0), (vec![], 3));
}

#[test]
fn the_last_slice_of_an_exact_multiple_is_full() {
    let data = content(2 * SLICE_SIZE);
    let (last, total) = get_slice(&data, 2);
    assert_eq!(total, 2);
    assert_eq!(last.len(), SLICE_SIZE);
    assert_eq!(get_slice(&data, 3), (vec![], 2));
    let one = content(SLICE_SIZE);
    assert_eq!(get_slice(&one, 1), (one.clone(), 1));
}

#[test]
fn empty_content_has_no_slices() {
    assert_eq!(get_slice(&[], 1), (vec![], 0));
    assert_eq!(get_str_slice("", 1), (vec![], 0));
}

#[test]
fn slices_joined_in_order_are_the_content() {
    for len in [0usize, 1, 380, 381, 382, 762, 763, 1000, 1143, 1144] {
        let data = content(len);
        let total = last_slice(len);
        let mut joined: Vec<u8> = Vec::new();
        for k in 1..=total {
            let (body, told) = get_slice(&data, k);
            assert_eq!(told, total);
            if k < total {
                assert_eq!(body.len(), SLICE_SIZE);
            } else {
                assert!(1 <= body.len() && body.len() <= SLICE_SIZE);
            }
            joined.extend_from_slice(&body);
        }
        assert_eq!(joined, data);
    }
}

#[test]
fn text_is_sliced_by_its_bytes() {
    let text = "é".repeat(200);
    assert_eq!(text.len(), 400);
    let (first, total) = get_str_slice(&text, 1);
    assert_eq!(total, 2);
    assert_eq!(first, text.as_bytes()[..381].to_vec());
    let (second, _) = get_str_slice(&text, 2);
    assert_eq!(second, text.as_bytes()[381..].to_vec());
}

#[test]
fn file_slices_are_located_without_reading() {
    assert_eq!(get_file_slice(1000, 1), FileSlice { offset: 0, len: 381, total: 3 });
    assert_eq!(get_file_slice(1000, 2), FileSlice { offset: 381, len: 381, total: 3 });
    assert_eq!(get_file_slice(1000, 3), FileSlice { offset: 762, len: 238, total: 3 });
    assert_eq!(get_file_slice(1000, 4), FileSlice { offset: 0, len: 0, total: 3 });
    assert_eq!(get_file_slice(1000, 0), FileSlice { offset: 0, len: 0, total: 3 });
    assert_eq!(get_file_slice(762, 2), FileSlice { offset: 381, len: 381, total: 2 });
    assert_eq!(get_file_slice(0, 1), FileSlice { offset: 0, len: 0, total: 0 });
}

#[test]
fn file_slices_agree_with_slices_cut_from_memory() {
    for len in [0usize, 1, 381, 382, 762, 1000] {
        let data = content(len);
        for k in 0..6 {
            let range = get_file_slice(len as u64, k);
            let (body, total) = get_slice(&data, k);
            assert_eq!(range.total, total as u64);
            let start = range.offset as usize;
            assert_eq!(data[start..start + range.len].to_vec(), body);
        }
    }
}

#[test]
fn huge_files_are_located_without_overflow() {
    let len = u64::MAX;
    let total = len / 381 + 1;
    let range = get_file_slice(len, 2);
    assert_eq!(range, FileSlice { offset: 381, len: 381, total });
}
