use shopkeeper::listing::{DirEntry, EntryMeta};
use shopkeeper::message::{encode_message, parse_message, request, response, Message};
use shopkeeper::server::{
    reply, respond, serve, DropReason, Pending, Resource, RespondStep, ServeStep,
};
use shopkeeper::tree::ResourceTree;

fn index() -> ResourceTree {
    ResourceTree { paths: vec![b"/srv".to_vec(), b"/srv/a.txt".to_vec()] }
}

fn root_entries() -> Vec<DirEntry> {
    vec![DirEntry {
        path: b"/srv/a.txt".to_vec(),
        name: Some("a.txt".to_string()),
        meta: Some(EntryMeta { is_dir: false, len: 1000 }),
    }]
}

#[test]
fn a_request_for_a_known_resource_is_looked_into() {
    let req = request(1, 3);
    let step = serve(&index(), &encode_message(&req));
    assert_eq!(step, ServeStep::Inspect { request: req, index: 1 });
}

#[test]
fn a_request_in_a_receive_buffer_is_looked_into() {
    let req = request(0, 1);
    let mut buffer = encode_message(&req);
    buffer.resize(400, 0);
    assert_eq!(serve(&index(), &buffer), ServeStep::Inspect { request: req, index: 0 });
}

#[test]
fn a_malformed_datagram_is_dropped() {
    assert_eq!(serve(&index(), &[]), ServeStep::Drop(DropReason::MalformedFrame));
    assert_eq!(serve(&index(), &[0u8; 18]), ServeStep::Drop(DropReason::MalformedFrame));
    let mut frame = encode_message(&request(0, 1));
    frame[5] ^= 0x10;
    assert_eq!(serve(&index(), &frame), ServeStep::Drop(DropReason::MalformedFrame));
}

#[test]
fn a_frame_that_is_no_request_is_dropped() {
    let res = response(request(0, 1), vec![1, 2, 3], 1);
    assert_eq!(serve(&index(), &encode_message(&res)), ServeStep::Drop(DropReason::NotARequest));
    let odd = Message { mtype: 0, ..request(0, 1) };
    assert_eq!(serve(&index(), &encode_message(&odd)), ServeStep::Drop(DropReason::NotARequest));
}

#[test]
fn a_request_for_an_unknown_resource_is_dropped() {
    let tree = index();
    assert_eq!(
        serve(&tree, &encode_message(&request(2, 1))),
        ServeStep::Drop(DropReason::ResourceNotFound)
    );
    assert_eq!(
        serve(&tree, &encode_message(&request(u32::MAX, 1))),
        ServeStep::Drop(DropReason::ResourceNotFound)
    );
    assert!(serve(&tree, &encode_message(&request(1, 1))) != ServeStep::Drop(DropReason::ResourceNotFound));
}

#[test]
fn a_directory_is_answered_with_a_slice_of_its_listing() {
    let step = respond(&index(), request(0, 1), &Resource::Directory(root_entries()));
    let frame = match step {
        RespondStep::Send(frame) => frame,
        other => panic!("{:?}", other),
    };
    assert_eq!(
        parse_message(&frame),
        Some(Message {
            mtype: 2,
            slice: 1,
            last_slice: 1,
            file: 0,
            body: b"1:1000:a.txt\n".to_vec()
        })
    );
}

#[test]
fn an_empty_directory_is_answered_with_no_slices() {
    let step = respond(&index(), request(0, 1), &Resource::Directory(vec![]));
    let expected = encode_message(&response(request(0, 1), vec![], 0));
    assert_eq!(step, RespondStep::Send(expected));
}

#[test]
fn a_file_is_answered_by_reading_the_range_of_the_slice() {
    let tree = index();
    let file = Resource::File(1000);
    assert_eq!(
        respond(&tree, request(1, 1), &file),
        RespondStep::Read(Pending { request: request(1, 1), offset: 0, len: 381, total: 3 })
    );
    assert_eq!(
        respond(&tree, request(1, 3), &file),
        RespondStep::Read(Pending { request: request(1, 3), offset: 762, len: 238, total: 3 })
    );
    assert_eq!(
        respond(&tree, request(1, 4), &file),
        RespondStep::Read(Pending { request: request(1, 4), offset: 0, len: 0, total: 3 })
    );
}

#[test]
fn a_file_of_a_whole_number_of_slices_ends_with_a_full_slice() {
    assert_eq!(
        respond(&index(), request(1, 2), &Resource::File(762)),
        RespondStep::Read(Pending { request: request(1, 2), offset: 381, len: 381, total: 2 })
    );
}

#[test]
fn what_is_neither_file_nor_directory_is_dropped() {
    assert_eq!(
        respond(&index(), request(1, 1), &Resource::Other),
        RespondStep::Drop(DropReason::NotAFileOrDirectory)
    );
}

#[test]
fn a_file_with_more_slices_than_can_be_told_is_dropped() {
    let limit = 381 * (u32::MAX as u64);
    assert_eq!(
        respond(&index(), request(1, 1), &Resource::File(limit + 1)),
        RespondStep::Drop(DropReason::TooManySlices)
    );
    assert_eq!(
        respond(&index(), request(1, u32::MAX), &Resource::File(limit)),
        RespondStep::Read(Pending {
            request: request(1, u32::MAX),
            offset: limit - 381,
            len: 381,
            total: u32::MAX
        })
    );
}

#[test]
fn reply_frames_the_bytes_read() {
    let pending = Pending { request: request(1, 3), offset: 762, len: 238, total: 3 };
    let body = vec![7u8; 238];
    let frame = reply(pending, body.clone()).unwrap();
    assert_eq!(
        parse_message(&frame),
        Some(Message { mtype: 2, slice: 3, last_slice: 3, file: 1, body })
    );
}

#[test]
fn reply_refuses_more_than_a_slice() {
    let pending = Pending { request: request(1, 1), offset: 0, len: 381, total: 3 };
    assert!(reply(pending.clone(), vec![0u8; 381]).is_some());
    assert_eq!(reply(pending, vec![0u8; 382]), None);
}

#[test]
fn the_same_request_gets_the_same_answer() {
    let tree = index();
    let datagram = encode_message(&request(0, 1));
    assert_eq!(serve(&tree, &datagram), serve(&tree, &datagram));
    let resource = Resource::Directory(root_entries());
    let first = respond(&tree, request(0, 1), &resource);
    let second = respond(&tree, request(0, 1), &resource);
    assert_eq!(first, second);
    let pending = Pending { request: request(1, 2), offset: 381, len: 381, total: 3 };
    assert_eq!(reply(pending.clone(), vec![5u8; 381]), reply(pending, vec![5u8; 381]));
}
