//! The server's decisions: which datagrams are answered, and with what.
//!
//! A datagram is answered in up to three steps, between which the caller
//! looks at the filesystem. [`serve`] reads the datagram and names the
//! resource asked for. The caller finds out what that resource is now, and
//! [`respond`] either writes the answer (a directory, from its listing) or
//! says which bytes to read (a file). The caller reads them, and [`reply`]
//! writes the answer. A datagram that cannot be answered is dropped: the
//! client gets nothing and runs into its timeouts.

use crate::common::SLICE_SIZE;
use crate::listing::{listing, ls, DirEntry};
use crate::message::{
    decode, encode, encode_message, parse_message, request_view, response, response_view, Message,
    MessageView, REQUEST,
};
use crate::slicing::{
    get_file_slice, get_slice, lemma_slice_body_len, lemma_slice_len, lemma_total_slices,
    slice_body, slice_len, slice_offset, total_slices,
};
use crate::tree::ResourceTree;
use vstd::prelude::*;

verus! {

/// Why a datagram gets no answer.
#[derive(Debug, Clone, Copy, PartialEq, Eq)]
pub enum DropReason {
    /// The datagram is no frame.
    MalformedFrame,
    /// The frame is no request.
    NotARequest,
    /// No resource has the identifier asked for.
    ResourceNotFound,
    /// The resource is neither a file nor a directory, or is gone.
    NotAFileOrDirectory,
    /// The resource has more slices than a response can report.
    TooManySlices,
}

/// The response of a server that holds `content` as resource `id` to the
/// request for slice `k`.
pub open spec fn served(content: Seq<u8>, id: u32, k: u32) -> MessageView {
    response_view(
        request_view(id, k),
        slice_body(content, k as nat),
        total_slices(content.len()) as u32,
    )
}

/// What to do with a datagram that has arrived.
#[derive(Debug, Clone, PartialEq, Eq)]
pub enum ServeStep {
    /// Look at the resource with this index in the tree and go on with
    /// [`respond`].
    Inspect { request: Message, index: usize },
    /// Send nothing.
    Drop(DropReason),
}

/// What a [`ServeStep`] holds.
pub enum ServeStepView {
    Inspect { request: MessageView, index: usize },
    Drop(DropReason),
}

impl View for ServeStep {
    type V = ServeStepView;

    open spec fn view(&self) -> ServeStepView {
        match self {
            ServeStep::Inspect { request, index } => ServeStepView::Inspect {
                request: request@,
                index: *index,
            },
            ServeStep::Drop(reason) => ServeStepView::Drop(*reason),
        }
    }
}

/// What is done with `datagram` by a server with `count` resources: a
/// well-formed request for one of them is looked into, anything else is
/// dropped.
pub open spec fn serve_step(count: nat, datagram: Seq<u8>) -> ServeStepView {
    match decode(datagram) {
        None => ServeStepView::Drop(DropReason::MalformedFrame),
        Some(request) => if request.kind != REQUEST {
            ServeStepView::Drop(DropReason::NotARequest)
        } else if request.file >= count {
            ServeStepView::Drop(DropReason::ResourceNotFound)
        } else {
            ServeStepView::Inspect { request, index: request.file as usize }
        },
    }
}

/// Reads a datagram and names the resource it asks for.
pub fn serve(tree: &ResourceTree, datagram: &[u8]) -> (step: ServeStep)
    ensures
        step@ == serve_step(tree@.len(), datagram@),
{
    match parse_message(datagram) {
        None => ServeStep::Drop(DropReason::MalformedFrame),
        Some(request) => {
            if request.mtype != REQUEST {
                ServeStep::Drop(DropReason::NotARequest)
            } else if request.file as usize >= tree.len() {
                ServeStep::Drop(DropReason::ResourceNotFound)
            } else {
                let index = request.file as usize;
                ServeStep::Inspect { request, index }
            }
        },
    }
}

/// What a resource turned out to be when it was looked at.
#[derive(Debug, Clone, PartialEq, Eq)]
pub enum Resource {
    /// A directory with these entries, in the order the filesystem gave
    /// them.
    Directory(Vec<DirEntry>),
    /// A regular file of this many bytes.
    File(u64),
    /// Anything else, or nothing.
    Other,
}

/// A slice of a file that is to be read and sent.
#[derive(Debug, Clone, PartialEq, Eq)]
pub struct Pending {
    /// The request being answered.
    pub request: Message,
    /// Offset of the first byte to read.
    pub offset: u64,
    /// Number of bytes to read.
    pub len: usize,
    /// Number of slices of the file.
    pub total: u32,
}

/// What to do for a request once its resource has been looked at.
#[derive(Debug, Clone, PartialEq, Eq)]
pub enum RespondStep {
    /// Send this frame.
    Send(Vec<u8>),
    /// Read this range of the file and go on with [`reply`].
    Read(Pending),
    /// Send nothing.
    Drop(DropReason),
}

/// What a [`RespondStep`] holds.
pub enum RespondStepView {
    Send(Seq<u8>),
    Read { request: MessageView, offset: u64, len: usize, total: u32 },
    Drop(DropReason),
}

impl View for RespondStep {
    type V = RespondStepView;

    open spec fn view(&self) -> RespondStepView {
        match self {
            RespondStep::Send(frame) => RespondStepView::Send(frame@),
            RespondStep::Read(pending) => RespondStepView::Read {
                request: pending.request@,
                offset: pending.offset,
                len: pending.len,
                total: pending.total,
            },
            RespondStep::Drop(reason) => RespondStepView::Drop(*reason),
        }
    }
}

/// What is done for `request` when its resource is a directory with the
/// listing `text`: the slice asked for is sent, with the slice count of the
/// listing.
pub open spec fn respond_listing(request: MessageView, text: Seq<u8>) -> RespondStepView {
    if total_slices(text.len()) > u32::MAX {
        RespondStepView::Drop(DropReason::TooManySlices)
    } else {
        RespondStepView::Send(encode(served(text, request.file, request.slice)))
    }
}

/// What is done for `request` when its resource is a file of `len` bytes:
/// the range of the slice asked for is to be read.
pub open spec fn respond_file(request: MessageView, len: nat) -> RespondStepView {
    if total_slices(len) > u32::MAX {
        RespondStepView::Drop(DropReason::TooManySlices)
    } else {
        RespondStepView::Read {
            request,
            offset: slice_offset(len, request.slice as nat) as u64,
            len: slice_len(len, request.slice as nat) as usize,
            total: total_slices(len) as u32,
        }
    }
}

/// What is done for `request` when its resource turned out to be
/// `resource`, by a server that has indexed `paths`.
pub open spec fn respond_step(
    paths: Seq<Seq<u8>>,
    request: MessageView,
    resource: Resource,
) -> RespondStepView {
    match resource {
        Resource::Directory(entries) => respond_listing(request, listing(entries@, paths)),
        Resource::File(len) => respond_file(request, len as nat),
        Resource::Other => RespondStepView::Drop(DropReason::NotAFileOrDirectory),
    }
}

/// Decides what to do for `request` now that its resource has been looked
/// at.
pub fn respond(tree: &ResourceTree, request: Message, resource: &Resource) -> (step: RespondStep)
    ensures
        step@ == respond_step(tree@, request@, *resource),
{
    match resource {
        Resource::Directory(entries) => {
            let text = ls(entries.as_slice(), tree);
            let (body, total) = get_slice(text.as_slice(), request.slice as usize);
            if total > u32::MAX as usize {
                RespondStep::Drop(DropReason::TooManySlices)
            } else {
                proof {
                    lemma_slice_body_len(text@, request.slice as nat);
                    lemma_slice_len(text@.len(), request.slice as nat);
                }
                RespondStep::Send(encode_message(&response(request, body, total as u32)))
            }
        },
        Resource::File(len) => {
            let range = get_file_slice(*len, request.slice as usize);
            if range.total > u32::MAX as u64 {
                RespondStep::Drop(DropReason::TooManySlices)
            } else {
                RespondStep::Read(
                    Pending {
                        request,
                        offset: range.offset,
                        len: range.len,
                        total: range.total as u32,
                    },
                )
            }
        },
        Resource::Other => RespondStep::Drop(DropReason::NotAFileOrDirectory),
    }
}

/// The frame that answers `pending` with the bytes `body`, unless they are
/// more than a response can carry.
pub open spec fn reply_frame(request: MessageView, total: u32, body: Seq<u8>) -> Option<Seq<u8>> {
    if body.len() > SLICE_SIZE {
        None
    } else {
        Some(encode(response_view(request, body, total)))
    }
}

/// Writes the answer to a request for a slice of a file from the bytes
/// that were read.
pub fn reply(pending: Pending, body: Vec<u8>) -> (frame: Option<Vec<u8>>)
    ensures
        frame is Some ==> reply_frame(pending.request@, pending.total, body@) == Some(
            frame.unwrap()@,
        ),
        frame is None ==> reply_frame(pending.request@, pending.total, body@) is None,
{
    if body.len() > SLICE_SIZE {
        None
    } else {
        Some(encode_message(&response(pending.request, body, pending.total)))
    }
}

/// What a server sends for a slice numbered from 1 is a valid message: a
/// response with a body of at most one slice.
pub proof fn lemma_served_is_valid(content: Seq<u8>, id: u32, k: u32)
    requires
        k >= 1,
    ensures
        served(content, id, k).valid(),
{
    lemma_slice_len(content.len(), k as nat);
}

/// A file is answered with its slices: [`respond`] names the range of the
/// slice asked for, which lies within the file, and [`reply`] on the bytes
/// of that range gives the response with that slice and the slice count of
/// the file.
pub proof fn lemma_file_answer(request: MessageView, content: Seq<u8>)
    requires
        total_slices(content.len()) <= u32::MAX,
    ensures
        respond_file(request, content.len()) == (RespondStepView::Read {
            request,
            offset: slice_offset(content.len(), request.slice as nat) as u64,
            len: slice_len(content.len(), request.slice as nat) as usize,
            total: total_slices(content.len()) as u32,
        }),
        slice_offset(content.len(), request.slice as nat) + slice_len(
            content.len(),
            request.slice as nat,
        ) <= content.len() <= u64::MAX,
        slice_len(content.len(), request.slice as nat) <= SLICE_SIZE,
        reply_frame(
            request,
            total_slices(content.len()) as u32,
            slice_body(content, request.slice as nat),
        ) == Some(encode(served(content, request.file, request.slice))),
{
    lemma_slice_len(content.len(), request.slice as nat);
    lemma_total_slices(content.len());
    assert(content.len() <= total_slices(content.len()) * 381);
}

/// Idempotence: the steps of the server are functions of what they are
/// given. Two runs on the same datagram, with the snapshot, the resource
/// and the bytes read unchanged, end in the same step, and where they send,
/// in the same bytes.
pub proof fn lemma_same_request_same_answer(
    tree: ResourceTree,
    datagram: &[u8],
    request: Message,
    resource: Resource,
    pending: Pending,
    body: Vec<u8>,
    served: (ServeStep, ServeStep),
    responded: (RespondStep, RespondStep),
    replied: (Option<Vec<u8>>, Option<Vec<u8>>),
)
    requires
        call_ensures(serve, (&tree, datagram), served.0),
        call_ensures(serve, (&tree, datagram), served.1),
        call_ensures(respond, (&tree, request, &resource), responded.0),
        call_ensures(respond, (&tree, request, &resource), responded.1),
        call_ensures(reply, (pending, body), replied.0),
        call_ensures(reply, (pending, body), replied.1),
    ensures
        served.0@ == served.1@,
        responded.0@ == responded.1@,
        replied.0 is Some <==> replied.1 is Some,
        replied.0 is Some ==> replied.0.unwrap()@ == replied.1.unwrap()@,
{
}

} // verus!
