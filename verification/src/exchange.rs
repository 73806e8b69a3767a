//! The two ends together: what one end writes, the other reads.
//!
//! The laws here follow a request from the client to the server and the
//! answer back, and then a whole fetch over a transport that loses nothing.

use crate::client::{
    after_assembly, assembly_step, fetch_all, fetch_of, fetch_step, lemma_fetch_reassembles,
    resolve_step, slice_step, slices_left, AssemblyStepView, AssemblyView, Attempt, CatStepView,
    EventView, FetchStepView, FetchView, PathWalkView, SliceStepView,
};
use crate::listing::{
    lemma_listing_is_text, lemma_lookup_finds_entry, listed, listing, piece_len, plain, DirEntry,
    SLASH,
};
use crate::message::{encode, lemma_decode_encode, request_view};
use crate::server::{serve_step, served, ServeStepView};
use crate::slicing::{lemma_slice_len, total_slices};
use vstd::prelude::*;
use vstd::utf8::valid_utf8;

verus! {

/// The request that a client sends for a resource that the server has is
/// taken up by the server as that request, whatever follows the frame in
/// the receive buffer.
pub proof fn lemma_request_is_served(count: nat, attempt: Attempt, rest: Seq<u8>)
    requires
        attempt.file < count,
        count <= usize::MAX,
    ensures
        serve_step(count, encode(request_view(attempt.file, attempt.slice)) + rest) == (
        ServeStepView::Inspect {
            request: request_view(attempt.file, attempt.slice),
            index: attempt.file as usize,
        }),
{
    lemma_decode_encode(request_view(attempt.file, attempt.slice), rest);
}

/// The response that a server sends for the slice that an attempt asks for
/// ends the attempt with that response, whatever follows the frame in the
/// receive buffer.
pub proof fn lemma_answer_is_accepted(content: Seq<u8>, attempt: Attempt, rest: Seq<u8>)
    ensures
        slice_step(
            attempt,
            EventView::Datagram(encode(served(content, attempt.file, attempt.slice)) + rest),
        ) == SliceStepView::Done(served(content, attempt.file, attempt.slice)),
        slice_step(
            attempt,
            EventView::Datagram(encode(served(content, attempt.file, attempt.slice))),
        ) == SliceStepView::Done(served(content, attempt.file, attempt.slice)),
{
    lemma_slice_len(content.len(), attempt.slice as nat);
    lemma_decode_encode(served(content, attempt.file, attempt.slice), rest);
}

/// How the fetch `state` ends when every request it sends is answered at
/// once by a server that holds `content`.
pub open spec fn answered_fetch(state: FetchView, content: Seq<u8>) -> FetchStepView
    decreases slices_left(state.assembly),
{
    let answer = encode(served(content, state.attempt.file, state.attempt.slice));
    match fetch_step(state, EventView::Datagram(answer)) {
        FetchStepView::Send(next) => if slices_left(next.assembly) < slices_left(state.assembly) {
            answered_fetch(next, content)
        } else {
            FetchStepView::Send(next)
        },
        other => other,
    }
}

/// A fetch that goes on from `assembly` over a transport that loses
/// nothing ends as the assembly does when it is handed the slices
/// themselves.
proof fn lemma_answered_fetch(assembly: AssemblyView, content: Seq<u8>)
    ensures
        answered_fetch(fetch_of(assembly), content) == after_assembly(fetch_all(assembly, content)),
    decreases slices_left(assembly),
{
    let state = fetch_of(assembly);
    lemma_answer_is_accepted(content, state.attempt, Seq::empty());
    match assembly_step(assembly, served(content, assembly.id(), assembly.next())) {
        AssemblyStepView::More(a) => {
            lemma_answered_fetch(a, content);
        },
        _ => {},
    }
}

/// End to end: over a transport that loses nothing, the fetch of a resource
/// ends with exactly the content that the server holds for it.
pub proof fn lemma_fetch_gets_content(id: u32, content: Seq<u8>)
    requires
        total_slices(content.len()) <= u32::MAX,
    ensures
        answered_fetch(fetch_of(AssemblyView::First { id }), content) == FetchStepView::Done(
            content,
        ),
{
    lemma_fetch_reassembles(id, content);
    lemma_answered_fetch(AssemblyView::First { id }, content);
}

/// Path walk: a listing that the server writes is text, and where the next
/// segment of a path is the name under which the listing holds an entry,
/// the walk goes on at that entry with the rest of the path. This holds for
/// a plain name, with identifier and size within 32 bits, before which the
/// listing holds only other names, plain too.
pub proof fn lemma_walk_follows_listing(
    walk: PathWalkView,
    entries: Seq<DirEntry>,
    paths: Seq<Seq<u8>>,
    i: int,
)
    requires
        0 <= i < entries.len(),
        listed(entries[i]@, paths) matches Some(row) && row.id <= u32::MAX && row.size
            <= u32::MAX && plain(row.name),
        forall|j: int|
            0 <= j < i ==> (#[trigger] listed(entries[j]@, paths) matches Some(other) ==> plain(
                other.name,
            ) && other.name != listed(entries[i]@, paths).unwrap().name),
        walk.rest.len() > 0,
        walk.rest.take(piece_len(walk.rest, SLASH)) == listed(entries[i]@, paths).unwrap().name,
    ensures
        valid_utf8(listing(entries, paths)),
        resolve_step(walk, listing(entries, paths), listing(entries, paths)) == CatStepView::Fetch(
            PathWalkView {
                rest: walk.rest.skip(piece_len(walk.rest, SLASH)),
                resource: listed(entries[i]@, paths).unwrap().id as u32,
            },
        ),
{
    lemma_listing_is_text(entries, paths);
    lemma_lookup_finds_entry(entries, paths, i);
}

} // verus!
