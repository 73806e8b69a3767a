//! The client's decisions: how one slice is asked for until it is answered,
//! how the slices of a resource are joined, and how a path is resolved one
//! directory at a time.
//!
//! Nothing here touches a socket. The caller sends, waits and sleeps; it
//! reports each outcome as an [`Event`] and is told what to do next.

use crate::bytes::push_bytes;
use crate::common::{MAX_TIMEOUTS, SLICE_SIZE};
use crate::listing::{find_byte, find_entry, lemma_first_index, lookup, piece_len, SLASH};
use crate::message::{
    answers, decode, encode, encode_message, parse_message, request, request_view, Message,
    MessageView, HEADER_LEN,
};
use crate::server::served;
use crate::slicing::{
    joined_slices, lemma_joined_slices, lemma_slice_len, slice_body, total_slices,
};
use vstd::prelude::*;
use vstd::slice::slice_subrange;
use vstd::string::StringSliceAdditionalSpecFns;
use vstd::utf8::valid_utf8;

verus! {

/// Why a fetch ended without a result.
#[derive(Debug, Clone, Copy, PartialEq, Eq)]
pub enum Failure {
    /// A datagram arrived that is no frame, or a response broke the slicing
    /// rule. Not retried.
    MalformedFrame,
    /// No answer came within the timeout, as many times as are allowed.
    RetryExhausted,
    /// A segment of the path is not in the listing of its directory.
    ResourceNotFound,
}

/// What happened to the last send or receive.
#[derive(Debug, Clone, PartialEq, Eq)]
pub enum Event {
    /// The request could not be sent.
    SendFailed,
    /// No datagram arrived within the timeout.
    Timeout,
    /// A datagram arrived.
    Datagram(Vec<u8>),
}

/// What an [`Event`] holds.
pub enum EventView {
    SendFailed,
    Timeout,
    Datagram(Seq<u8>),
}

impl View for Event {
    type V = EventView;

    open spec fn view(&self) -> EventView {
        match self {
            Event::SendFailed => EventView::SendFailed,
            Event::Timeout => EventView::Timeout,
            Event::Datagram(bytes) => EventView::Datagram(bytes@),
        }
    }
}

/// One slice being asked for: which one, and how many timeouts it has
/// cost so far.
#[derive(Debug, Clone, Copy, PartialEq, Eq)]
pub struct Attempt {
    pub file: u32,
    pub slice: u32,
    pub timeouts: u8,
}

/// What to do next for a slice.
#[derive(Debug, Clone, PartialEq, Eq)]
pub enum SliceStep {
    /// Send the request, then wait for a datagram.
    Send(Attempt),
    /// Sleep for the send backoff, send the request, then wait for a
    /// datagram.
    Backoff(Attempt),
    /// Wait for another datagram without sending again.
    Receive(Attempt),
    /// The slice has arrived.
    Done(Message),
    /// The slice is given up.
    Failed(Failure),
}

/// What a [`SliceStep`] holds.
pub enum SliceStepView {
    Send(Attempt),
    Backoff(Attempt),
    Receive(Attempt),
    Done(MessageView),
    Failed(Failure),
}

impl View for SliceStep {
    type V = SliceStepView;

    open spec fn view(&self) -> SliceStepView {
        match self {
            SliceStep::Send(a) => SliceStepView::Send(*a),
            SliceStep::Backoff(a) => SliceStepView::Backoff(*a),
            SliceStep::Receive(a) => SliceStepView::Receive(*a),
            SliceStep::Done(m) => SliceStepView::Done(m@),
            SliceStep::Failed(f) => SliceStepView::Failed(*f),
        }
    }
}

/// The step that follows `event` while `attempt` is under way.
///
/// A failed send is tried again after a pause and costs nothing. A timeout
/// is counted, and the request is sent again unless that was the last
/// timeout allowed. A datagram that is no frame ends the attempt at once. A
/// response to something else is passed over, and the wait goes on without
/// a new send.
pub open spec fn slice_step(attempt: Attempt, event: EventView) -> SliceStepView {
    match event {
        EventView::SendFailed => SliceStepView::Backoff(attempt),
        EventView::Timeout => if attempt.timeouts + 1 >= MAX_TIMEOUTS {
            SliceStepView::Failed(Failure::RetryExhausted)
        } else {
            SliceStepView::Send(
                Attempt { timeouts: (attempt.timeouts + 1) as u8, ..attempt },
            )
        },
        EventView::Datagram(bytes) => match decode(bytes) {
            None => SliceStepView::Failed(Failure::MalformedFrame),
            Some(m) => if answers(request_view(attempt.file, attempt.slice), m) {
                SliceStepView::Done(m)
            } else {
                SliceStepView::Receive(attempt)
            },
        },
    }
}

impl Attempt {
    /// Starts asking for slice `slice` of resource `file`. The first thing
    /// to do is to send the request.
    pub fn new(file: u32, slice: u32) -> (attempt: Attempt)
        ensures
            attempt == (Attempt { file, slice, timeouts: 0 }),
    {
        Attempt { file, slice, timeouts: 0 }
    }

    /// The request that this attempt sends.
    pub fn request(&self) -> (req: Message)
        ensures
            req@ == request_view(self.file, self.slice),
    {
        request(self.file, self.slice)
    }

    /// The frame of the request that this attempt sends.
    pub fn frame(&self) -> (frame: Vec<u8>)
        ensures
            frame@ == encode(request_view(self.file, self.slice)),
            frame@.len() == HEADER_LEN,
    {
        encode_message(&self.request())
    }
}

/// Decides what to do for a slice after `event`.
pub fn fetch_slice(attempt: Attempt, event: Event) -> (step: SliceStep)
    ensures
        step@ == slice_step(attempt, event@),
{
    match event {
        Event::SendFailed => SliceStep::Backoff(attempt),
        Event::Timeout => {
            if attempt.timeouts >= MAX_TIMEOUTS - 1 {
                SliceStep::Failed(Failure::RetryExhausted)
            } else {
                SliceStep::Send(
                    Attempt {
                        file: attempt.file,
                        slice: attempt.slice,
                        timeouts: attempt.timeouts + 1,
                    },
                )
            }
        },
        Event::Datagram(bytes) => {
            match parse_message(bytes.as_slice()) {
                None => SliceStep::Failed(Failure::MalformedFrame),
                Some(answer) => {
                    let req = attempt.request();
                    if crate::message::matches(&req, &answer) {
                        SliceStep::Done(answer)
                    } else {
                        SliceStep::Receive(attempt)
                    }
                },
            }
        },
    }
}

/// Number of timeouts among `events`.
pub open spec fn timeouts_among(events: Seq<EventView>) -> nat
    decreases events.len(),
{
    if events.len() == 0 {
        0
    } else {
        timeouts_among(events.drop_last()) + if events.last() is Timeout {
            1nat
        } else {
            0nat
        }
    }
}

/// Where an attempt stands after `events`: the step that the last of them
/// led to, or the step that ended the attempt before.
pub open spec fn slice_steps(attempt: Attempt, events: Seq<EventView>) -> SliceStepView
    decreases events.len(),
{
    if events.len() == 0 {
        SliceStepView::Send(attempt)
    } else {
        match slice_steps(attempt, events.drop_last()) {
            SliceStepView::Send(a) => slice_step(a, events.last()),
            SliceStepView::Backoff(a) => slice_step(a, events.last()),
            SliceStepView::Receive(a) => slice_step(a, events.last()),
            ended => ended,
        }
    }
}

/// Whether `event` leaves the attempt at slice `slice` of resource `file`
/// open: a failed send, a timeout, or a well-formed frame that does not
/// answer the request.
pub open spec fn leaves_open(file: u32, slice: u32, event: EventView) -> bool {
    match event {
        EventView::SendFailed => true,
        EventView::Timeout => true,
        EventView::Datagram(bytes) => match decode(bytes) {
            Some(m) => !answers(request_view(file, slice), m),
            None => false,
        },
    }
}

/// Retry budget: while no answer and no malformed frame arrives, a new
/// attempt goes on until its third timeout and is given up with it. Failed
/// sends and stray responses, however many, cost nothing.
pub proof fn lemma_retry_budget(file: u32, slice: u32, events: Seq<EventView>)
    requires
        forall|i: int| 0 <= i < events.len() ==> leaves_open(file, slice, #[trigger] events[i]),
    ensures
        timeouts_among(events) >= MAX_TIMEOUTS <==> slice_steps(
            Attempt { file, slice, timeouts: 0 },
            events,
        ) == SliceStepView::Failed(Failure::RetryExhausted),
        timeouts_among(events) < MAX_TIMEOUTS ==> ({
            let going = Attempt { file, slice, timeouts: timeouts_among(events) as u8 };
            let step = slice_steps(Attempt { file, slice, timeouts: 0 }, events);
            ||| step == SliceStepView::Send(going)
            ||| step == SliceStepView::Backoff(going)
            ||| step == SliceStepView::Receive(going)
        }),
    decreases events.len(),
{
    if events.len() > 0 {
        let before = events.drop_last();
        assert forall|i: int| 0 <= i < before.len() implies leaves_open(
            file,
            slice,
            #[trigger] before[i],
        ) by {
            assert(before[i] == events[i]);
        }
        lemma_retry_budget(file, slice, before);
        assert(leaves_open(file, slice, events[events.len() - 1]));
    }
}

/// The slices of a resource received so far.
#[derive(Debug, Clone, PartialEq, Eq)]
pub enum Assembly {
    /// Nothing has arrived; the first slice is awaited, and with it the
    /// number of slices.
    First { id: u32 },
    /// The slices before `next` have arrived and are joined in `data`;
    /// there are `total` slices.
    Rest { id: u32, total: u32, next: u32, data: Vec<u8> },
}

/// What an [`Assembly`] holds.
pub enum AssemblyView {
    First { id: u32 },
    Rest { id: u32, total: u32, next: u32, data: Seq<u8> },
}

impl View for Assembly {
    type V = AssemblyView;

    open spec fn view(&self) -> AssemblyView {
        match self {
            Assembly::First { id } => AssemblyView::First { id: *id },
            Assembly::Rest { id, total, next, data } => AssemblyView::Rest {
                id: *id,
                total: *total,
                next: *next,
                data: data@,
            },
        }
    }
}

impl AssemblyView {
    /// The resource being fetched.
    pub open spec fn id(self) -> u32 {
        match self {
            AssemblyView::First { id } => id,
            AssemblyView::Rest { id, .. } => id,
        }
    }

    /// The number of the slice awaited.
    pub open spec fn next(self) -> u32 {
        match self {
            AssemblyView::First { .. } => 1,
            AssemblyView::Rest { next, .. } => next,
        }
    }
}

/// What to do next for a resource, once a slice of it has arrived.
#[derive(Debug, Clone, PartialEq, Eq)]
pub enum AssemblyStep {
    /// Ask for the slice that the assembly awaits.
    More(Assembly),
    /// The resource is complete.
    Done(Vec<u8>),
    /// The fetch is given up; nothing of the resource is handed out.
    Failed(Failure),
}

/// What an [`AssemblyStep`] holds.
pub enum AssemblyStepView {
    More(AssemblyView),
    Done(Seq<u8>),
    Failed(Failure),
}

impl View for AssemblyStep {
    type V = AssemblyStepView;

    open spec fn view(&self) -> AssemblyStepView {
        match self {
            AssemblyStep::More(a) => AssemblyStepView::More(a@),
            AssemblyStep::Done(data) => AssemblyStepView::Done(data@),
            AssemblyStep::Failed(f) => AssemblyStepView::Failed(*f),
        }
    }
}

/// The step that follows when `response` arrives for the slice that
/// `assembly` awaits.
///
/// The first response tells the number of slices: with none the resource is
/// empty, with one its body is the resource. Otherwise every slice before
/// the last must be full, and the last no longer than a slice; they are
/// joined in order. The slice count of later responses is not looked at.
pub open spec fn assembly_step(assembly: AssemblyView, response: MessageView) -> AssemblyStepView {
    match assembly {
        AssemblyView::First { id } => if response.total == 0 {
            AssemblyStepView::Done(Seq::empty())
        } else if response.total == 1 {
            AssemblyStepView::Done(response.body)
        } else if response.body.len() != SLICE_SIZE {
            AssemblyStepView::Failed(Failure::MalformedFrame)
        } else {
            AssemblyStepView::More(
                AssemblyView::Rest { id, total: response.total, next: 2, data: response.body },
            )
        },
        AssemblyView::Rest { id, total, next, data } => if next < total {
            if response.body.len() != SLICE_SIZE {
                AssemblyStepView::Failed(Failure::MalformedFrame)
            } else {
                AssemblyStepView::More(
                    AssemblyView::Rest {
                        id,
                        total,
                        next: (next + 1) as u32,
                        data: data + response.body,
                    },
                )
            }
        } else if response.body.len() > SLICE_SIZE {
            AssemblyStepView::Failed(Failure::MalformedFrame)
        } else {
            AssemblyStepView::Done(data + response.body)
        },
    }
}

impl Assembly {
    /// Starts the fetch of resource `id`.
    pub fn new(id: u32) -> (assembly: Assembly)
        ensures
            assembly@ == (AssemblyView::First { id }),
    {
        Assembly::First { id }
    }

    /// The resource being fetched.
    pub fn id(&self) -> (id: u32)
        ensures
            id == self@.id(),
    {
        match self {
            Assembly::First { id } => *id,
            Assembly::Rest { id, .. } => *id,
        }
    }

    /// The number of the slice to ask for.
    pub fn next(&self) -> (next: u32)
        ensures
            next == self@.next(),
    {
        match self {
            Assembly::First { .. } => 1,
            Assembly::Rest { next, .. } => *next,
        }
    }
}

/// Takes the response for the slice that `assembly` awaits, and decides
/// what to do next for the resource.
pub fn assemble(assembly: Assembly, response: Message) -> (step: AssemblyStep)
    ensures
        step@ == assembly_step(assembly@, response@),
{
    match assembly {
        Assembly::First { id } => {
            if response.last_slice == 0 {
                AssemblyStep::Done(Vec::new())
            } else if response.last_slice == 1 {
                AssemblyStep::Done(response.body)
            } else if response.body.len() != SLICE_SIZE {
                AssemblyStep::Failed(Failure::MalformedFrame)
            } else {
                AssemblyStep::More(
                    Assembly::Rest { id, total: response.last_slice, next: 2, data: response.body },
                )
            }
        },
        Assembly::Rest { id, total, next, data } => {
            let mut data = data;
            if next < total {
                if response.body.len() != SLICE_SIZE {
                    AssemblyStep::Failed(Failure::MalformedFrame)
                } else {
                    push_bytes(&mut data, response.body.as_slice());
                    AssemblyStep::More(Assembly::Rest { id, total, next: next + 1, data })
                }
            } else if response.body.len() > SLICE_SIZE {
                AssemblyStep::Failed(Failure::MalformedFrame)
            } else {
                push_bytes(&mut data, response.body.as_slice());
                AssemblyStep::Done(data)
            }
        },
    }
}

/// How far `assembly` is from its end.
pub open spec fn slices_left(assembly: AssemblyView) -> int {
    match assembly {
        AssemblyView::First { .. } => u32::MAX + 1,
        AssemblyView::Rest { total, next, .. } => total - next,
    }
}

/// How a fetch ends that goes on from `assembly` when every request is
/// answered from `content`.
pub open spec fn fetch_all(assembly: AssemblyView, content: Seq<u8>) -> AssemblyStepView
    decreases slices_left(assembly),
{
    match assembly_step(assembly, served(content, assembly.id(), assembly.next())) {
        AssemblyStepView::More(a) => fetch_all(a, content),
        other => other,
    }
}

/// A fetch that has joined the slices before `next` and is answered from
/// `content` ends with `content`.
proof fn lemma_fetch_rest(id: u32, total: u32, next: u32, content: Seq<u8>)
    requires
        total == total_slices(content.len()),
        2 <= next <= total,
    ensures
        fetch_all(
            AssemblyView::Rest {
                id,
                total,
                next,
                data: joined_slices(content, (next - 1) as nat),
            },
            content,
        ) == AssemblyStepView::Done(content),
    decreases total - next,
{
    lemma_slice_len(content.len(), next as nat);
    if next < total {
        lemma_fetch_rest(id, total, (next + 1) as u32, content);
    } else {
        lemma_joined_slices(content);
    }
}

/// Slice-count law, seen from the client: a fetch whose every request is
/// answered with the slice asked for and the true slice count ends with
/// exactly the content, whatever its length; empty content gives an empty
/// result.
pub proof fn lemma_fetch_reassembles(id: u32, content: Seq<u8>)
    requires
        total_slices(content.len()) <= u32::MAX,
    ensures
        fetch_all(AssemblyView::First { id }, content) == AssemblyStepView::Done(content),
{
    let total = total_slices(content.len());
    lemma_slice_len(content.len(), 1);
    lemma_joined_slices(content);
    assert(joined_slices(content, 1) =~= slice_body(content, 1)) by {
        reveal_with_fuel(joined_slices, 2);
    }
    if total >= 2 {
        lemma_fetch_rest(id, total as u32, 2, content);
    }
}

/// A resource being fetched: the slices joined so far, and the attempt at
/// the slice awaited.
#[derive(Debug, Clone, PartialEq, Eq)]
pub struct Fetch {
    pub assembly: Assembly,
    pub attempt: Attempt,
}

/// What a [`Fetch`] holds.
pub struct FetchView {
    pub assembly: AssemblyView,
    pub attempt: Attempt,
}

impl View for Fetch {
    type V = FetchView;

    open spec fn view(&self) -> FetchView {
        FetchView { assembly: self.assembly@, attempt: self.attempt }
    }
}

/// What to do next for a resource.
#[derive(Debug, Clone, PartialEq, Eq)]
pub enum FetchStep {
    /// Send the request of the attempt, then wait for a datagram.
    Send(Fetch),
    /// Sleep for the send backoff, send the request of the attempt, then
    /// wait for a datagram.
    Backoff(Fetch),
    /// Wait for another datagram without sending again.
    Receive(Fetch),
    /// The resource is complete.
    Done(Vec<u8>),
    /// The fetch is given up; nothing of the resource is handed out.
    Failed(Failure),
}

/// What a [`FetchStep`] holds.
pub enum FetchStepView {
    Send(FetchView),
    Backoff(FetchView),
    Receive(FetchView),
    Done(Seq<u8>),
    Failed(Failure),
}

impl View for FetchStep {
    type V = FetchStepView;

    open spec fn view(&self) -> FetchStepView {
        match self {
            FetchStep::Send(f) => FetchStepView::Send(f@),
            FetchStep::Backoff(f) => FetchStepView::Backoff(f@),
            FetchStep::Receive(f) => FetchStepView::Receive(f@),
            FetchStep::Done(data) => FetchStepView::Done(data@),
            FetchStep::Failed(f) => FetchStepView::Failed(*f),
        }
    }
}

/// The fetch that asks for the slice that `assembly` awaits, with no
/// timeout counted yet.
pub open spec fn fetch_of(assembly: AssemblyView) -> FetchView {
    FetchView {
        assembly,
        attempt: Attempt { file: assembly.id(), slice: assembly.next(), timeouts: 0 },
    }
}

/// What a fetch does with the step of its assembly: a new slice is asked
/// for with a fresh count of timeouts, an end is the end of the fetch.
pub open spec fn after_assembly(step: AssemblyStepView) -> FetchStepView {
    match step {
        AssemblyStepView::More(assembly) => FetchStepView::Send(fetch_of(assembly)),
        AssemblyStepView::Done(data) => FetchStepView::Done(data),
        AssemblyStepView::Failed(failure) => FetchStepView::Failed(failure),
    }
}

/// The step that follows `event` in the fetch `state`: the step of the
/// attempt, and once the slice has arrived, the step of the assembly.
pub open spec fn fetch_step(state: FetchView, event: EventView) -> FetchStepView {
    match slice_step(state.attempt, event) {
        SliceStepView::Send(attempt) => FetchStepView::Send(FetchView { attempt, ..state }),
        SliceStepView::Backoff(attempt) => FetchStepView::Backoff(FetchView { attempt, ..state }),
        SliceStepView::Receive(attempt) => FetchStepView::Receive(FetchView { attempt, ..state }),
        SliceStepView::Failed(failure) => FetchStepView::Failed(failure),
        SliceStepView::Done(response) => after_assembly(assembly_step(state.assembly, response)),
    }
}

impl Fetch {
    /// Starts the fetch of resource `id`. The first thing to do is to send
    /// the request of the attempt.
    pub fn new(id: u32) -> (state: Fetch)
        ensures
            state@ == fetch_of(AssemblyView::First { id }),
    {
        Fetch { assembly: Assembly::new(id), attempt: Attempt::new(id, 1) }
    }
}

/// Decides what to do for a resource after `event`.
pub fn fetch(state: Fetch, event: Event) -> (step: FetchStep)
    ensures
        step@ == fetch_step(state@, event@),
{
    let Fetch { assembly, attempt } = state;
    match fetch_slice(attempt, event) {
        SliceStep::Send(attempt) => FetchStep::Send(Fetch { assembly, attempt }),
        SliceStep::Backoff(attempt) => FetchStep::Backoff(Fetch { assembly, attempt }),
        SliceStep::Receive(attempt) => FetchStep::Receive(Fetch { assembly, attempt }),
        SliceStep::Failed(failure) => FetchStep::Failed(failure),
        SliceStep::Done(response) => match assemble(assembly, response) {
            AssemblyStep::More(assembly) => {
                let attempt = Attempt::new(assembly.id(), assembly.next());
                FetchStep::Send(Fetch { assembly, attempt })
            },
            AssemblyStep::Done(data) => FetchStep::Done(data),
            AssemblyStep::Failed(failure) => FetchStep::Failed(failure),
        },
    }
}

/// A path being resolved: the resource reached, and what of the path is
/// still to be walked from there.
#[derive(Debug, Clone, PartialEq, Eq)]
pub struct PathWalk {
    /// The whole path.
    pub path: Vec<u8>,
    /// Where in the path the segments not yet resolved start.
    pub pos: usize,
    /// The resource that the segments before `pos` lead to.
    pub resource: u32,
}

/// What a [`PathWalk`] holds: the rest of the path, and the resource
/// reached.
pub struct PathWalkView {
    pub rest: Seq<u8>,
    pub resource: u32,
}

impl View for PathWalk {
    type V = PathWalkView;

    open spec fn view(&self) -> PathWalkView {
        PathWalkView {
            rest: if self.pos <= self.path@.len() {
                self.path@.skip(self.pos as int)
            } else {
                Seq::empty()
            },
            resource: self.resource,
        }
    }
}

/// What to do next for a path, once the resource reached has been fetched.
#[derive(Debug, Clone, PartialEq, Eq)]
pub enum CatStep {
    /// Fetch the resource that the walk has reached.
    Fetch(PathWalk),
    /// The path is resolved: this is the content of what it names.
    Done(Vec<u8>),
    /// The path leads nowhere.
    Failed(Failure),
}

/// What a [`CatStep`] holds.
pub enum CatStepView {
    Fetch(PathWalkView),
    Done(Seq<u8>),
    Failed(Failure),
}

impl View for CatStep {
    type V = CatStepView;

    open spec fn view(&self) -> CatStepView {
        match self {
            CatStep::Fetch(w) => CatStepView::Fetch(w@),
            CatStep::Done(data) => CatStepView::Done(data@),
            CatStep::Failed(f) => CatStepView::Failed(*f),
        }
    }
}

/// The step that follows when the resource that `walk` has reached turns
/// out to hold `content`, which reads as the text `text`.
///
/// With nothing of the path left, `content` is the result. Otherwise the
/// next segment, which runs up to and including the next slash, is looked
/// up in `text` as a listing, and the walk goes on at the entry found.
pub open spec fn resolve_step(walk: PathWalkView, text: Seq<u8>, content: Seq<u8>) -> CatStepView {
    if walk.rest.len() == 0 {
        CatStepView::Done(content)
    } else {
        let k = piece_len(walk.rest, SLASH);
        match find_entry(text, walk.rest.take(k)) {
            Some(id) => CatStepView::Fetch(PathWalkView { rest: walk.rest.skip(k), resource: id }),
            None => CatStepView::Failed(Failure::ResourceNotFound),
        }
    }
}

/// The bytes of the text that `bytes` is read as: `bytes` decoded as UTF-8,
/// every part that is not valid replaced by U+FFFD, and encoded again.
pub uninterp spec fn lossy_text(bytes: Seq<u8>) -> Seq<u8>;

/// Reads `content` as text with `String::from_utf8_lossy`. The contract
/// gives the bytes of that text a name, and claims of them only that valid
/// UTF-8 is read as it stands.
#[verifier::external_body]
fn text_of(content: &[u8]) -> (text: Vec<u8>)
    ensures
        text@ == lossy_text(content@),
        valid_utf8(content@) ==> text@ == content@,
{
    String::from_utf8_lossy(content).into_owned().into_bytes()
}

impl PathWalk {
    /// Starts to resolve `path` at the root, resource 0. The first thing to
    /// do is to fetch that resource.
    pub fn new(path: &str) -> (walk: PathWalk)
        ensures
            walk@ == (PathWalkView { rest: path.spec_bytes(), resource: 0 }),
    {
        let mut bytes: Vec<u8> = Vec::new();
        push_bytes(&mut bytes, path.as_bytes());
        assert(bytes@.skip(0) =~= bytes@);
        PathWalk { path: bytes, pos: 0, resource: 0 }
    }

    /// The resource to fetch.
    pub fn resource(&self) -> (id: u32)
        ensures
            id == self@.resource,
    {
        self.resource
    }
}

/// Goes on with `walk` after the resource it has reached was fetched:
/// `content` is what the resource holds and `text` is how that reads as
/// text.
pub fn resolve(walk: PathWalk, text: &[u8], content: Vec<u8>) -> (step: CatStep)
    ensures
        step@ == resolve_step(walk@, text@, content@),
{
    let PathWalk { path, pos, resource: _ } = walk;
    let n = path.len();
    if pos >= n {
        assert(walk@.rest =~= Seq::<u8>::empty());
        return CatStep::Done(content);
    }
    let slash = find_byte(path.as_slice(), pos, SLASH);
    proof {
        lemma_first_index(path@.skip(pos as int), SLASH);
    }
    let next = if slash < n {
        slash + 1
    } else {
        n
    };
    assert(path@.subrange(pos as int, next as int) =~= walk@.rest.take(next - pos));
    assert(walk@.rest.skip(next - pos) =~= path@.skip(next as int));
    match lookup(text, slice_subrange(path.as_slice(), pos, next)) {
        Some(id) => CatStep::Fetch(PathWalk { path, pos: next, resource: id }),
        None => CatStep::Failed(Failure::ResourceNotFound),
    }
}

/// Goes on with `walk` after the resource it has reached was fetched and
/// holds `content`.
pub fn cat(walk: PathWalk, content: Vec<u8>) -> (step: CatStep)
    ensures
        step@ == resolve_step(walk@, lossy_text(content@), content@),
        valid_utf8(content@) ==> step@ == resolve_step(walk@, content@, content@),
{
    let text = text_of(content.as_slice());
    resolve(walk, text.as_slice(), content)
}

} // verus!
