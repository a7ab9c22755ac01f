//! The master's dispatcher: what to do with a client's request, and what
//! to answer once a forward to a partition has ended.

use crate::error::{Error, ErrorCode};
use crate::parser::{
    build_ack_response, build_error_response, build_frame, build_lsp_response,
    build_miss_response,
    build_ok_response, error_frame, frame_of, lsp_text, miss_text, parse_frame, parse_request,
    CommandType, ParsedRequest, RequestView,
};
use crate::registry::{
    address_index, addresses, describe_all, distinct_addresses, partitions_text, Partition,
};
use crate::ring::{lemma_route_is_some, others_keep_their_keys, route};
use crate::router::{registered, replaced_by, unregistered, Router};
use vstd::prelude::*;
use vstd::string::*;
use vstd::utf8::*;

verus! {

/// What the master does with one request.
pub enum Decision {
    /// Write these bytes to the client.
    Reply(Vec<u8>),
    /// The request did not decode: write the reply, and report the error.
    Reject { reply: Vec<u8>, error: Error },
    /// Send `bytes` on the partition's connection, then read its answer.
    Forward { partition: Partition, request: ParsedRequest, bytes: Vec<u8> },
    /// A node asks to be registered under the address of this connection.
    Register,
}

/// A decision, with bytes and texts as sequences.
pub ghost enum Verdict {
    Reply(Seq<u8>),
    Reject(Seq<u8>, ErrorCode),
    Forward(Partition, RequestView, Seq<u8>),
    Register,
}

impl View for Decision {
    type V = Verdict;

    open spec fn view(&self) -> Verdict {
        match self {
            Decision::Reply(reply) => Verdict::Reply(reply@),
            Decision::Reject { reply, error } => Verdict::Reject(reply@, error.code),
            Decision::Forward { partition, request, bytes } => Verdict::Forward(
                *partition,
                request@,
                bytes@,
            ),
            Decision::Register => Verdict::Register,
        }
    }
}

/// How a forward to a partition ended.
pub enum ForwardOutcome {
    /// The request could not be written.
    WriteFailed,
    /// The answer could not be read.
    ReadFailed,
    /// These bytes were read; none at all means that the peer has closed.
    Replied(Vec<u8>),
}

/// The decision on a data request: it goes to the partition that its key
/// belongs to, as the frame that was received, through its NUL; without a
/// key, or while no partition is on the ring, the client is told that there
/// is none.
pub open spec fn forward_verdict(partitions: Seq<Partition>, replicas: int, request: RequestView)
    -> Verdict {
    match request.key {
        Some(key) => match route(addresses(partitions), replicas, key) {
            Some(addr) => Verdict::Forward(
                partitions[address_index(partitions, addr)],
                request,
                frame_of(request.original),
            ),
            None => Verdict::Reply(error_frame(ErrorCode::NoPartitionsInRing)),
        },
        None => Verdict::Reply(error_frame(ErrorCode::NoPartitionsInRing)),
    }
}

/// The decision on a decoded request.
pub open spec fn request_verdict(partitions: Seq<Partition>, replicas: int, request: RequestView)
    -> Verdict {
    match request.cmd {
        CommandType::Get | CommandType::Put | CommandType::Delete => forward_verdict(
            partitions,
            replicas,
            request,
        ),
        CommandType::Notify => Verdict::Register,
        CommandType::ListPartitions => Verdict::Reply(
            frame_of(lsp_text(partitions_text(partitions))),
        ),
        _ => Verdict::Reply(error_frame(ErrorCode::UnsupportedCommandMaster)),
    }
}

/// The decision on a received buffer.
pub open spec fn verdict(partitions: Seq<Partition>, replicas: int, message: Seq<u8>) -> Verdict {
    match parse_frame(message) {
        Ok(request) => request_verdict(partitions, replicas, request),
        Err(code) => Verdict::Reject(error_frame(code), code),
    }
}

/// The reply that stands in for a partition that could not be reached: a
/// read finds nothing, a write or a removal is taken as done.
pub open spec fn fallback(request: RequestView) -> Option<Seq<u8>> {
    match request.cmd {
        CommandType::Get => match request.key {
            Some(key) => Some(frame_of(miss_text(key))),
            None => Some(error_frame(ErrorCode::Unknown)),
        },
        CommandType::Put | CommandType::Delete => Some(frame_of("OK"@)),
        _ => None,
    }
}

/// Whether a forward has failed: the write or the read failed, or the read
/// gave no byte.
pub open spec fn has_failed(outcome: ForwardOutcome) -> bool {
    match outcome {
        ForwardOutcome::WriteFailed => true,
        ForwardOutcome::ReadFailed => true,
        ForwardOutcome::Replied(bytes) => bytes@.len() == 0,
    }
}

/// The reply to the client once a forward has ended: the partition's answer
/// as it came, or the stand-in reply when the forward has failed.
pub open spec fn concluded_reply(request: RequestView, outcome: ForwardOutcome) -> Option<
    Seq<u8>,
> {
    match outcome {
        ForwardOutcome::Replied(bytes) => if bytes@.len() == 0 {
            fallback(request)
        } else {
            Some(bytes@)
        },
        _ => fallback(request),
    }
}

/// The bytes of an optional reply.
pub open spec fn bytes_view(reply: Option<Vec<u8>>) -> Option<Seq<u8>> {
    match reply {
        Some(bytes) => Some(bytes@),
        None => None,
    }
}

fn reply_error(code: ErrorCode) -> (frame: Vec<u8>)
    ensures
        frame@ == error_frame(code),
{
    let e = Error::from_code(code);
    build_error_response(&e)
}

/// Decides where a data request goes.
pub fn forward_to_partition(router: &Router, request: ParsedRequest) -> (decision: Decision)
    requires
        router.wf(),
    ensures
        decision@ == forward_verdict(router.partitions(), router.replicas(), request@),
        decision matches Decision::Forward { request: forwarded, .. } ==> forwarded == request,
{
    let found = match &request.key {
        Some(key) => router.lookup(key.as_str()),
        None => None,
    };
    match found {
        Some(partition) => {
            let bytes = build_frame(request.original_rq.as_str());
            Decision::Forward { partition: partition.duplicate(), request, bytes }
        },
        None => Decision::Reply(reply_error(ErrorCode::NoPartitionsInRing)),
    }
}

/// The frame that lists the registered partitions.
pub fn handle_list(router: &Router) -> (frame: Vec<u8>)
    ensures
        frame@ == frame_of(lsp_text(partitions_text(router.partitions()))),
{
    let partitions = router.list();
    build_lsp_response(describe_all(&partitions))
}

/// Decides what to do with one buffer received from a client.
pub fn handle_connection(router: &Router, message: Vec<u8>) -> (decision: Decision)
    requires
        router.wf(),
    ensures
        decision@ == verdict(router.partitions(), router.replicas(), message@),
        decision matches Decision::Reject { error, .. } ==> error.wf(),
        decision matches Decision::Forward { request, .. } ==> request.wf(),
{
    match parse_request(message) {
        Ok(request) => match request.cmd {
            CommandType::Get | CommandType::Put | CommandType::Delete => forward_to_partition(
                router,
                request,
            ),
            CommandType::Notify => Decision::Register,
            CommandType::ListPartitions => Decision::Reply(handle_list(router)),
            _ => Decision::Reply(reply_error(ErrorCode::UnsupportedCommandMaster)),
        },
        Err(error) => {
            let reply = build_error_response(&error);
            Decision::Reject { reply, error }
        },
    }
}

/// What a registration gave: the answer for the node, and the record that
/// the node's address had before, if it was registered already.
pub struct Welcome {
    pub reply: Vec<u8>,
    pub replaced: Option<Partition>,
}

/// Registers the node behind a connection and builds the answer to it, an
/// acknowledgement: once this returns, the node is in the registry and on
/// the ring.
pub fn handle_notify(router: &mut Router, partition: Partition) -> (welcome: Welcome)
    requires
        old(router).wf(),
    ensures
        final(router).wf(),
        final(router).replicas() == old(router).replicas(),
        final(router).partitions() == registered(old(router).partitions(), partition),
        final(router).members() == old(router).members().insert(partition.addr@),
        welcome.reply@ == frame_of("ACK"@),
        welcome.replaced == replaced_by(old(router).partitions(), partition),
{
    let replaced = router.register(partition);
    Welcome { reply: build_ack_response(), replaced }
}

/// Takes a partition out of the registry and the ring.
pub fn unregister_partition(router: &mut Router, partition: &Partition)
    requires
        old(router).wf(),
    ensures
        final(router).wf(),
        final(router).replicas() == old(router).replicas(),
        final(router).partitions() == unregistered(old(router).partitions(), partition.addr@),
        final(router).members() == old(router).members().remove(partition.addr@),
        others_keep_their_keys(
            old(router).members(),
            final(router).members(),
            old(router).replicas(),
            partition.addr@,
        ),
{
    router.unregister(partition.addr.as_str());
}

/// The reply to the client when the partition could not be reached.
pub fn handle_failed_forward(request: &ParsedRequest) -> (reply: Option<Vec<u8>>)
    ensures
        bytes_view(reply) == fallback(request@),
{
    match request.cmd {
        CommandType::Get => match &request.key {
            Some(key) => Some(build_miss_response(key.as_str())),
            None => Some(reply_error(ErrorCode::Unknown)),
        },
        CommandType::Put | CommandType::Delete => Some(build_ok_response()),
        _ => None,
    }
}

/// How a forward was concluded: the reply for the client, if there is one,
/// and whether the partition was evicted.
pub struct Conclusion {
    pub reply: Option<Vec<u8>>,
    pub evicted: bool,
}

impl ForwardOutcome {
    /// Whether the forward has failed.
    pub fn failed(&self) -> (failed: bool)
        ensures
            failed == has_failed(*self),
    {
        match self {
            ForwardOutcome::Replied(bytes) => bytes.len() == 0,
            _ => true,
        }
    }
}

/// Concludes a forward. An answer is passed on to the client as it came. A
/// failure evicts the partition, and the client gets the stand-in reply.
pub fn conclude_forward(
    router: &mut Router,
    partition: &Partition,
    request: &ParsedRequest,
    outcome: ForwardOutcome,
) -> (conclusion: Conclusion)
    requires
        old(router).wf(),
    ensures
        final(router).wf(),
        final(router).replicas() == old(router).replicas(),
        bytes_view(conclusion.reply) == concluded_reply(request@, outcome),
        conclusion.evicted == has_failed(outcome),
        final(router).partitions() == if has_failed(outcome) {
            unregistered(old(router).partitions(), partition.addr@)
        } else {
            old(router).partitions()
        },
        has_failed(outcome) ==> !final(router).members().contains(partition.addr@),
        others_keep_their_keys(
            old(router).members(),
            final(router).members(),
            old(router).replicas(),
            partition.addr@,
        ),
{
    if !outcome.failed() {
        match outcome {
            ForwardOutcome::Replied(bytes) => {
                return Conclusion { reply: Some(bytes), evicted: false };
            },
            _ => {},
        }
    }
    unregister_partition(router, partition);
    Conclusion { reply: handle_failed_forward(request), evicted: true }
}

/// While no partition is registered, every read, write and removal is
/// answered by the error that no partition was found.
pub proof fn lemma_empty_ring(replicas: int, message: Seq<u8>)
    requires
        parse_frame(message) matches Ok(request) && (request.cmd == CommandType::Get
            || request.cmd == CommandType::Put || request.cmd == CommandType::Delete),
    ensures
        verdict(Seq::<Partition>::empty(), replicas, message) == Verdict::Reply(
            error_frame(ErrorCode::NoPartitionsInRing),
        ),
{
    let members = addresses(Seq::<Partition>::empty());
    let request = parse_frame(message)->Ok_0;
    if request.key is Some {
        lemma_route_is_some(members, replicas, request.key->0);
    }
}

/// A partition that was evicted is no longer a member, so that no key is
/// routed to it and no listing shows it, while every other member stays.
pub proof fn lemma_evicted_is_absent(partitions: Seq<Partition>, at: int)
    requires
        distinct_addresses(partitions),
        0 <= at < partitions.len(),
    ensures
        !addresses(partitions.remove(at)).contains(partitions[at].addr@),
        forall|i: int|
            0 <= i < partitions.remove(at).len() ==> (#[trigger] partitions.remove(at)[i]).addr@
                != partitions[at].addr@,
        forall|addr: Seq<char>|
            addr != partitions[at].addr@ ==> (addresses(partitions.remove(at)).contains(addr)
                <==> addresses(partitions).contains(addr)),
{
    let rest = partitions.remove(at);
    assert forall|i: int| 0 <= i < rest.len() implies (#[trigger] rest[i]).addr@
        != partitions[at].addr@ by {
        let k = if i < at {
            i
        } else {
            i + 1
        };
        assert(rest[i] == partitions[k]);
    }
    assert forall|addr: Seq<char>| addr != partitions[at].addr@ implies (addresses(rest).contains(
        addr,
    ) <==> addresses(partitions).contains(addr)) by {
        if addresses(rest).contains(addr) {
            let i = choose|i: int| 0 <= i < rest.len() && (#[trigger] rest[i]).addr@ == addr;
            let k = if i < at {
                i
            } else {
                i + 1
            };
            assert(rest[i] == partitions[k]);
        }
        if addresses(partitions).contains(addr) {
            let k = choose|k: int|
                0 <= k < partitions.len() && (#[trigger] partitions[k]).addr@ == addr;
            let i = if k < at {
                k
            } else {
                k - 1
            };
            assert(rest[i] == partitions[k]);
        }
    }
}

} // verus!
