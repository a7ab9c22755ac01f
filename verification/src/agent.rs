//! The partition side: registering with the master, and serving the
//! requests that the master forwards against the local cache.

use crate::cache::{
    fits, forget, lemma_store_fits, store, touch, value_at, Cache, Entries,
};
use crate::error::{Error, ErrorCode};
use crate::parser::{
    build_error_response, build_hit_response, build_miss_response, build_notify_request,
    build_ok_response, error_frame, frame_of, hit_text, listing_text, miss_text,
    parse_frame, parse_request, CommandType, ParsedRequest, RequestView,
};
use crate::round_trip::{
    get_text, lemma_frame_round_trip, lemma_requests_decode, nul_free, plain_key, plain_value,
    set_text,
};
use vstd::prelude::*;

verus! {

/// The reply to a decoded request, given the entries held before it.
pub open spec fn reply_to(entries: Entries, request: RequestView) -> Seq<u8> {
    match request.cmd {
        CommandType::Get => match request.key {
            Some(key) => match value_at(entries, key) {
                Some(value) => frame_of(hit_text(key, value)),
                None => frame_of(miss_text(key)),
            },
            None => error_frame(ErrorCode::NotEnoughArgs),
        },
        CommandType::Lsd => frame_of(listing_text(entries)),
        CommandType::Put => match (request.key, request.value) {
            (Some(_), Some(_)) => frame_of("OK"@),
            _ => error_frame(ErrorCode::NotEnoughArgs),
        },
        CommandType::Delete => match request.key {
            Some(_) => frame_of("OK"@),
            None => error_frame(ErrorCode::NotEnoughArgs),
        },
        _ => error_frame(ErrorCode::UnsupportedCommandPartition),
    }
}

/// The entries held after a decoded request, given those held before it.
pub open spec fn entries_after(entries: Entries, capacity: nat, request: RequestView) -> Entries {
    match request.cmd {
        CommandType::Get => match request.key {
            Some(key) => touch(entries, key),
            None => entries,
        },
        CommandType::Put => match (request.key, request.value) {
            (Some(key), Some(value)) => store(entries, capacity, key, value),
            _ => entries,
        },
        CommandType::Delete => match request.key {
            Some(key) => forget(entries, key),
            None => entries,
        },
        _ => entries,
    }
}

/// The reply to a received buffer: a buffer that does not decode is
/// answered by the error of its decoding, and changes nothing.
pub open spec fn reply_to_frame(entries: Entries, message: Seq<u8>) -> Seq<u8> {
    match parse_frame(message) {
        Ok(request) => reply_to(entries, request),
        Err(code) => error_frame(code),
    }
}

/// The entries held after a received buffer was served.
pub open spec fn entries_after_frame(entries: Entries, capacity: nat, message: Seq<u8>)
    -> Entries {
    match parse_frame(message) {
        Ok(request) => entries_after(entries, capacity, request),
        Err(_) => entries,
    }
}

fn reply_error(code: ErrorCode) -> (frame: Vec<u8>)
    ensures
        frame@ == error_frame(code),
{
    let e = Error::from_code(code);
    build_error_response(&e)
}

/// Carries out one decoded request against the cache and builds the reply.
pub fn execute(cache: &mut Cache, request: ParsedRequest) -> (reply: Vec<u8>)
    requires
        old(cache).wf(),
    ensures
        final(cache).wf(),
        final(cache).capacity() == old(cache).capacity(),
        reply@ == reply_to(old(cache).entries(), request@),
        final(cache).entries() == entries_after(
            old(cache).entries(),
            old(cache).capacity(),
            request@,
        ),
{
    match request.cmd {
        CommandType::Get => match request.key {
            Some(key) => match cache.get(key.as_str()) {
                Some(value) => build_hit_response(key.as_str(), value.as_str()),
                None => build_miss_response(key.as_str()),
            },
            None => reply_error(ErrorCode::NotEnoughArgs),
        },
        CommandType::Lsd => cache.dump(),
        CommandType::Put => match (request.key, request.value) {
            (Some(key), Some(value)) => {
                cache.put(key, value);
                build_ok_response()
            },
            _ => reply_error(ErrorCode::NotEnoughArgs),
        },
        CommandType::Delete => match request.key {
            Some(key) => {
                cache.delete(key.as_str());
                build_ok_response()
            },
            None => reply_error(ErrorCode::NotEnoughArgs),
        },
        _ => reply_error(ErrorCode::UnsupportedCommandPartition),
    }
}

/// Serves one received buffer: decodes it, carries the request out and
/// builds the reply. A decoding error is answered and serving goes on.
pub fn serve(cache: &mut Cache, message: Vec<u8>) -> (reply: Vec<u8>)
    requires
        old(cache).wf(),
    ensures
        final(cache).wf(),
        final(cache).capacity() == old(cache).capacity(),
        reply@ == reply_to_frame(old(cache).entries(), message@),
        final(cache).entries() == entries_after_frame(
            old(cache).entries(),
            old(cache).capacity(),
            message@,
        ),
{
    match parse_request(message) {
        Ok(request) => execute(cache, request),
        Err(e) => build_error_response(&e),
    }
}

/// The frame by which a partition asks the master to register it.
pub fn registration_request() -> (frame: Vec<u8>)
    ensures
        frame@ == frame_of("NTF"@),
{
    build_notify_request()
}

/// Whether the master's answer to a registration is an acknowledgement.
/// Any other answer, or one that does not decode, means that the partition
/// is not registered and cannot serve.
pub fn registration_accepted(answer: Vec<u8>) -> (accepted: bool)
    ensures
        accepted == (parse_frame(answer@) matches Ok(request) && request.cmd
            == CommandType::Ack),
{
    match parse_request(answer) {
        Ok(request) => match request.cmd {
            CommandType::Ack => true,
            _ => false,
        },
        Err(_) => false,
    }
}


/// A value that was written is read back: after a write request for a key
/// was served, a read request for that key is answered by a hit with the
/// value written, whatever the cache held before.
pub proof fn lemma_written_value_is_read(
    entries: Entries,
    capacity: nat,
    key: Seq<char>,
    value: Seq<char>,
    after_write: Seq<u8>,
    after_read: Seq<u8>,
)
    requires
        fits(entries, capacity),
        plain_key(key),
        nul_free(key),
        plain_value(value),
        nul_free(value),
    ensures
        reply_to_frame(entries, frame_of(set_text(key, value)) + after_write) == frame_of("OK"@),
        reply_to_frame(
            entries_after_frame(entries, capacity, frame_of(set_text(key, value)) + after_write),
            frame_of(get_text(key)) + after_read,
        ) == frame_of(hit_text(key, value)),
{
    reveal_strlit("GET ");
    reveal_strlit("SET ");
    reveal_strlit(" ");
    lemma_requests_decode(key, value);
    assert(nul_free(set_text(key, value))) by {
        let text = set_text(key, value);
        assert forall|i: int| 0 <= i < text.len() implies #[trigger] text[i] != '\0' by {
            if 4 <= i < 4 + key.len() {
                assert(text[i] == key[i - 4]);
            } else if i > 4 + key.len() {
                assert(text[i] == value[i - 5 - key.len()]);
            }
        }
    }
    assert(nul_free(get_text(key))) by {
        let text = get_text(key);
        assert forall|i: int| 0 <= i < text.len() implies #[trigger] text[i] != '\0' by {
            if 4 <= i {
                assert(text[i] == key[i - 4]);
            }
        }
    }
    lemma_frame_round_trip(set_text(key, value), after_write);
    lemma_frame_round_trip(get_text(key), after_read);
    lemma_store_fits(entries, capacity, key, value);
}

} // verus!
