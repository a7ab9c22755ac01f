//! What the codec guarantees across an encode and a decode.

use crate::cache::Entries;
use crate::error::{Error, ErrorCode};
use crate::parser::{
    ends_with_newline, entry_line, error_text, fields_of, frame_bytes, frame_of, hit_text,
    is_blank, listing_text, lsp_text, miss_text, nul_position, parse_frame, parse_text,
    pieces_of, space_position, without_newline, CommandType, RequestView,
};
use crate::text::{decimal_text, is_digit, is_space, lemma_decimal_round_trip};
use vstd::prelude::*;
use vstd::utf8::*;

verus! {

/// A text without NUL characters.
pub open spec fn nul_free(text: Seq<char>) -> bool {
    forall|i: int| 0 <= i < text.len() ==> #[trigger] text[i] != '\0'
}

/// A text without separators.
pub open spec fn space_free(text: Seq<char>) -> bool {
    forall|i: int| 0 <= i < text.len() ==> !is_space(#[trigger] text[i])
}

proof fn lemma_scalar_bytes_nonzero(c: u32)
    requires
        c != 0,
        has_width_1_encoding(c) || has_width_2_encoding(c) || has_width_3_encoding(c)
            || has_width_4_encoding(c),
    ensures
        forall|i: int| 0 <= i < encode_scalar(c).len() ==> #[trigger] encode_scalar(c)[i] != 0,
{
    assert(c != 0 && c <= 0x7F ==> (c & 0x7F) as u8 != 0) by (bit_vector);
    assert((0xC0u8 | ((c >> 6) & 0x1F) as u8) != 0) by (bit_vector);
    assert((0xE0u8 | ((c >> 12) & 0x0F) as u8) != 0) by (bit_vector);
    assert((0xF0u8 | ((c >> 18) & 0x7) as u8) != 0) by (bit_vector);
    assert((0x80u8 | (c & 0x3F) as u8) != 0) by (bit_vector);
    assert((0x80u8 | ((c >> 6) & 0x3F) as u8) != 0) by (bit_vector);
    assert((0x80u8 | ((c >> 12) & 0x3F) as u8) != 0) by (bit_vector);
}

/// Encoding a concatenation gives the concatenation of the encodings.
pub proof fn lemma_encode_concat(a: Seq<char>, b: Seq<char>)
    ensures
        encode_utf8(a + b) == encode_utf8(a) + encode_utf8(b),
    decreases a.len(),
{
    if a.len() == 0 {
        assert(a + b =~= b);
        assert(encode_utf8(a) + encode_utf8(b) =~= encode_utf8(b));
    } else {
        lemma_encode_concat(a.drop_first(), b);
        assert((a + b).drop_first() =~= a.drop_first() + b);
        assert((a + b)[0] == a[0]);
        assert(encode_utf8(a + b) =~= encode_utf8(a) + encode_utf8(b));
    }
}

/// The encoding of a text without NUL characters has no zero byte.
pub proof fn lemma_encode_nul_free(text: Seq<char>)
    requires
        nul_free(text),
    ensures
        forall|i: int| 0 <= i < encode_utf8(text).len() ==> #[trigger] encode_utf8(text)[i] != 0,
    decreases text.len(),
{
    if text.len() > 0 {
        let rest = text.drop_first();
        assert(nul_free(rest)) by {
            assert forall|i: int| 0 <= i < rest.len() implies #[trigger] rest[i] != '\0' by {
                assert(rest[i] == text[i + 1]);
            }
        }
        lemma_encode_nul_free(rest);
        let c = text[0] as u32;
        assert(c != 0) by {
            if c == 0 {
                char_u32_cast(text[0], 0u32);
                char_u32_cast('\0', 0u32);
            }
        }
        char_is_scalar(text[0]);
        lemma_scalar_bytes_nonzero(c);
        let head = encode_scalar(c);
        let tail = encode_utf8(rest);
        assert(encode_utf8(text) == head + tail);
        assert forall|i: int| 0 <= i < encode_utf8(text).len() implies #[trigger] encode_utf8(
            text,
        )[i] != 0 by {
            if i < head.len() {
                assert(encode_utf8(text)[i] == head[i]);
            } else {
                assert(encode_utf8(text)[i] == tail[i - head.len()]);
            }
        }
    }
}

proof fn lemma_nul_position(bytes: Seq<u8>, from: int, at: int)
    requires
        0 <= from <= at < bytes.len(),
        bytes[at] == 0,
        forall|i: int| from <= i < at ==> bytes[i] != 0,
    ensures
        nul_position(bytes, from) == at,
    decreases at - from,
{
    if from < at {
        lemma_nul_position(bytes, from + 1, at);
    }
}

/// Decoding the frame of a NUL-free text, whatever follows the frame in the
/// buffer, is decoding that text.
pub proof fn lemma_frame_round_trip(body: Seq<char>, tail: Seq<u8>)
    requires
        nul_free(body),
    ensures
        frame_bytes(frame_of(body) + tail) == encode_utf8(body),
        parse_frame(frame_of(body) + tail) == parse_text(body),
{
    reveal_strlit("\0");
    let end = "\0"@;
    assert(end =~= seq!['\0']);
    lemma_encode_concat(body, end);
    assert(encode_utf8(end) =~= seq![0u8]) by {
        reveal_with_fuel(encode_utf8, 2);
        assert(end.drop_first() =~= Seq::<char>::empty());
        assert('\0' as u32 == 0u32);
        assert((0u32 & 0x7F) as u8 == 0) by (bit_vector);
    }
    let bytes = encode_utf8(body);
    let message = frame_of(body) + tail;
    lemma_encode_nul_free(body);
    assert(message[bytes.len() as int] == 0);
    assert forall|i: int| 0 <= i < bytes.len() implies message[i] != 0 by {
        assert(message[i] == bytes[i]);
    }
    lemma_nul_position(message, 0, bytes.len() as int);
    assert(message.take(bytes.len() as int) =~= bytes);
    encode_utf8_valid_utf8(body);
    encode_utf8_decode_utf8(body);
}

proof fn lemma_space_position(text: Seq<char>, from: int, at: int)
    requires
        0 <= from <= at <= text.len(),
        at < text.len() ==> is_space(text[at]),
        forall|i: int| from <= i < at ==> !is_space(#[trigger] text[i]),
    ensures
        space_position(text, from) == at,
    decreases at - from,
{
    if from < at {
        lemma_space_position(text, from + 1, at);
    }
}

proof fn lemma_first_piece(token: Seq<char>, rest: Seq<char>)
    requires
        space_free(token),
    ensures
        pieces_of(token + " "@ + rest).len() >= 1,
        pieces_of(token + " "@ + rest)[0] == token,
{
    reveal_strlit(" ");
    let text = token + " "@ + rest;
    let n = token.len() as int;
    assert(text[n] == ' ');
    assert forall|i: int| 0 <= i < n implies !is_space(#[trigger] text[i]) by {
        assert(text[i] == token[i]);
    }
    lemma_space_position(text, 0, n);
    assert(text.subrange(0, n) =~= token);
}

/// A text that opens with a token and a space has that token as its first
/// field.
pub proof fn lemma_first_field(token: Seq<char>, rest: Seq<char>)
    requires
        space_free(token),
    ensures
        fields_of(token + " "@ + rest).len() >= 1,
        fields_of(token + " "@ + rest)[0] == token,
{
    reveal_strlit(" ");
    let text = token + " "@ + rest;
    if ends_with_newline(text) {
        assert(rest.len() > 0);
        assert(without_newline(text) =~= token + " "@ + rest.drop_last());
        lemma_first_piece(token, rest.drop_last());
    } else {
        lemma_first_piece(token, rest);
    }
}

/// A text that is one token, neither blank nor holding a separator, is its
/// own single field.
pub proof fn lemma_single_field(token: Seq<char>)
    requires
        space_free(token),
        !is_blank(token),
    ensures
        fields_of(token) == seq![token],
{
    lemma_tokens();
    assert(token.len() > 0) by {
        if token.len() == 0 {
            assert(token =~= Seq::<char>::empty());
        }
    }
    assert(!is_space(token.last()));
    lemma_space_position(token, 0, token.len() as int);
}


/// A text of three pieces joined by single spaces, the first two without
/// separators and the third neither blank nor closed by a newline, has
/// exactly those three fields.
pub proof fn lemma_three_fields(a: Seq<char>, b: Seq<char>, c: Seq<char>)
    requires
        space_free(a),
        space_free(b),
        !is_blank(c),
        !ends_with_newline(c),
    ensures
        fields_of(a + " "@ + b + " "@ + c) == seq![a, b, c],
{
    reveal_strlit(" ");
    lemma_tokens();
    let text = a + " "@ + b + " "@ + c;
    assert(c.len() > 0) by {
        if c.len() == 0 {
            assert(c =~= Seq::<char>::empty());
        }
    }
    assert(text.last() == c.last());
    let first = a.len() as int;
    let second = first + 1 + b.len();
    assert(text[first] == ' ');
    assert(text[second] == ' ');
    assert forall|i: int| 0 <= i < first implies !is_space(#[trigger] text[i]) by {
        assert(text[i] == a[i]);
    }
    assert forall|i: int| first + 1 <= i < second implies !is_space(#[trigger] text[i]) by {
        assert(text[i] == b[i - first - 1]);
    }
    lemma_space_position(text, 0, first);
    lemma_space_position(text, first + 1, second);
    assert(text.subrange(0, first) =~= a);
    assert(text.subrange(first + 1, second) =~= b);
    assert(text.subrange(second + 1, text.len() as int) =~= c);
}

proof fn lemma_tokens()
    ensures
        "GET"@ == seq!['G', 'E', 'T'],
        "DEL"@ == seq!['D', 'E', 'L'],
        "SET"@ == seq!['S', 'E', 'T'],
        "NTF"@ == seq!['N', 'T', 'F'],
        "LSP"@ == seq!['L', 'S', 'P'],
        "LSD"@ == seq!['L', 'S', 'D'],
        "HIT"@ == seq!['H', 'I', 'T'],
        "MSS"@ == seq!['M', 'S', 'S'],
        "ACK"@ == seq!['A', 'C', 'K'],
        "OK"@ == seq!['O', 'K'],
        "ERR"@ == seq!['E', 'R', 'R'],
        "HIT "@ == "HIT"@ + " "@,
        "MSS "@ == "MSS"@ + " "@,
        "LSP "@ == "LSP"@ + " "@,
        "ERR "@ == "ERR"@ + " "@,
        ""@ == Seq::<char>::empty(),
        "\n"@ == seq!['\n'],
        "\0"@ == seq!['\0'],
        " "@ == seq![' '],
{
    reveal_strlit("GET");
    reveal_strlit("DEL");
    reveal_strlit("SET");
    reveal_strlit("NTF");
    reveal_strlit("LSP");
    reveal_strlit("LSD");
    reveal_strlit("HIT");
    reveal_strlit("MSS");
    reveal_strlit("ACK");
    reveal_strlit("OK");
    reveal_strlit("ERR");
    reveal_strlit("HIT ");
    reveal_strlit("MSS ");
    reveal_strlit("LSP ");
    reveal_strlit("ERR ");
    reveal_strlit("");
    reveal_strlit("\n");
    reveal_strlit("\0");
    reveal_strlit(" ");
    assert("GET"@ =~= seq!['G', 'E', 'T']);
    assert("DEL"@ =~= seq!['D', 'E', 'L']);
    assert("SET"@ =~= seq!['S', 'E', 'T']);
    assert("NTF"@ =~= seq!['N', 'T', 'F']);
    assert("LSP"@ =~= seq!['L', 'S', 'P']);
    assert("LSD"@ =~= seq!['L', 'S', 'D']);
    assert("HIT"@ =~= seq!['H', 'I', 'T']);
    assert("MSS"@ =~= seq!['M', 'S', 'S']);
    assert("ACK"@ =~= seq!['A', 'C', 'K']);
    assert("OK"@ =~= seq!['O', 'K']);
    assert("ERR"@ =~= seq!['E', 'R', 'R']);
    assert("HIT "@ =~= "HIT"@ + " "@);
    assert("MSS "@ =~= "MSS"@ + " "@);
    assert("LSP "@ =~= "LSP"@ + " "@);
    assert("ERR "@ =~= "ERR"@ + " "@);
    assert(""@ =~= Seq::<char>::empty());
    assert("\n"@ =~= seq!['\n']);
    assert("\0"@ =~= seq!['\0']);
    assert(" "@ =~= seq![' ']);
}

/// A reply that carries no parsed field: the command alone, with the text.
pub open spec fn bare(cmd: CommandType, text: Seq<char>) -> RequestView {
    RequestView { cmd, key: None, value: None, error: None, original: text }
}

/// A value that can stand last in a frame: not blank, and not closed by a
/// newline.
pub open spec fn plain_value(value: Seq<char>) -> bool {
    !is_blank(value) && !ends_with_newline(value)
}

/// Decoding a `HIT` frame gives the `Hit` command with the key and the
/// value that were encoded, for a key without separators.
pub proof fn lemma_hit_round_trip(key: Seq<char>, value: Seq<char>, tail: Seq<u8>)
    requires
        nul_free(key),
        space_free(key),
        nul_free(value),
        plain_value(value),
    ensures
        parse_frame(frame_of(hit_text(key, value)) + tail) == Ok::<RequestView, ErrorCode>(
            RequestView {
                cmd: CommandType::Hit,
                key: Some(key),
                value: Some(value),
                error: None,
                original: hit_text(key, value),
            },
        ),
{
    lemma_tokens();
    let text = hit_text(key, value);
    assert(nul_free(text)) by {
        assert forall|i: int| 0 <= i < text.len() implies #[trigger] text[i] != '\0' by {
            if 4 <= i < 4 + key.len() {
                assert(text[i] == key[i - 4]);
            } else if i > 4 + key.len() {
                assert(text[i] == value[i - 5 - key.len()]);
            }
        }
    }
    lemma_frame_round_trip(text, tail);
    assert(text =~= "HIT"@ + " "@ + key + " "@ + value);
    lemma_three_fields("HIT"@, key, value);
}

/// Decoding a `MSS` frame gives the `Miss` command with the key that was
/// encoded, for a key that can stand alone.
pub proof fn lemma_miss_round_trip(key: Seq<char>, tail: Seq<u8>)
    requires
        nul_free(key),
        plain_key(key),
    ensures
        parse_frame(frame_of(miss_text(key)) + tail) == Ok::<RequestView, ErrorCode>(
            RequestView {
                cmd: CommandType::Miss,
                key: Some(key),
                value: None,
                error: None,
                original: miss_text(key),
            },
        ),
{
    lemma_tokens();
    let text = miss_text(key);
    assert(nul_free(text)) by {
        assert forall|i: int| 0 <= i < text.len() implies #[trigger] text[i] != '\0' by {
            if 4 <= i {
                assert(text[i] == key[i - 4]);
            }
        }
    }
    lemma_frame_round_trip(text, tail);
    assert(text =~= "MSS"@ + " "@ + key);
    lemma_two_fields("MSS"@, key);
}

/// Decoding an `LSP` frame gives the `ListPartitions` command, and the
/// frame's text holds the listing as it was given.
pub proof fn lemma_lsp_round_trip(listing: Seq<char>, tail: Seq<u8>)
    requires
        nul_free(listing),
    ensures
        parse_frame(frame_of(lsp_text(listing)) + tail) == Ok::<RequestView, ErrorCode>(
            bare(CommandType::ListPartitions, lsp_text(listing)),
        ),
{
    lemma_tokens();
    let text = lsp_text(listing);
    lemma_frame_round_trip(text, tail);
    assert(text =~= "LSP"@ + " "@ + listing);
    lemma_first_field("LSP"@, listing);
}

/// Decoding the `OK`, `NTF` and `ACK` frames gives their commands.
pub proof fn lemma_plain_round_trip(tail: Seq<u8>)
    ensures
        parse_frame(frame_of("OK"@) + tail) == Ok::<RequestView, ErrorCode>(
            bare(CommandType::Okay, "OK"@),
        ),
        parse_frame(frame_of("NTF"@) + tail) == Ok::<RequestView, ErrorCode>(
            bare(CommandType::Notify, "NTF"@),
        ),
        parse_frame(frame_of("ACK"@) + tail) == Ok::<RequestView, ErrorCode>(
            bare(CommandType::Ack, "ACK"@),
        ),
{
    lemma_tokens();
    lemma_frame_round_trip("OK"@, tail);
    lemma_frame_round_trip("NTF"@, tail);
    lemma_frame_round_trip("ACK"@, tail);
    lemma_single_field("OK"@);
    lemma_single_field("NTF"@);
    lemma_single_field("ACK"@);
}

/// Decoding an `ERR` frame gives the `Error` command with the code that was
/// encoded, provided the message can stand last in a frame.
pub proof fn lemma_error_round_trip(code: ErrorCode, msg: Seq<char>, tail: Seq<u8>)
    requires
        nul_free(msg),
        plain_value(msg),
    ensures
        parse_frame(frame_of(error_text(code, msg)) + tail) == Ok::<RequestView, ErrorCode>(
            RequestView {
                cmd: CommandType::Error,
                key: None,
                value: None,
                error: Some(code),
                original: error_text(code, msg),
            },
        ),
{
    lemma_tokens();
    let number = decimal_text(code.number());
    let text = error_text(code, msg);
    lemma_decimal_round_trip(code.number());
    assert(nul_free(text)) by {
        assert forall|i: int| 0 <= i < text.len() implies #[trigger] text[i] != '\0' by {
            if 4 <= i < 4 + number.len() {
                assert(text[i] == number[i - 4]);
                assert(is_digit(number[i - 4]));
            } else if i > 4 + number.len() {
                assert(text[i] == msg[i - 5 - number.len()]);
            }
        }
    }
    lemma_frame_round_trip(text, tail);
    assert(text =~= "ERR"@ + " "@ + number + " "@ + msg);
    assert(space_free(number)) by {
        assert forall|i: int| 0 <= i < number.len() implies !is_space(#[trigger] number[i]) by {
            assert(is_digit(number[i]));
        }
    }
    lemma_three_fields("ERR"@, number, msg);
}


/// A text of two pieces joined by a single space, both without separators
/// and the second not blank, has exactly those two fields.
pub proof fn lemma_two_fields(a: Seq<char>, b: Seq<char>)
    requires
        space_free(a),
        space_free(b),
        !is_blank(b),
    ensures
        fields_of(a + " "@ + b) == seq![a, b],
{
    reveal_strlit(" ");
    lemma_tokens();
    let text = a + " "@ + b;
    assert(b.len() > 0) by {
        if b.len() == 0 {
            assert(b =~= Seq::<char>::empty());
        }
    }
    assert(text.last() == b.last());
    assert(!is_space(b.last()));
    let first = a.len() as int;
    assert(text[first] == ' ');
    assert forall|i: int| 0 <= i < first implies !is_space(#[trigger] text[i]) by {
        assert(text[i] == a[i]);
    }
    assert forall|i: int| first + 1 <= i < text.len() implies !is_space(#[trigger] text[i]) by {
        assert(text[i] == b[i - first - 1]);
    }
    lemma_space_position(text, 0, first);
    lemma_space_position(text, first + 1, text.len() as int);
    assert(text.subrange(0, first) =~= a);
    assert(text.subrange(first + 1, text.len() as int) =~= b);
}

/// The text of a read request for a key.
pub open spec fn get_text(key: Seq<char>) -> Seq<char> {
    "GET "@ + key
}

/// The text of a write request for a key and a value.
pub open spec fn set_text(key: Seq<char>, value: Seq<char>) -> Seq<char> {
    "SET "@ + key + " "@ + value
}

/// The text of a removal request for a key.
pub open spec fn del_text(key: Seq<char>) -> Seq<char> {
    "DEL "@ + key
}

/// A key that can stand alone in a request: not blank, and without
/// separators.
pub open spec fn plain_key(key: Seq<char>) -> bool {
    space_free(key) && !is_blank(key)
}

/// The requests for a plain key decode to their command with that key, and
/// a write request also to its value.
pub proof fn lemma_requests_decode(key: Seq<char>, value: Seq<char>)
    requires
        plain_key(key),
        plain_value(value),
    ensures
        parse_text(get_text(key)) == Ok::<RequestView, ErrorCode>(
            RequestView {
                cmd: CommandType::Get,
                key: Some(key),
                value: None,
                error: None,
                original: get_text(key),
            },
        ),
        parse_text(del_text(key)) == Ok::<RequestView, ErrorCode>(
            RequestView {
                cmd: CommandType::Delete,
                key: Some(key),
                value: None,
                error: None,
                original: del_text(key),
            },
        ),
        parse_text(set_text(key, value)) == Ok::<RequestView, ErrorCode>(
            RequestView {
                cmd: CommandType::Put,
                key: Some(key),
                value: Some(value),
                error: None,
                original: set_text(key, value),
            },
        ),
{
    lemma_tokens();
    reveal_strlit("GET ");
    reveal_strlit("SET ");
    reveal_strlit("DEL ");
    assert(get_text(key) =~= "GET"@ + " "@ + key);
    assert(del_text(key) =~= "DEL"@ + " "@ + key);
    assert(set_text(key, value) =~= "SET"@ + " "@ + key + " "@ + value);
    lemma_two_fields("GET"@, key);
    lemma_two_fields("DEL"@, key);
    lemma_three_fields("SET"@, key, value);
}


proof fn lemma_plain_text(text: Seq<char>)
    requires
        text.len() > 1,
        nul_free(text),
    ensures
        !is_blank(text),
{
    lemma_tokens();
}

/// Every fixed message is a text without NUL characters that can stand
/// last in a frame.
pub proof fn lemma_messages_are_plain(code: ErrorCode)
    ensures
        nul_free(code.message()),
        plain_value(code.message()),
{
    reveal_strlit("Invalid request: command not found");
    reveal_strlit("Invalid request: not enough arguments");
    reveal_strlit("Invalid request: invalid command arguments");
    reveal_strlit("Invalid request: invalid UTF-8 sequence");
    reveal_strlit("Internal error: could not read from socket");
    reveal_strlit("Internal error: unknown error");
    reveal_strlit("Internal error: no partition found");
    reveal_strlit("Internal error: this command is not supported on this node (master)");
    reveal_strlit("Internal error: this command is not supported on this node (partition)");
    reveal_strlit("Internal error: partition unavailable");
    assert(nul_free(code.message()));
    lemma_plain_text(code.message());
}

/// Decoding the frame of an error built from its code gives that code back.
pub proof fn lemma_built_error_round_trip(e: Error, tail: Seq<u8>)
    requires
        e.wf(),
    ensures
        parse_frame(frame_of(error_text(e.code, e.msg@)) + tail) == Ok::<RequestView, ErrorCode>(
            RequestView {
                cmd: CommandType::Error,
                key: None,
                value: None,
                error: Some(e.code),
                original: error_text(e.code, e.msg@),
            },
        ),
{
    lemma_messages_are_plain(e.code);
    lemma_error_round_trip(e.code, e.msg@, tail);
}


/// Entries whose keys and values hold no NUL character.
pub open spec fn nul_free_entries(entries: Entries) -> bool {
    forall|i: int|
        0 <= i < entries.len() ==> nul_free((#[trigger] entries[i]).0) && nul_free(entries[i].1)
}

proof fn lemma_listing_starts_with_a_line(entries: Entries)
    requires
        entries.len() > 0,
    ensures
        exists|rest: Seq<char>| listing_text(entries) == entry_line(entries[0]) + rest,
    decreases entries.len(),
{
    if entries.len() == 1 {
        assert(listing_text(entries.drop_last()) =~= Seq::<char>::empty());
        assert(entries.last() == entries[0]);
        assert(listing_text(entries) =~= entry_line(entries[0]) + Seq::<char>::empty());
    } else {
        let before = entries.drop_last();
        lemma_listing_starts_with_a_line(before);
        let rest = choose|rest: Seq<char>| listing_text(before) == entry_line(before[0]) + rest;
        assert(listing_text(entries) =~= entry_line(entries[0]) + (rest + entry_line(
            entries.last(),
        )));
    }
}

proof fn lemma_listing_is_nul_free(entries: Entries)
    requires
        nul_free_entries(entries),
    ensures
        nul_free(listing_text(entries)),
    decreases entries.len(),
{
    if entries.len() > 0 {
        let before = entries.drop_last();
        assert(nul_free_entries(before)) by {
            assert forall|i: int| 0 <= i < before.len() implies nul_free(
                (#[trigger] before[i]).0,
            ) && nul_free(before[i].1) by {
                assert(before[i] == entries[i]);
            }
        }
        lemma_listing_is_nul_free(before);
        let last = entries.last();
        reveal_strlit("Key: ");
        reveal_strlit(", Value: ");
        reveal_strlit(" \n");
        let line = entry_line(last);
        assert(nul_free(line)) by {
            assert forall|i: int| 0 <= i < line.len() implies #[trigger] line[i] != '\0' by {
                let k = last.0.len();
                if 5 <= i < 5 + k {
                    assert(line[i] == last.0[i - 5]);
                } else if 5 + k + 9 <= i < 5 + k + 9 + last.1.len() {
                    assert(line[i] == last.1[i - 5 - k - 9]);
                }
            }
        }
        let text = listing_text(entries);
        assert forall|i: int| 0 <= i < text.len() implies #[trigger] text[i] != '\0' by {
            let n = listing_text(before).len();
            if i < n {
                assert(text[i] == listing_text(before)[i]);
            } else {
                assert(text[i] == line[i - n]);
            }
        }
    }
}

/// A cache listing is a reply for the eye, not a request: its frame decodes
/// to no command. The frame of an empty listing lacks a command, and any
/// other opens with a token that names none.
pub proof fn lemma_listing_is_no_request(entries: Entries, tail: Seq<u8>)
    requires
        nul_free_entries(entries),
    ensures
        parse_frame(frame_of(listing_text(entries)) + tail) == Err::<RequestView, ErrorCode>(
            if entries.len() == 0 {
                ErrorCode::NotEnoughArgs
            } else {
                ErrorCode::InvalidRequestCmd
            },
        ),
{
    lemma_tokens();
    lemma_listing_is_nul_free(entries);
    let text = listing_text(entries);
    lemma_frame_round_trip(text, tail);
    if entries.len() == 0 {
        lemma_space_position(text, 0, 0);
    } else {
        lemma_listing_starts_with_a_line(entries);
        let rest = choose|rest: Seq<char>| listing_text(entries) == entry_line(entries[0]) + rest;
        reveal_strlit("Key: ");
        reveal_strlit("Key:");
        let token = "Key:"@;
        let first = entries[0];
        let after = first.0 + ", Value: "@ + first.1 + " \n"@ + rest;
        assert(text =~= token + " "@ + after);
        lemma_first_field(token, after);
    }
}

} // verus!
