//! The wire protocol: NUL-terminated text frames of at most three
//! whitespace-separated fields, the first of which names the command.

use crate::cache::{lru_entries, lru_snapshot, pairs_view, Entries};
use crate::error::{Error, ErrorCode};
use crate::text::{
    chars_of, decimal_text, decimal_u8, is_space, is_whitespace, option_text, parse_u8, push_char,
    same_text, text_from_utf8, u8_to_text,
};
use lru::LruCache;
use vstd::prelude::*;
use vstd::string::*;
use vstd::utf8::*;

verus! {

/// The command named by the first field of a frame.
#[derive(Debug, Clone, Copy, PartialEq, Eq, Structural)]
pub enum CommandType {
    Get,
    Delete,
    /// The `SET` command.
    Put,
    Notify,
    ListPartitions,
    Lsd,
    Hit,
    Miss,
    Ack,
    /// The `OK` reply.
    Okay,
    Error,
}

/// One decoded frame. `original_rq` keeps the frame's text as it came, so
/// that it can be forwarded without being encoded again.
#[derive(Debug, Clone)]
pub struct ParsedRequest {
    pub cmd: CommandType,
    pub key: Option<String>,
    pub value: Option<String>,
    pub error: Option<Error>,
    pub original_rq: String,
}

/// What a decoded frame says, with texts as character sequences and the
/// embedded error as its code.
pub ghost struct RequestView {
    pub cmd: CommandType,
    pub key: Option<Seq<char>>,
    pub value: Option<Seq<char>>,
    pub error: Option<ErrorCode>,
    pub original: Seq<char>,
}

impl View for ParsedRequest {
    type V = RequestView;

    open spec fn view(&self) -> RequestView {
        RequestView {
            cmd: self.cmd,
            key: option_text(self.key),
            value: option_text(self.value),
            error: match self.error {
                Some(e) => Some(e.code),
                None => None,
            },
            original: self.original_rq@,
        }
    }
}

impl ParsedRequest {
    /// An embedded error carries the message fixed for its code.
    pub open spec fn wf(self) -> bool {
        self.error matches Some(e) ==> e.wf()
    }
}

/// A failed step: the error has the given code and that code's message.
pub open spec fn fails_with<T>(r: Result<T, Error>, code: ErrorCode) -> bool {
    r matches Err(e) && e.code == code && e.wf()
}

/// The index of the first NUL byte at or after `from`, or the length of
/// `bytes` when there is none.
pub open spec fn nul_position(bytes: Seq<u8>, from: int) -> int
    decreases bytes.len() - from,
{
    if from < 0 || from >= bytes.len() {
        bytes.len() as int
    } else if bytes[from] == 0 {
        from
    } else {
        nul_position(bytes, from + 1)
    }
}

/// The bytes of a frame: everything before the first NUL.
pub open spec fn frame_bytes(message: Seq<u8>) -> Seq<u8> {
    message.take(nul_position(message, 0))
}

/// The index of the first separator at or after `from`, or the length of
/// `text` when there is none.
pub open spec fn space_position(text: Seq<char>, from: int) -> int
    decreases text.len() - from,
{
    if from < 0 || from >= text.len() {
        text.len() as int
    } else if is_space(text[from]) {
        from
    } else {
        space_position(text, from + 1)
    }
}

/// The text cut at its first two separators: one, two or three pieces, the
/// last of which keeps any further separators.
pub open spec fn split_fields(text: Seq<char>) -> Seq<Seq<char>> {
    let first = space_position(text, 0);
    if first >= text.len() {
        seq![text]
    } else {
        let second = space_position(text, first + 1);
        if second >= text.len() {
            seq![text.subrange(0, first), text.subrange(first + 1, text.len() as int)]
        } else {
            seq![
                text.subrange(0, first),
                text.subrange(first + 1, second),
                text.subrange(second + 1, text.len() as int),
            ]
        }
    }
}

/// A last piece that does not count as a field: empty, a lone newline or a
/// lone NUL.
pub open spec fn is_blank(piece: Seq<char>) -> bool {
    piece == ""@ || piece == "\n"@ || piece == "\0"@
}

/// The pieces of a text that count as fields: a blank last piece does not.
pub open spec fn pieces_of(text: Seq<char>) -> Seq<Seq<char>> {
    let pieces = split_fields(text);
    if is_blank(pieces.last()) {
        pieces.drop_last()
    } else {
        pieces
    }
}

/// Whether a text ends with a newline.
pub open spec fn ends_with_newline(text: Seq<char>) -> bool {
    text.len() > 0 && text.last() == '\n'
}

/// The text without the newline at its end, if it has one.
pub open spec fn without_newline(text: Seq<char>) -> Seq<char> {
    if ends_with_newline(text) {
        text.drop_last()
    } else {
        text
    }
}

/// The fields of a frame's text: a newline at the end of the text is taken
/// off, and what is left is cut into its pieces.
pub open spec fn fields_of(text: Seq<char>) -> Seq<Seq<char>> {
    pieces_of(without_newline(text))
}

/// The command that a token names, if any. Tokens are case-sensitive.
pub open spec fn command_of(token: Seq<char>) -> Option<CommandType> {
    if token == "GET"@ {
        Some(CommandType::Get)
    } else if token == "DEL"@ {
        Some(CommandType::Delete)
    } else if token == "SET"@ {
        Some(CommandType::Put)
    } else if token == "NTF"@ {
        Some(CommandType::Notify)
    } else if token == "LSP"@ {
        Some(CommandType::ListPartitions)
    } else if token == "LSD"@ {
        Some(CommandType::Lsd)
    } else if token == "HIT"@ {
        Some(CommandType::Hit)
    } else if token == "MSS"@ {
        Some(CommandType::Miss)
    } else if token == "ACK"@ {
        Some(CommandType::Ack)
    } else if token == "OK"@ {
        Some(CommandType::Okay)
    } else if token == "ERR"@ {
        Some(CommandType::Error)
    } else {
        None
    }
}

/// `text` with every two-character sequence backslash, zero replaced by a
/// NUL character, reading from the left.
pub open spec fn unescape_nul(text: Seq<char>) -> Seq<char>
    decreases text.len(),
{
    if text.len() == 0 {
        text
    } else if text.len() >= 2 && text[0] == '\\' && text[1] == '0' {
        seq!['\0'] + unescape_nul(text.skip(2))
    } else {
        seq![text[0]] + unescape_nul(text.skip(1))
    }
}

/// Whether a token reads `GET` when case is ignored.
pub open spec fn is_get_token(token: Seq<char>) -> bool {
    &&& token.len() == 3
    &&& (token[0] == 'G' || token[0] == 'g')
    &&& (token[1] == 'E' || token[1] == 'e')
    &&& (token[2] == 'T' || token[2] == 't')
}

/// The key that the fields carry. After `GET`, a third field belongs to the
/// key: the key is then the second field, a space and the third field, with
/// escaped NULs resolved.
pub open spec fn key_field(fields: Seq<Seq<char>>) -> Result<Seq<char>, ErrorCode> {
    if fields.len() < 2 {
        Err(ErrorCode::NotEnoughArgs)
    } else if is_get_token(fields[0]) && fields.len() >= 3 {
        Ok(unescape_nul(fields[1] + " "@ + fields[2]))
    } else {
        Ok(fields[1])
    }
}

/// The value that the fields carry: the third field.
pub open spec fn value_field(fields: Seq<Seq<char>>) -> Result<Seq<char>, ErrorCode> {
    if fields.len() < 3 {
        Err(ErrorCode::NotEnoughArgs)
    } else {
        Ok(fields[2])
    }
}

/// The error that the fields carry: the second field is its number in
/// decimal, and a third field must be there.
pub open spec fn error_field(fields: Seq<Seq<char>>) -> Result<ErrorCode, ErrorCode> {
    if fields.len() < 3 {
        Err(ErrorCode::NotEnoughArgs)
    } else {
        match decimal_u8(fields[1]) {
            Some(n) => Ok(ErrorCode::of_number(n)),
            None => Err(ErrorCode::InvalidRequestArg),
        }
    }
}

/// The key of a frame: `GET`, `SET` and `DEL` must carry one; `LSD`, `HIT`
/// and `MSS` have their second field as key when there is one; no other
/// command has a key.
pub open spec fn key_of(cmd: CommandType, fields: Seq<Seq<char>>) -> Result<
    Option<Seq<char>>,
    ErrorCode,
> {
    match cmd {
        CommandType::Get | CommandType::Put | CommandType::Delete => match key_field(fields) {
            Ok(k) => Ok(Some(k)),
            Err(c) => Err(c),
        },
        CommandType::Lsd | CommandType::Hit | CommandType::Miss => if fields.len() < 2 {
            Ok(None)
        } else {
            Ok(Some(fields[1]))
        },
        _ => Ok(None),
    }
}

/// The value of a frame: `SET` must carry one; `HIT` has its third field as
/// value when there is one; no other command has a value.
pub open spec fn value_of(cmd: CommandType, fields: Seq<Seq<char>>) -> Result<
    Option<Seq<char>>,
    ErrorCode,
> {
    match cmd {
        CommandType::Put => match value_field(fields) {
            Ok(v) => Ok(Some(v)),
            Err(c) => Err(c),
        },
        CommandType::Hit => if fields.len() < 3 {
            Ok(None)
        } else {
            Ok(Some(fields[2]))
        },
        _ => Ok(None),
    }
}

/// The embedded error of a frame: only `ERR` has one, and must.
pub open spec fn error_of(cmd: CommandType, fields: Seq<Seq<char>>) -> Result<
    Option<ErrorCode>,
    ErrorCode,
> {
    match cmd {
        CommandType::Error => match error_field(fields) {
            Ok(e) => Ok(Some(e)),
            Err(c) => Err(c),
        },
        _ => Ok(None),
    }
}

/// What the text of a frame decodes to, or the code of the first check that
/// it fails: command, then key, then value, then embedded error.
pub open spec fn parse_text(text: Seq<char>) -> Result<RequestView, ErrorCode> {
    let fields = fields_of(text);
    if fields.len() == 0 {
        Err(ErrorCode::NotEnoughArgs)
    } else {
        match command_of(fields[0]) {
            None => Err(ErrorCode::InvalidRequestCmd),
            Some(cmd) => match key_of(cmd, fields) {
                Err(c) => Err(c),
                Ok(key) => match value_of(cmd, fields) {
                    Err(c) => Err(c),
                    Ok(value) => match error_of(cmd, fields) {
                        Err(c) => Err(c),
                        Ok(error) => Ok(
                            RequestView { cmd, key, value, error, original: text },
                        ),
                    },
                },
            },
        }
    }
}

/// What a received buffer decodes to: the bytes before the first NUL must be
/// UTF-8, and their text is then decoded as a frame.
pub open spec fn parse_frame(message: Seq<u8>) -> Result<RequestView, ErrorCode> {
    let bytes = frame_bytes(message);
    if !valid_utf8(bytes) {
        Err(ErrorCode::InvalidSequence)
    } else {
        parse_text(decode_utf8(bytes))
    }
}

/// The texts of a list of string slices.
pub open spec fn texts(parts: Seq<&str>) -> Seq<Seq<char>> {
    parts.map_values(|p: &str| p@)
}

fn find_nul(bytes: &Vec<u8>) -> (at: usize)
    ensures
        at == nul_position(bytes@, 0),
        at <= bytes.len(),
{
    let mut i: usize = 0;
    while i < bytes.len() && bytes[i] != 0
        invariant
            i <= bytes.len(),
            nul_position(bytes@, 0) == nul_position(bytes@, i as int),
        decreases bytes.len() - i,
    {
        i = i + 1;
    }
    i
}

fn find_space(chars: &Vec<char>, from: usize) -> (at: usize)
    requires
        from <= chars.len(),
    ensures
        at == space_position(chars@, from as int),
        from <= at <= chars.len(),
{
    let mut i: usize = from;
    while i < chars.len() && !is_whitespace(chars[i])
        invariant
            from <= i <= chars.len(),
            space_position(chars@, from as int) == space_position(chars@, i as int),
        decreases chars.len() - i,
    {
        i = i + 1;
    }
    i
}

fn is_blank_piece(piece: &str) -> (b: bool)
    ensures
        b == is_blank(piece@),
{
    same_text(piece, "") || same_text(piece, "\n") || same_text(piece, "\0")
}

/// Cuts the text of a frame into its fields.
pub fn split_request<'a>(text: &'a str) -> (parts: Vec<&'a str>)
    ensures
        texts(parts@) == fields_of(text@),
{
    let chars = chars_of(text);
    let n = chars.len();
    if n > 0 && chars[n - 1] == '\n' {
        assert(text@.subrange(0, n - 1) =~= text@.drop_last());
        split_pieces(text.substring_char(0, n - 1))
    } else {
        split_pieces(text)
    }
}

/// Cuts a text into its pieces, and leaves a blank last piece out.
pub fn split_pieces<'a>(text: &'a str) -> (parts: Vec<&'a str>)
    ensures
        texts(parts@) == pieces_of(text@),
{
    let chars = chars_of(text);
    let n = chars.len();
    let mut parts: Vec<&'a str> = Vec::new();
    let first = find_space(&chars, 0);
    if first >= n {
        parts.push(text);
    } else {
        parts.push(text.substring_char(0, first));
        let second = find_space(&chars, first + 1);
        if second >= n {
            parts.push(text.substring_char(first + 1, n));
        } else {
            parts.push(text.substring_char(first + 1, second));
            parts.push(text.substring_char(second + 1, n));
        }
    }
    assert(texts(parts@) =~= split_fields(text@));
    let ghost pieces = parts@;
    if is_blank_piece(parts[parts.len() - 1]) {
        parts.pop();
        assert(parts@ == pieces.drop_last());
        assert(texts(parts@) =~= texts(pieces).drop_last());
    }
    parts
}


/// Reads the command from the first field.
pub fn extract_cmd(parts: &Vec<&str>) -> (r: Result<CommandType, Error>)
    ensures
        parts.len() == 0 ==> fails_with(r, ErrorCode::NotEnoughArgs),
        parts.len() > 0 ==> match command_of(texts(parts@)[0]) {
            Some(cmd) => r == Ok::<CommandType, Error>(cmd),
            None => fails_with(r, ErrorCode::InvalidRequestCmd),
        },
{
    if parts.len() == 0 {
        return Err(Error::from_code(ErrorCode::NotEnoughArgs));
    }
    let token = parts[0];
    if same_text(token, "GET") {
        Ok(CommandType::Get)
    } else if same_text(token, "DEL") {
        Ok(CommandType::Delete)
    } else if same_text(token, "SET") {
        Ok(CommandType::Put)
    } else if same_text(token, "NTF") {
        Ok(CommandType::Notify)
    } else if same_text(token, "LSP") {
        Ok(CommandType::ListPartitions)
    } else if same_text(token, "LSD") {
        Ok(CommandType::Lsd)
    } else if same_text(token, "HIT") {
        Ok(CommandType::Hit)
    } else if same_text(token, "MSS") {
        Ok(CommandType::Miss)
    } else if same_text(token, "ACK") {
        Ok(CommandType::Ack)
    } else if same_text(token, "OK") {
        Ok(CommandType::Okay)
    } else if same_text(token, "ERR") {
        Ok(CommandType::Error)
    } else {
        Err(Error::from_code(ErrorCode::InvalidRequestCmd))
    }
}

fn reads_get(token: &str) -> (b: bool)
    ensures
        b == is_get_token(token@),
{
    let chars = chars_of(token);
    chars.len() == 3 && (chars[0] == 'G' || chars[0] == 'g') && (chars[1] == 'E' || chars[1]
        == 'e') && (chars[2] == 'T' || chars[2] == 't')
}

/// Resolves escaped NULs in a text.
pub fn resolve_nul(text: &str) -> (out: String)
    ensures
        out@ == unescape_nul(text@),
{
    let chars = chars_of(text);
    let mut out = String::new();
    let mut i: usize = 0;
    assert(chars@.skip(0) =~= text@);
    assert(out@ + unescape_nul(text@) =~= unescape_nul(text@));
    while i < chars.len()
        invariant
            i <= chars.len(),
            chars@ == text@,
            out@ + unescape_nul(chars@.skip(i as int)) == unescape_nul(text@),
        decreases chars.len() - i,
    {
        let ghost rest = chars@.skip(i as int);
        if i + 1 < chars.len() && chars[i] == '\\' && chars[i + 1] == '0' {
            push_char(&mut out, '\0');
            i = i + 2;
            assert(rest.skip(2) =~= chars@.skip(i as int));
        } else {
            push_char(&mut out, chars[i]);
            i = i + 1;
            assert(rest.skip(1) =~= chars@.skip(i as int));
        }
        assert(out@ + unescape_nul(chars@.skip(i as int)) =~= unescape_nul(text@));
    }
    assert(chars@.skip(i as int) =~= Seq::<char>::empty());
    assert(out@ =~= out@ + unescape_nul(chars@.skip(i as int)));
    out
}

/// Reads the key from the fields.
pub fn extract_key(parts: &Vec<&str>) -> (r: Result<Option<String>, Error>)
    ensures
        match key_field(texts(parts@)) {
            Ok(k) => r matches Ok(Some(key)) && key@ == k,
            Err(c) => fails_with(r, c),
        },
{
    if parts.len() < 2 {
        Err(Error::from_code(ErrorCode::NotEnoughArgs))
    } else if reads_get(parts[0]) && parts.len() >= 3 {
        let mut joined = parts[1].to_owned();
        joined.append(" ");
        joined.append(parts[2]);
        Ok(Some(resolve_nul(joined.as_str())))
    } else {
        Ok(Some(parts[1].to_owned()))
    }
}

/// Reads the value from the fields.
pub fn extract_value(parts: &Vec<&str>) -> (r: Result<Option<String>, Error>)
    ensures
        match value_field(texts(parts@)) {
            Ok(v) => r matches Ok(Some(value)) && value@ == v,
            Err(c) => fails_with(r, c),
        },
{
    if parts.len() < 3 {
        Err(Error::from_code(ErrorCode::NotEnoughArgs))
    } else {
        Ok(Some(parts[2].to_owned()))
    }
}

/// Reads the embedded error from the fields.
pub fn extract_error(parts: &Vec<&str>) -> (r: Result<Option<Error>, Error>)
    ensures
        match error_field(texts(parts@)) {
            Ok(code) => r matches Ok(Some(e)) && e.code == code && e.wf(),
            Err(c) => fails_with(r, c),
        },
{
    if parts.len() < 3 {
        Err(Error::from_code(ErrorCode::NotEnoughArgs))
    } else {
        match parse_u8(parts[1]) {
            Some(n) => Ok(Some(Error::from_u8(n))),
            None => Err(Error::from_code(ErrorCode::InvalidRequestArg)),
        }
    }
}

/// Whether `r` is the outcome that `expected` describes: the same request on
/// success, an error with the same code and that code's message on failure.
pub open spec fn decodes_to(
    r: Result<ParsedRequest, Error>,
    expected: Result<RequestView, ErrorCode>,
) -> bool {
    match expected {
        Ok(v) => r matches Ok(p) && p@ == v && p.wf(),
        Err(c) => fails_with(r, c),
    }
}

/// Decodes one received buffer.
pub fn parse_request(message: Vec<u8>) -> (r: Result<ParsedRequest, Error>)
    ensures
        decodes_to(r, parse_frame(message@)),
{
    let mut message = message;
    let end = find_nul(&message);
    message.truncate(end);
    let buf = match text_from_utf8(message) {
        Some(buf) => buf,
        None => {
            return Err(Error::from_code(ErrorCode::InvalidSequence));
        },
    };
    let parts = split_request(buf.as_str());
    let ghost fields = fields_of(buf@);

    let cmd = match extract_cmd(&parts) {
        Ok(cmd) => cmd,
        Err(e) => {
            return Err(e);
        },
    };

    let key = match cmd {
        CommandType::Get | CommandType::Put | CommandType::Delete => match extract_key(&parts) {
            Ok(key) => key,
            Err(e) => {
                return Err(e);
            },
        },
        CommandType::Lsd | CommandType::Hit | CommandType::Miss => if parts.len() < 2 {
            None
        } else {
            Some(parts[1].to_owned())
        },
        _ => None,
    };

    let value = match cmd {
        CommandType::Put => match extract_value(&parts) {
            Ok(value) => value,
            Err(e) => {
                return Err(e);
            },
        },
        CommandType::Hit => if parts.len() < 3 {
            None
        } else {
            Some(parts[2].to_owned())
        },
        _ => None,
    };

    let error = match cmd {
        CommandType::Error => match extract_error(&parts) {
            Ok(error) => error,
            Err(e) => {
                return Err(e);
            },
        },
        _ => None,
    };

    Ok(ParsedRequest { cmd, key, value, error, original_rq: buf })
}


/// The bytes of a frame with the given text: its UTF-8 encoding, closed by a
/// NUL byte.
pub open spec fn frame_of(body: Seq<char>) -> Seq<u8> {
    encode_utf8(body + "\0"@)
}

/// The text of a reply to a read that found the key.
pub open spec fn hit_text(key: Seq<char>, value: Seq<char>) -> Seq<char> {
    "HIT "@ + key + " "@ + value
}

/// The text of a reply to a read that did not find the key.
pub open spec fn miss_text(key: Seq<char>) -> Seq<char> {
    "MSS "@ + key
}

/// The text of a reply that lists the partitions.
pub open spec fn lsp_text(listing: Seq<char>) -> Seq<char> {
    "LSP "@ + listing
}

/// The text of a reply that reports an error: its number in decimal, then
/// its message.
pub open spec fn error_text(code: ErrorCode, msg: Seq<char>) -> Seq<char> {
    "ERR "@ + decimal_text(code.number()) + " "@ + msg
}

/// The frame that reports an error of the given code with its fixed message.
pub open spec fn error_frame(code: ErrorCode) -> Seq<u8> {
    frame_of(error_text(code, code.message()))
}

/// One line of a cache listing.
pub open spec fn entry_line(entry: (Seq<char>, Seq<char>)) -> Seq<char> {
    "Key: "@ + entry.0 + ", Value: "@ + entry.1 + " \n"@
}

/// The listing of cache entries: one line for each, in their order.
pub open spec fn listing_text(entries: Entries) -> Seq<char>
    decreases entries.len(),
{
    if entries.len() == 0 {
        Seq::empty()
    } else {
        listing_text(entries.drop_last()) + entry_line(entries.last())
    }
}

/// The frame of a text: its bytes, closed by a NUL.
pub fn build_frame(body: &str) -> (frame: Vec<u8>)
    ensures
        frame@ == frame_of(body@),
{
    close_frame(body.to_owned())
}

fn close_frame(body: String) -> (frame: Vec<u8>)
    ensures
        frame@ == frame_of(body@),
{
    let mut text = body;
    text.append("\0");
    text.as_str().as_bytes_vec()
}

/// The frame that answers a read with the value found.
pub fn build_hit_response(key: &str, value: &str) -> (frame: Vec<u8>)
    ensures
        frame@ == frame_of(hit_text(key@, value@)),
{
    let mut text = "HIT ".to_owned();
    text.append(key);
    text.append(" ");
    text.append(value);
    close_frame(text)
}

/// The frame that lists what a cache holds, one line for each entry, from
/// the most to the least recently used.
pub fn build_lsd_response(cache: &LruCache<String, String>) -> (frame: Vec<u8>)
    ensures
        frame@ == frame_of(listing_text(lru_entries(*cache))),
{
    let pairs = lru_snapshot(cache);
    let mut text = String::new();
    let mut i: usize = 0;
    while i < pairs.len()
        invariant
            i <= pairs.len(),
            text@ == listing_text(pairs_view(pairs@).take(i as int)),
        decreases pairs.len() - i,
    {
        let ghost before = pairs_view(pairs@).take(i as int);
        let ghost after = pairs_view(pairs@).take(i + 1);
        assert(after.drop_last() =~= before);
        assert(after.last() == (pairs@[i as int].0@, pairs@[i as int].1@));
        text.append("Key: ");
        text.append(pairs[i].0.as_str());
        text.append(", Value: ");
        text.append(pairs[i].1.as_str());
        text.append(" \n");
        i = i + 1;
    }
    assert(pairs_view(pairs@).take(i as int) =~= pairs_view(pairs@));
    close_frame(text)
}

/// The frame that carries a listing of the partitions.
pub fn build_lsp_response(partitions_str: String) -> (frame: Vec<u8>)
    ensures
        frame@ == frame_of(lsp_text(partitions_str@)),
{
    let mut text = "LSP ".to_owned();
    text.append(partitions_str.as_str());
    close_frame(text)
}

/// The frame that answers a read of a key that is not there.
pub fn build_miss_response(key: &str) -> (frame: Vec<u8>)
    ensures
        frame@ == frame_of(miss_text(key@)),
{
    let mut text = "MSS ".to_owned();
    text.append(key);
    close_frame(text)
}

/// The frame that confirms a write or a removal.
pub fn build_ok_response() -> (frame: Vec<u8>)
    ensures
        frame@ == frame_of("OK"@),
{
    close_frame("OK".to_owned())
}

/// The frame that reports an error.
pub fn build_error_response(err: &Error) -> (frame: Vec<u8>)
    ensures
        frame@ == frame_of(error_text(err.code, err.msg@)),
{
    let mut text = "ERR ".to_owned();
    let number = u8_to_text(err.code.to_u8());
    text.append(number.as_str());
    text.append(" ");
    text.append(err.msg.as_str());
    close_frame(text)
}

/// The frame by which a partition announces itself.
pub fn build_notify_request() -> (frame: Vec<u8>)
    ensures
        frame@ == frame_of("NTF"@),
{
    close_frame("NTF".to_owned())
}

/// The frame that acknowledges a registration.
pub fn build_ack_response() -> (frame: Vec<u8>)
    ensures
        frame@ == frame_of("ACK"@),
{
    close_frame("ACK".to_owned())
}

} // verus!
