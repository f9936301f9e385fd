//! Extraction of readable text from NDJSON agent event streams.

use vstd::prelude::*;
use vstd::utf8::encode_utf8;
use crate::batcher::join_lines;
use crate::json::{Json, JsonKind, JsonModel, entry_models, json_as_string, json_entries, json_items, json_kind, json_null, json_parse, json_text, models, parse_json, to_json_text};
use crate::text::{chars_of, char_width, string_of, text_eq, trim, trim_spec, utf8_width};

verus! {

// ---------------------------------------------------------------------------
// Events and their models
// ---------------------------------------------------------------------------

/// A content block of an assistant message.
pub struct ContentBlock {
    pub block_type: Option<String>,
    pub text: Option<String>,
}

/// An assistant message.
pub struct Message {
    pub content: Option<Vec<ContentBlock>>,
}

/// One event of the stream, with the fields the filter reads.
pub struct RawEvent {
    pub event_type: Option<String>,
    pub message: Option<Message>,
    pub name: Option<String>,
    pub input: Option<Json>,
    pub content: Option<Json>,
    pub text: Option<String>,
}

/// Model of a content block.
pub struct BlockModel {
    pub block_type: Option<Seq<char>>,
    pub text: Option<Seq<char>>,
}

/// Model of an event; `message` is the message's optional list of blocks.
pub struct EventModel {
    pub event_type: Option<Seq<char>>,
    pub message: Option<Option<Seq<BlockModel>>>,
    pub name: Option<Seq<char>>,
    pub input: Option<JsonModel>,
    pub content: Option<JsonModel>,
    pub text: Option<Seq<char>>,
}

/// The text of an optional string.
pub open spec fn opt_text(o: Option<String>) -> Option<Seq<char>> {
    match o {
        Some(s) => Some(s@),
        None => None,
    }
}

/// The model of an optional JSON value.
pub open spec fn opt_model(o: Option<Json>) -> Option<JsonModel> {
    match o {
        Some(j) => Some(j@),
        None => None,
    }
}

impl View for ContentBlock {
    type V = BlockModel;

    open spec fn view(&self) -> BlockModel {
        BlockModel { block_type: opt_text(self.block_type), text: opt_text(self.text) }
    }
}

/// The models of a sequence of content blocks.
pub open spec fn block_models(v: Seq<ContentBlock>) -> Seq<BlockModel> {
    v.map_values(|b: ContentBlock| b@)
}

impl View for Message {
    type V = Option<Seq<BlockModel>>;

    open spec fn view(&self) -> Option<Seq<BlockModel>> {
        match self.content {
            Some(v) => Some(block_models(v@)),
            None => None,
        }
    }
}

impl View for RawEvent {
    type V = EventModel;

    open spec fn view(&self) -> EventModel {
        EventModel {
            event_type: opt_text(self.event_type),
            message: match self.message {
                Some(m) => Some(m@),
                None => None,
            },
            name: opt_text(self.name),
            input: opt_model(self.input),
            content: opt_model(self.content),
            text: opt_text(self.text),
        }
    }
}

// ---------------------------------------------------------------------------
// Decoding events from JSON
// ---------------------------------------------------------------------------

/// The value of the first entry with key `k`.
pub open spec fn lookup(es: Seq<(Seq<char>, JsonModel)>, k: Seq<char>) -> Option<JsonModel>
    decreases es.len(),
{
    if es.len() == 0 {
        None
    } else if es[0].0 == k {
        Some(es[0].1)
    } else {
        lookup(es.drop_first(), k)
    }
}

/// An optional string field: absent or `null` is `None`, a string is kept;
/// any other value makes the decoding fail (the outer `None`).
pub open spec fn decode_opt_string(v: Option<JsonModel>) -> Option<Option<Seq<char>>> {
    match v {
        None => Some(None),
        Some(JsonModel::Null) => Some(None),
        Some(JsonModel::Str(s)) => Some(Some(s)),
        _ => None,
    }
}

/// An optional JSON field: absent or `null` is `None`.
pub open spec fn decode_opt_value(v: Option<JsonModel>) -> Option<JsonModel> {
    match v {
        Some(JsonModel::Null) => None,
        _ => v,
    }
}

/// A content block from its two fields.
pub open spec fn block_from_fields(t: Option<JsonModel>, x: Option<JsonModel>) -> Option<BlockModel> {
    match (decode_opt_string(t), decode_opt_string(x)) {
        (Some(block_type), Some(text)) => Some(BlockModel { block_type, text }),
        _ => None,
    }
}

/// A content block: an object with optional string fields `type` and `text`,
/// or an array of exactly those two fields in order.
pub open spec fn decode_block(m: JsonModel) -> Option<BlockModel> {
    match m {
        JsonModel::Object(es) => block_from_fields(lookup(es, "type"@), lookup(es, "text"@)),
        JsonModel::Array(items) => if items.len() == 2 {
            block_from_fields(Some(items[0]), Some(items[1]))
        } else {
            None
        },
        _ => None,
    }
}

/// A list of content blocks: it fails when any element fails.
pub open spec fn decode_blocks(items: Seq<JsonModel>) -> Option<Seq<BlockModel>>
    decreases items.len(),
{
    if items.len() == 0 {
        Some(Seq::empty())
    } else {
        match (decode_blocks(items.drop_last()), decode_block(items.last())) {
            (Some(bs), Some(b)) => Some(bs.push(b)),
            _ => None,
        }
    }
}

/// The optional list of blocks of a message.
pub open spec fn decode_opt_blocks(v: Option<JsonModel>) -> Option<Option<Seq<BlockModel>>> {
    match v {
        None => Some(None),
        Some(JsonModel::Null) => Some(None),
        Some(JsonModel::Array(items)) => match decode_blocks(items) {
            Some(bs) => Some(Some(bs)),
            None => None,
        },
        _ => None,
    }
}

/// A message: an object with an optional `content` list, or an array of
/// exactly that field.
pub open spec fn decode_message(m: JsonModel) -> Option<Option<Seq<BlockModel>>> {
    match m {
        JsonModel::Object(es) => decode_opt_blocks(lookup(es, "content"@)),
        JsonModel::Array(items) => if items.len() == 1 {
            decode_opt_blocks(Some(items[0]))
        } else {
            None
        },
        _ => None,
    }
}

/// An optional message field.
pub open spec fn decode_opt_message(v: Option<JsonModel>) -> Option<Option<Option<Seq<BlockModel>>>> {
    match v {
        None => Some(None),
        Some(JsonModel::Null) => Some(None),
        Some(m) => match decode_message(m) {
            Some(msg) => Some(Some(msg)),
            None => None,
        },
    }
}

/// An event from its six fields (`type`, `message`, `name`, `input`,
/// `content`, `text`).
pub open spec fn event_from_fields(
    t: Option<JsonModel>,
    msg: Option<JsonModel>,
    name: Option<JsonModel>,
    input: Option<JsonModel>,
    content: Option<JsonModel>,
    text: Option<JsonModel>,
) -> Option<EventModel> {
    match (decode_opt_string(t), decode_opt_message(msg), decode_opt_string(name), decode_opt_string(text)) {
        (Some(event_type), Some(message), Some(name), Some(text)) => Some(EventModel {
            event_type,
            message,
            name,
            input: decode_opt_value(input),
            content: decode_opt_value(content),
            text,
        }),
        _ => None,
    }
}

/// The event a JSON value describes: an object whose known fields have the
/// right types (other fields are ignored), or an array of exactly the six
/// fields in order; `None` for anything else.
pub open spec fn decode_event(m: JsonModel) -> Option<EventModel> {
    match m {
        JsonModel::Object(es) => event_from_fields(
            lookup(es, "type"@),
            lookup(es, "message"@),
            lookup(es, "name"@),
            lookup(es, "input"@),
            lookup(es, "content"@),
            lookup(es, "text"@),
        ),
        JsonModel::Array(items) => if items.len() == 6 {
            event_from_fields(
                Some(items[0]),
                Some(items[1]),
                Some(items[2]),
                Some(items[3]),
                Some(items[4]),
                Some(items[5]),
            )
        } else {
            None
        },
        _ => None,
    }
}

// ---------------------------------------------------------------------------
// Text of an event
// ---------------------------------------------------------------------------

/// Texts of the blocks of type `text` whose text is present and not empty.
pub open spec fn block_texts(bs: Seq<BlockModel>) -> Seq<Seq<char>>
    decreases bs.len(),
{
    if bs.len() == 0 {
        Seq::empty()
    } else {
        let init = block_texts(bs.drop_last());
        let b = bs.last();
        if b.block_type == Some("text"@) && b.text is Some && b.text->0.len() > 0 {
            init.push(b.text->0)
        } else {
            init
        }
    }
}

/// The texts of the blocks joined by newlines, or `None` when there are none.
pub open spec fn blocks_text(bs: Seq<BlockModel>) -> Option<Seq<char>> {
    let ts = block_texts(bs);
    if ts.len() == 0 {
        None
    } else {
        Some(join_lines(ts))
    }
}

/// The blocks among `items` that decode as content blocks, in order.
pub open spec fn decodable_blocks(items: Seq<JsonModel>) -> Seq<BlockModel>
    decreases items.len(),
{
    if items.len() == 0 {
        Seq::empty()
    } else {
        let init = decodable_blocks(items.drop_last());
        match decode_block(items.last()) {
            Some(b) => init.push(b),
            None => init,
        }
    }
}

/// Text of a `content` field: a non-empty string, or the text of the blocks
/// of an array.
pub open spec fn plain_content(c: JsonModel) -> Option<Seq<char>> {
    match c {
        JsonModel::Str(s) => if s.len() > 0 { Some(s) } else { None },
        JsonModel::Array(items) => blocks_text(decodable_blocks(items)),
        _ => None,
    }
}

/// The event's `content` text, falling back on its `text` field.
pub open spec fn content_or_text(ev: EventModel) -> Option<Seq<char>> {
    match ev.content {
        Some(c) => match plain_content(c) {
            Some(t) => Some(t),
            None => ev.text,
        },
        None => ev.text,
    }
}

/// Number of bytes of the UTF-8 encoding of `s`, as `str::len` reports it.
pub open spec fn byte_len(s: Seq<char>) -> nat {
    (encode_utf8(s).len() as usize) as nat
}

/// The number of characters whose encoding takes exactly the first `n`
/// bytes of `s`; `None` when byte `n` falls inside a character.
pub open spec fn chars_in_bytes(s: Seq<char>, n: nat) -> Option<nat>
    decreases s.len(),
{
    if n == 0 {
        Some(0)
    } else if s.len() == 0 {
        None
    } else if utf8_width(s[0]) > n {
        None
    } else {
        match chars_in_bytes(s.drop_first(), (n - utf8_width(s[0])) as nat) {
            Some(k) => Some(k + 1),
            None => None,
        }
    }
}

/// `&s[..n]` as characters, where byte `n` starts a character.
pub open spec fn byte_prefix(s: Seq<char>, n: nat) -> Seq<char> {
    s.take(chars_in_bytes(s, n)->0 as int)
}

/// `s` cut to its first `cut` bytes plus `...` when longer than `limit` bytes.
pub open spec fn clip(s: Seq<char>, limit: nat, cut: nat) -> Seq<char> {
    if byte_len(s) > limit {
        byte_prefix(s, cut) + "..."@
    } else {
        s
    }
}

/// `s` quoted, cut to its first `cut` bytes plus `...` inside the quotes when
/// longer than `limit` bytes.
pub open spec fn quoted_clip(s: Seq<char>, limit: nat, cut: nat) -> Seq<char> {
    if byte_len(s) > limit {
        "\""@ + byte_prefix(s, cut) + "...\""@
    } else {
        "\""@ + s + "\""@
    }
}

/// Cutting at byte `cut` falls on a character boundary whenever cutting happens.
pub open spec fn clip_defined(s: Seq<char>, limit: nat, cut: nat) -> bool {
    byte_len(s) > limit ==> chars_in_bytes(s, cut) is Some
}

/// A short rendering of a JSON value: strings quoted, other values as JSON,
/// cut past `limit` bytes.
pub open spec fn short_value(v: JsonModel, limit: nat, cut: nat) -> Seq<char> {
    match v {
        JsonModel::Str(s) => quoted_clip(s, limit, cut),
        _ => clip(json_text(v), limit, cut),
    }
}

/// `short_value` does not cut inside a character.
pub open spec fn short_value_defined(v: JsonModel, limit: nat, cut: nat) -> bool {
    match v {
        JsonModel::Str(s) => clip_defined(s, limit, cut),
        _ => clip_defined(json_text(v), limit, cut),
    }
}

/// `key: value` for one argument.
pub open spec fn arg_pair(e: (Seq<char>, JsonModel)) -> Seq<char> {
    e.0 + ": "@ + short_value(e.1, 60, 57)
}

/// `parts` joined with `sep` between consecutive parts.
pub open spec fn join_with(parts: Seq<Seq<char>>, sep: Seq<char>) -> Seq<char>
    decreases parts.len(),
{
    if parts.len() == 0 {
        Seq::empty()
    } else if parts.len() == 1 {
        parts[0]
    } else {
        join_with(parts.drop_last(), sep) + sep + parts.last()
    }
}

/// The first (at most three) entries of an object.
pub open spec fn first_entries(es: Seq<(Seq<char>, JsonModel)>) -> Seq<(Seq<char>, JsonModel)> {
    if es.len() > 3 { es.take(3) } else { es }
}

/// A one-line rendering of tool arguments: at most three `key: value`
/// pairs of an object (with `, ...` when there are more), or the value itself.
pub open spec fn tool_args(v: JsonModel) -> Seq<char> {
    match v {
        JsonModel::Object(es) => "{"@ + join_with(first_entries(es).map_values(|e: (Seq<char>, JsonModel)| arg_pair(e)), ", "@)
            + (if es.len() > 3 { ", ..."@ } else { ""@ }) + "}"@,
        _ => short_value(v, 80, 77),
    }
}

/// The shown entries of an object can be rendered without cutting inside a character.
pub open spec fn first_entries_defined(es: Seq<(Seq<char>, JsonModel)>) -> bool {
    forall|i: int| 0 <= i < first_entries(es).len() ==> short_value_defined(#[trigger] first_entries(es)[i].1, 60, 57)
}

/// Tool arguments can be rendered without cutting inside a character.
pub open spec fn tool_args_defined(v: JsonModel) -> bool {
    match v {
        JsonModel::Object(es) => first_entries_defined(es),
        _ => short_value_defined(v, 80, 77),
    }
}

/// The line shown for a tool call: a wrench, the tool's name and its arguments.
pub open spec fn tool_line(name: Option<Seq<char>>, input: Option<JsonModel>) -> Seq<char> {
    let n = match name {
        Some(n) => n,
        None => "unknown"@,
    };
    match input {
        Some(v) => "\u{1f527} "@ + n + "("@ + tool_args(v) + ")"@,
        None => "\u{1f527} "@ + n + "()"@,
    }
}

/// Event types that carry nothing to show.
pub open spec fn is_silent_type(t: Seq<char>) -> bool {
    t == "tool_result"@ || t == "token_usage"@ || t == "usage"@ || t == "stats"@ || t == "system"@
        || t == "result"@
}

/// Event types of tool calls.
pub open spec fn is_tool_type(t: Seq<char>) -> bool {
    t == "tool_use"@ || t == "tool_call"@
}

/// The text shown for a decoded event (`raw` is the trimmed line).
pub open spec fn event_text(ev: EventModel, raw: Seq<char>, show_tool_calls: bool) -> Option<Seq<char>> {
    match ev.event_type {
        Some(t) => if t == "assistant"@ {
            match ev.message {
                Some(Some(bs)) => blocks_text(bs),
                _ => None,
            }
        } else if is_tool_type(t) {
            if show_tool_calls { Some(tool_line(ev.name, ev.input)) } else { None }
        } else if t == "text"@ {
            match content_or_text(ev) {
                Some(x) => if x.len() > 0 { Some(x) } else { None },
                None => None,
            }
        } else if is_silent_type(t) {
            None
        } else if t == "error"@ {
            let msg = match content_or_text(ev) {
                Some(x) => x,
                None => "unknown error"@,
            };
            Some("[error: "@ + msg + "]"@)
        } else {
            content_or_text(ev)
        },
        None => match content_or_text(ev) {
            Some(x) => Some(x),
            None => Some(raw),
        },
    }
}

/// The event can be shown without cutting tool arguments inside a character.
pub open spec fn event_defined(ev: EventModel, show_tool_calls: bool) -> bool {
    (show_tool_calls && ev.event_type is Some && is_tool_type(ev.event_type->0) && ev.input is Some)
        ==> tool_args_defined(ev.input->0)
}

/// The event a trimmed line decodes to, if it is JSON describing one.
pub open spec fn line_event(trimmed: Seq<char>) -> Option<EventModel> {
    match json_parse(trimmed) {
        Some(m) => decode_event(m),
        None => None,
    }
}

/// The text shown for one line of the stream: nothing for a blank line; the
/// trimmed line itself when it is not an event; otherwise the event's text.
pub open spec fn ndjson_line_spec(line: Seq<char>, show_tool_calls: bool) -> Option<Seq<char>> {
    let t = trim_spec(line);
    if t.len() == 0 {
        None
    } else {
        match line_event(t) {
            Some(ev) => event_text(ev, t, show_tool_calls),
            None => Some(t),
        }
    }
}

/// Lines on which the text is defined (see `event_defined`).
pub open spec fn ndjson_line_defined(line: Seq<char>, show_tool_calls: bool) -> bool {
    let t = trim_spec(line);
    t.len() > 0 && line_event(t) is Some ==> event_defined(line_event(t)->0, show_tool_calls)
}

// ---------------------------------------------------------------------------
// Decoding, executable
// ---------------------------------------------------------------------------

/// The model of an optional borrowed JSON value.
pub open spec fn ref_model(v: Option<&Json>) -> Option<JsonModel> {
    match v {
        Some(j) => Some(j@),
        None => None,
    }
}

/// Index of the first entry with key `key`.
fn lookup_index(es: &Vec<(String, Json)>, key: &str) -> (r: Option<usize>)
    ensures
        match r {
            Some(i) => i < es@.len() && es@[i as int].0@ == key@
                && lookup(entry_models(es@), key@) == Some(es@[i as int].1@),
            None => lookup(entry_models(es@), key@) is None,
        },
{
    let ghost ms = entry_models(es@);
    let mut i: usize = 0;
    assert(ms.skip(0) =~= ms);
    while i < es.len()
        invariant
            i <= es@.len(),
            ms == entry_models(es@),
            lookup(ms, key@) == lookup(ms.skip(i as int), key@),
        decreases es@.len() - i,
    {
        assert(ms.skip(i as int)[0] == ms[i as int]);
        if text_eq(es[i].0.as_str(), key) {
            return Some(i);
        }
        assert(ms.skip(i as int).drop_first() =~= ms.skip(i + 1));
        i = i + 1;
    }
    None
}

/// The entry value at `idx`, if any.
fn entry_at(es: &Vec<(String, Json)>, idx: Option<usize>) -> (r: Option<&Json>)
    requires
        idx matches Some(i) ==> i < es@.len(),
    ensures
        ref_model(r) == match idx {
            Some(i) => Some(es@[i as int].1@),
            None => None,
        },
{
    match idx {
        Some(i) => Some(&es[i].1),
        None => None,
    }
}

fn decode_opt_string_exec(v: Option<&Json>) -> (r: Option<Option<String>>)
    ensures
        match r {
            Some(o) => decode_opt_string(ref_model(v)) == Some(opt_text(o)),
            None => decode_opt_string(ref_model(v)) is None,
        },
{
    match v {
        None => Some(None),
        Some(j) => {
            let k = json_kind(j);
            if k == JsonKind::Null {
                Some(None)
            } else if k == JsonKind::Str {
                Some(Some(json_as_string(j)))
            } else {
                None
            }
        },
    }
}

fn block_from_fields_exec(t: Option<&Json>, x: Option<&Json>) -> (r: Option<ContentBlock>)
    ensures
        match r {
            Some(b) => block_from_fields(ref_model(t), ref_model(x)) == Some(b@),
            None => block_from_fields(ref_model(t), ref_model(x)) is None,
        },
{
    let block_type = decode_opt_string_exec(t);
    let text = decode_opt_string_exec(x);
    match (block_type, text) {
        (Some(block_type), Some(text)) => Some(ContentBlock { block_type, text }),
        _ => None,
    }
}

fn decode_block_exec(j: &Json) -> (r: Option<ContentBlock>)
    ensures
        match r {
            Some(b) => decode_block(j@) == Some(b@),
            None => decode_block(j@) is None,
        },
{
    let k = json_kind(j);
    if k == JsonKind::Object {
        let es = json_entries(j);
        let t = lookup_index(&es, "type");
        let x = lookup_index(&es, "text");
        block_from_fields_exec(entry_at(&es, t), entry_at(&es, x))
    } else if k == JsonKind::Array {
        let items = json_items(j);
        if items.len() == 2 {
            block_from_fields_exec(Some(&items[0]), Some(&items[1]))
        } else {
            None
        }
    } else {
        None
    }
}

fn decode_blocks_exec(items: &Vec<Json>) -> (r: Option<Vec<ContentBlock>>)
    ensures
        match r {
            Some(bs) => decode_blocks(models(items@)) == Some(block_models(bs@)),
            None => decode_blocks(models(items@)) is None,
        },
{
    let ghost ms = models(items@);
    let mut bs: Vec<ContentBlock> = Vec::new();
    let mut i: usize = 0;
    while i < items.len()
        invariant
            i <= items@.len(),
            ms == models(items@),
            decode_blocks(ms.take(i as int)) == Some(block_models(bs@)),
        decreases items@.len() - i,
    {
        assert(ms.take(i + 1).drop_last() =~= ms.take(i as int));
        assert(ms.take(i + 1).last() == items@[i as int]@);
        match decode_block_exec(&items[i]) {
            Some(b) => {
                bs.push(b);
                assert(block_models(bs@) =~= block_models(bs@).drop_last().push(b@));
            },
            None => {
                proof {
                    lemma_decode_blocks_fails(ms, i + 1);
                }
                return None;
            },
        }
        i = i + 1;
    }
    assert(ms.take(items@.len() as int) =~= ms);
    Some(bs)
}

/// Once a prefix fails to decode, every longer prefix fails too.
proof fn lemma_decode_blocks_fails(ms: Seq<JsonModel>, k: int)
    requires
        0 <= k <= ms.len(),
        decode_blocks(ms.take(k)) is None,
    ensures
        decode_blocks(ms) is None,
    decreases ms.len() - k,
{
    if k < ms.len() {
        assert(ms.take(k + 1).drop_last() =~= ms.take(k));
        lemma_decode_blocks_fails(ms, k + 1);
    } else {
        assert(ms.take(k) =~= ms);
    }
}

fn decode_opt_blocks_exec(v: Option<&Json>) -> (r: Option<Option<Vec<ContentBlock>>>)
    ensures
        match r {
            Some(Some(bs)) => decode_opt_blocks(ref_model(v)) == Some(Some(block_models(bs@))),
            Some(None) => decode_opt_blocks(ref_model(v)) == Some(None::<Seq<BlockModel>>),
            None => decode_opt_blocks(ref_model(v)) is None,
        },
{
    match v {
        None => Some(None),
        Some(j) => {
            let k = json_kind(j);
            if k == JsonKind::Null {
                Some(None)
            } else if k == JsonKind::Array {
                let items = json_items(j);
                match decode_blocks_exec(&items) {
                    Some(bs) => Some(Some(bs)),
                    None => None,
                }
            } else {
                None
            }
        },
    }
}

fn decode_message_exec(j: &Json) -> (r: Option<Message>)
    ensures
        match r {
            Some(m) => decode_message(j@) == Some(m@),
            None => decode_message(j@) is None,
        },
{
    let k = json_kind(j);
    let content = if k == JsonKind::Object {
        let es = json_entries(j);
        let c = lookup_index(&es, "content");
        decode_opt_blocks_exec(entry_at(&es, c))
    } else if k == JsonKind::Array {
        let items = json_items(j);
        if items.len() == 1 {
            decode_opt_blocks_exec(Some(&items[0]))
        } else {
            None
        }
    } else {
        None
    };
    match content {
        Some(content) => Some(Message { content }),
        None => None,
    }
}

fn decode_opt_message_exec(v: Option<&Json>) -> (r: Option<Option<Message>>)
    ensures
        match r {
            Some(Some(m)) => decode_opt_message(ref_model(v)) == Some(Some(m@)),
            Some(None) => decode_opt_message(ref_model(v)) == Some(None::<Option<Seq<BlockModel>>>),
            None => decode_opt_message(ref_model(v)) is None,
        },
{
    match v {
        None => Some(None),
        Some(j) => {
            if json_kind(j) == JsonKind::Null {
                Some(None)
            } else {
                match decode_message_exec(j) {
                    Some(m) => Some(Some(m)),
                    None => None,
                }
            }
        },
    }
}

/// A JSON field kept as a value: `null` counts as absent.
fn decode_opt_value_exec(v: Option<Json>) -> (r: Option<Json>)
    ensures
        opt_model(r) == decode_opt_value(opt_model(v)),
{
    match v {
        None => None,
        Some(j) => if json_kind(&j) == JsonKind::Null { None } else { Some(j) },
    }
}

/// Moves the value of the entry at `idx` out, leaving `null` in its place.
fn take_entry(es: &mut Vec<(String, Json)>, idx: Option<usize>) -> (r: Option<Json>)
    requires
        idx matches Some(i) ==> i < old(es)@.len(),
    ensures
        final(es)@.len() == old(es)@.len(),
        opt_model(r) == match idx {
            Some(i) => Some(old(es)@[i as int].1@),
            None => None,
        },
        forall|k: int| 0 <= k < final(es)@.len() && (idx matches Some(i) ==> k != i) ==> #[trigger] final(es)@[k] == old(es)@[k],
{
    match idx {
        Some(i) => {
            let mut slot = (String::new(), json_null());
            es.set_and_swap(i, &mut slot);
            Some(slot.1)
        },
        None => None,
    }
}

/// Moves element `i` out of `items`, leaving `null` in its place.
fn take_item(items: &mut Vec<Json>, i: usize) -> (r: Json)
    requires
        i < old(items)@.len(),
    ensures
        final(items)@.len() == old(items)@.len(),
        r@ == old(items)@[i as int]@,
        forall|k: int| 0 <= k < final(items)@.len() && k != i ==> #[trigger] final(items)@[k] == old(items)@[k],
{
    let mut slot = json_null();
    items.set_and_swap(i, &mut slot);
    slot
}

fn event_from_fields_exec(
    t: Option<&Json>,
    msg: Option<&Json>,
    name: Option<&Json>,
    input: Option<Json>,
    content: Option<Json>,
    text: Option<&Json>,
) -> (r: Option<RawEvent>)
    ensures
        match r {
            Some(ev) => event_from_fields(ref_model(t), ref_model(msg), ref_model(name), opt_model(input), opt_model(content), ref_model(text)) == Some(ev@),
            None => event_from_fields(ref_model(t), ref_model(msg), ref_model(name), opt_model(input), opt_model(content), ref_model(text)) is None,
        },
{
    let event_type = decode_opt_string_exec(t);
    let message = decode_opt_message_exec(msg);
    let name = decode_opt_string_exec(name);
    let text = decode_opt_string_exec(text);
    match (event_type, message, name, text) {
        (Some(event_type), Some(message), Some(name), Some(text)) => {
            let input = decode_opt_value_exec(input);
            let content = decode_opt_value_exec(content);
            let ev = RawEvent { event_type, message, name, input, content, text };
            Some(ev)
        },
        _ => None,
    }
}

/// Decodes the event a JSON value describes (see `decode_event`).
pub fn decode_event_exec(j: &Json) -> (r: Option<RawEvent>)
    ensures
        match r {
            Some(ev) => decode_event(j@) == Some(ev@),
            None => decode_event(j@) is None,
        },
{
    let k = json_kind(j);
    if k == JsonKind::Object {
        let mut es = json_entries(j);
        let ghost ms = entry_models(es@);
        let t = lookup_index(&es, "type");
        let m = lookup_index(&es, "message");
        let n = lookup_index(&es, "name");
        let i = lookup_index(&es, "input");
        let c = lookup_index(&es, "content");
        let x = lookup_index(&es, "text");
        let ghost before = es@;
        proof {
            reveal_strlit("input");
            reveal_strlit("content");
            reveal_strlit("type");
            reveal_strlit("message");
            reveal_strlit("name");
            reveal_strlit("text");
        }
        let input = take_entry(&mut es, i);
        let ghost middle = es@;
        let content = take_entry(&mut es, c);
        proof {
            assert("type"@.len() != "input"@.len() && "type"@.len() != "content"@.len());
            assert("message"@.len() != "input"@.len() && "message"@[0] != "content"@[0]);
            assert("name"@.len() != "input"@.len() && "name"@.len() != "content"@.len());
            assert("text"@.len() != "input"@.len() && "text"@.len() != "content"@.len());
            assert("input"@.len() != "content"@.len());
            assert forall|k: int| 0 <= k < es@.len() && (i matches Some(ii) ==> k != ii) && (c matches Some(ci) ==> k != ci)
                implies #[trigger] es@[k] == before[k] by {
                assert(es@[k] == middle[k]);
            }
            assert(es@.len() == before.len());
        }
        event_from_fields_exec(entry_at(&es, t), entry_at(&es, m), entry_at(&es, n), input, content, entry_at(&es, x))
    } else if k == JsonKind::Array {
        let mut items = json_items(j);
        if items.len() == 6 {
            let input = take_item(&mut items, 3);
            let content = take_item(&mut items, 4);
            event_from_fields_exec(Some(&items[0]), Some(&items[1]), Some(&items[2]), Some(input), Some(content), Some(&items[5]))
        } else {
            None
        }
    } else {
        None
    }
}

// ---------------------------------------------------------------------------
// Text of an event, executable
// ---------------------------------------------------------------------------

/// The texts of a sequence of strings.
pub open spec fn string_texts(v: Seq<String>) -> Seq<Seq<char>> {
    v.map_values(|s: String| s@)
}

/// Joining with a newline is `join_lines`.
proof fn lemma_join_lines_is_join_with(parts: Seq<Seq<char>>)
    ensures
        join_lines(parts) == join_with(parts, seq!['\n']),
    decreases parts.len(),
{
    if parts.len() > 1 {
        lemma_join_lines_is_join_with(parts.drop_last());
    }
}

/// `parts` joined with `sep`.
fn join_texts(parts: &Vec<String>, sep: &str) -> (r: String)
    ensures
        r@ == join_with(string_texts(parts@), sep@),
{
    let ghost ps = string_texts(parts@);
    let mut r = String::new();
    let mut i: usize = 0;
    while i < parts.len()
        invariant
            i <= parts@.len(),
            ps == string_texts(parts@),
            r@ == join_with(ps.take(i as int), sep@),
        decreases parts@.len() - i,
    {
        assert(ps.take(i + 1).drop_last() =~= ps.take(i as int));
        assert(ps.take(i + 1).last() == parts@[i as int]@);
        if i > 0 {
            r.append(sep);
        } else {
            assert(ps.take(0) =~= Seq::<Seq<char>>::empty());
        }
        r.append(parts[i].as_str());
        i = i + 1;
    }
    assert(ps.take(parts@.len() as int) =~= ps);
    r
}

/// `b` is a block of type `text` with a non-empty text.
fn is_text_block(b: &ContentBlock) -> (r: bool)
    ensures
        r == (b@.block_type == Some("text"@) && b@.text is Some && b@.text->0.len() > 0),
{
    let typed = match &b.block_type {
        Some(t) => text_eq(t.as_str(), "text"),
        None => false,
    };
    let nonempty = match &b.text {
        Some(x) => x.as_str().unicode_len() > 0,
        None => false,
    };
    typed && nonempty
}

/// The non-empty texts of the text blocks, joined by newlines (see `blocks_text`).
fn extract_text_from_content_blocks(bs: &Vec<ContentBlock>) -> (r: Option<String>)
    ensures
        opt_text(r) == blocks_text(block_models(bs@)),
{
    let ghost ms = block_models(bs@);
    let mut texts: Vec<String> = Vec::new();
    let mut i: usize = 0;
    while i < bs.len()
        invariant
            i <= bs@.len(),
            ms == block_models(bs@),
            string_texts(texts@) == block_texts(ms.take(i as int)),
        decreases bs@.len() - i,
    {
        assert(ms.take(i + 1).drop_last() =~= ms.take(i as int));
        assert(ms.take(i + 1).last() == bs@[i as int]@);
        if is_text_block(&bs[i]) {
            let t = match &bs[i].text {
                Some(x) => x.clone(),
                None => String::new(),
            };
            let ghost before = texts@;
            texts.push(t);
            assert(string_texts(texts@) =~= string_texts(before).push(t@));
        }
        i = i + 1;
    }
    assert(ms.take(bs@.len() as int) =~= ms);
    if texts.len() == 0 {
        None
    } else {
        let joined = join_texts(&texts, "\n");
        proof {
            reveal_strlit("\n");
            assert("\n"@ =~= seq!['\n']);
            lemma_join_lines_is_join_with(string_texts(texts@));
        }
        Some(joined)
    }
}

fn decodable_blocks_exec(items: &Vec<Json>) -> (r: Vec<ContentBlock>)
    ensures
        block_models(r@) == decodable_blocks(models(items@)),
{
    let ghost ms = models(items@);
    let mut bs: Vec<ContentBlock> = Vec::new();
    let mut i: usize = 0;
    while i < items.len()
        invariant
            i <= items@.len(),
            ms == models(items@),
            block_models(bs@) == decodable_blocks(ms.take(i as int)),
        decreases items@.len() - i,
    {
        assert(ms.take(i + 1).drop_last() =~= ms.take(i as int));
        assert(ms.take(i + 1).last() == items@[i as int]@);
        match decode_block_exec(&items[i]) {
            Some(b) => {
                let ghost before = bs@;
                bs.push(b);
                assert(block_models(bs@) =~= block_models(before).push(b@));
            },
            None => {},
        }
        i = i + 1;
    }
    assert(ms.take(items@.len() as int) =~= ms);
    bs
}

/// The text of an event's `content`: a non-empty string, or the text of the
/// decodable blocks of an array (see `plain_content`).
fn extract_plain_content(c: &Json) -> (r: Option<String>)
    ensures
        opt_text(r) == plain_content(c@),
{
    let k = json_kind(c);
    if k == JsonKind::Str {
        let s = json_as_string(c);
        if s.as_str().unicode_len() > 0 { Some(s) } else { None }
    } else if k == JsonKind::Array {
        let items = json_items(c);
        let bs = decodable_blocks_exec(&items);
        extract_text_from_content_blocks(&bs)
    } else {
        None
    }
}

fn clone_opt(o: &Option<String>) -> (r: Option<String>)
    ensures
        opt_text(r) == opt_text(*o),
{
    match o {
        Some(t) => Some(t.clone()),
        None => None,
    }
}

fn content_or_text_exec(ev: &RawEvent) -> (r: Option<String>)
    ensures
        opt_text(r) == content_or_text(ev@),
{
    match &ev.content {
        Some(c) => match extract_plain_content(c) {
            Some(t) => Some(t),
            None => clone_opt(&ev.text),
        },
        None => clone_opt(&ev.text),
    }
}

/// The number of characters that make up the first `n` bytes of `s`.
fn chars_in_bytes_exec(s: &str, n: usize) -> (r: Option<usize>)
    ensures
        match r {
            Some(k) => chars_in_bytes(s@, n as nat) == Some(k as nat),
            None => chars_in_bytes(s@, n as nat) is None,
        },
{
    let chars = chars_of(s);
    let len = chars.len();
    let mut i: usize = 0;
    let mut used: usize = 0;
    assert(chars@.skip(0) =~= chars@);
    while used < n
        invariant
            len == chars@.len(),
            chars@ == s@,
            i <= len,
            used <= n,
            chars_in_bytes(s@, n as nat) == match chars_in_bytes(chars@.skip(i as int), (n - used) as nat) {
                Some(k) => Some((k + i) as nat),
                None => None::<nat>,
            },
        decreases n - used,
    {
        if i == len {
            return None;
        }
        let w = char_width(chars[i]);
        assert(chars@.skip(i as int)[0] == chars@[i as int]);
        if w > n - used {
            return None;
        }
        assert(chars@.skip(i as int).drop_first() =~= chars@.skip(i + 1));
        used = used + w;
        i = i + 1;
    }
    Some(i)
}

/// `&s[..n]` as a string, where byte `n` starts a character.
fn byte_prefix_exec(s: &str, n: usize) -> (r: String)
    requires
        chars_in_bytes(s@, n as nat) is Some,
    ensures
        r@ == byte_prefix(s@, n as nat),
{
    let k = match chars_in_bytes_exec(s, n) {
        Some(k) => k,
        None => 0,
    };
    let chars = chars_of(s);
    proof {
        lemma_chars_in_bytes_bound(s@, n as nat);
    }
    let mut out: Vec<char> = Vec::new();
    let mut i: usize = 0;
    while i < k
        invariant
            k <= chars@.len(),
            i <= k,
            out@ == chars@.take(i as int),
        decreases k - i,
    {
        out.push(chars[i]);
        i = i + 1;
        assert(out@ =~= chars@.take(i as int));
    }
    string_of(&out)
}

proof fn lemma_chars_in_bytes_bound(s: Seq<char>, n: nat)
    ensures
        chars_in_bytes(s, n) matches Some(k) ==> k <= s.len(),
    decreases s.len(),
{
    if n > 0 && s.len() > 0 && utf8_width(s[0]) <= n {
        lemma_chars_in_bytes_bound(s.drop_first(), (n - utf8_width(s[0])) as nat);
    }
}

fn clip_exec(s: String, limit: usize, cut: usize) -> (r: String)
    requires
        clip_defined(s@, limit as nat, cut as nat),
    ensures
        r@ == clip(s@, limit as nat, cut as nat),
{
    if s.as_str().len() > limit {
        let mut r = byte_prefix_exec(s.as_str(), cut);
        r.append("...");
        r
    } else {
        s
    }
}

fn quoted_clip_exec(s: String, limit: usize, cut: usize) -> (r: String)
    requires
        clip_defined(s@, limit as nat, cut as nat),
    ensures
        r@ == quoted_clip(s@, limit as nat, cut as nat),
{
    let mut r = String::new();
    r.append("\"");
    if s.as_str().len() > limit {
        let p = byte_prefix_exec(s.as_str(), cut);
        r.append(p.as_str());
        r.append("...\"");
    } else {
        r.append(s.as_str());
        r.append("\"");
    }
    r
}

fn clip_defined_exec(s: &str, limit: usize, cut: usize) -> (r: bool)
    ensures
        r == clip_defined(s@, limit as nat, cut as nat),
{
    if s.len() > limit {
        chars_in_bytes_exec(s, cut).is_some()
    } else {
        true
    }
}

fn short_value_exec(v: &Json, limit: usize, cut: usize) -> (r: String)
    requires
        short_value_defined(v@, limit as nat, cut as nat),
    ensures
        r@ == short_value(v@, limit as nat, cut as nat),
{
    if json_kind(v) == JsonKind::Str {
        quoted_clip_exec(json_as_string(v), limit, cut)
    } else {
        clip_exec(to_json_text(v), limit, cut)
    }
}

fn short_value_defined_exec(v: &Json, limit: usize, cut: usize) -> (r: bool)
    ensures
        r == short_value_defined(v@, limit as nat, cut as nat),
{
    if json_kind(v) == JsonKind::Str {
        let s = json_as_string(v);
        clip_defined_exec(s.as_str(), limit, cut)
    } else {
        let t = to_json_text(v);
        clip_defined_exec(t.as_str(), limit, cut)
    }
}

/// Number of entries shown for an object with `len` entries.
fn shown_count(len: usize) -> (r: usize)
    ensures
        r == if len > 3 { 3 } else { len },
{
    if len > 3 { 3 } else { len }
}

/// The tool arguments as shown on a tool-call line (see `tool_args`).
fn format_tool_args(v: &Json) -> (r: String)
    requires
        tool_args_defined(v@),
    ensures
        r@ == tool_args(v@),
{
    if json_kind(v) == JsonKind::Object {
        let es = json_entries(v);
        let ghost ms = entry_models(es@);
        let ghost firsts = first_entries(ms);
        let count = shown_count(es.len());
        assert(v@ == JsonModel::Object(ms));
        assert(first_entries_defined(ms));
        let mut parts: Vec<String> = Vec::new();
        let mut i: usize = 0;
        while i < count
            invariant
                count == firsts.len(),
                count <= es@.len(),
                ms == entry_models(es@),
                firsts == first_entries(ms),
                i <= count,
                parts@.len() == i,
                forall|k: int| 0 <= k < firsts.len() ==> short_value_defined(#[trigger] firsts[k].1, 60, 57),
                string_texts(parts@) == firsts.take(i as int).map_values(|e: (Seq<char>, JsonModel)| arg_pair(e)),
            decreases count - i,
        {
            assert(firsts[i as int] == ms[i as int]);
            assert(ms[i as int] == (es@[i as int].0@, es@[i as int].1@));
            assert(short_value_defined(firsts[i as int].1, 60, 57));
            let mut p = es[i].0.clone();
            p.append(": ");
            let val = short_value_exec(&es[i].1, 60, 57);
            p.append(val.as_str());
            let ghost before = parts@;
            parts.push(p);
            proof {
                let want = firsts.take(i + 1).map_values(|e: (Seq<char>, JsonModel)| arg_pair(e));
                assert(p@ == arg_pair(firsts[i as int]));
                assert forall|j: int| 0 <= j < i + 1 implies #[trigger] string_texts(parts@)[j] == want[j] by {
                    if j < i {
                        assert(parts@[j] == before[j]);
                        assert(string_texts(before)[j] == firsts.take(i as int).map_values(|e: (Seq<char>, JsonModel)| arg_pair(e))[j]);
                    }
                }
                assert(string_texts(parts@) =~= want);
            }
            i = i + 1;
        }
        assert(firsts.take(count as int) =~= firsts);
        let joined = join_texts(&parts, ", ");
        let mut r = String::new();
        r.append("{");
        r.append(joined.as_str());
        if es.len() > 3 {
            r.append(", ...");
        } else {
            r.append("");
        }
        r.append("}");
        r
    } else {
        short_value_exec(v, 80, 77)
    }
}

fn tool_args_defined_exec(v: &Json) -> (r: bool)
    ensures
        r == tool_args_defined(v@),
{
    if json_kind(v) == JsonKind::Object {
        let es = json_entries(v);
        let ghost ms = entry_models(es@);
        let ghost firsts = first_entries(ms);
        let count = shown_count(es.len());
        assert(v@ == JsonModel::Object(ms));
        let mut i: usize = 0;
        while i < count
            invariant
                count == firsts.len(),
                count <= es@.len(),
                ms == entry_models(es@),
                firsts == first_entries(ms),
                i <= count,
                v@ == JsonModel::Object(ms),
                forall|k: int| 0 <= k < i ==> short_value_defined(#[trigger] firsts[k].1, 60, 57),
            decreases count - i,
        {
            assert(firsts[i as int] == ms[i as int]);
            assert(ms[i as int] == (es@[i as int].0@, es@[i as int].1@));
            if !short_value_defined_exec(&es[i].1, 60, 57) {
                assert(!short_value_defined(firsts[i as int].1, 60, 57));
                assert(!first_entries_defined(ms));
                return false;
            }
            i = i + 1;
        }
        assert(first_entries_defined(ms));
        true
    } else {
        short_value_defined_exec(v, 80, 77)
    }
}

fn tool_line_exec(name: &Option<String>, input: &Option<Json>) -> (r: String)
    requires
        input matches Some(v) ==> tool_args_defined(v@),
    ensures
        r@ == tool_line(opt_text(*name), opt_model(*input)),
{
    let mut r = String::new();
    r.append("\u{1f527} ");
    match name {
        Some(n) => r.append(n.as_str()),
        None => r.append("unknown"),
    }
    match input {
        Some(v) => {
            r.append("(");
            let args = format_tool_args(v);
            r.append(args.as_str());
            r.append(")");
        },
        None => r.append("()"),
    }
    r
}

fn is_tool_type_exec(t: &str) -> (r: bool)
    ensures
        r == is_tool_type(t@),
{
    text_eq(t, "tool_use") || text_eq(t, "tool_call")
}

fn is_silent_type_exec(t: &str) -> (r: bool)
    ensures
        r == is_silent_type(t@),
{
    text_eq(t, "tool_result") || text_eq(t, "token_usage") || text_eq(t, "usage") || text_eq(t, "stats")
        || text_eq(t, "system") || text_eq(t, "result")
}

/// The text shown for a decoded event (see `event_text`).
pub fn event_text_exec(ev: &RawEvent, raw: &str, show_tool_calls: bool) -> (r: Option<String>)
    requires
        event_defined(ev@, show_tool_calls),
    ensures
        opt_text(r) == event_text(ev@, raw@, show_tool_calls),
{
    match &ev.event_type {
        Some(t) => {
            let t = t.as_str();
            if text_eq(t, "assistant") {
                match &ev.message {
                    Some(m) => match &m.content {
                        Some(bs) => extract_text_from_content_blocks(bs),
                        None => None,
                    },
                    None => None,
                }
            } else if is_tool_type_exec(t) {
                if show_tool_calls { Some(tool_line_exec(&ev.name, &ev.input)) } else { None }
            } else if text_eq(t, "text") {
                match content_or_text_exec(ev) {
                    Some(x) => if x.as_str().unicode_len() > 0 { Some(x) } else { None },
                    None => None,
                }
            } else if is_silent_type_exec(t) {
                None
            } else if text_eq(t, "error") {
                let mut r = String::new();
                r.append("[error: ");
                match content_or_text_exec(ev) {
                    Some(x) => r.append(x.as_str()),
                    None => r.append("unknown error"),
                }
                r.append("]");
                Some(r)
            } else {
                content_or_text_exec(ev)
            }
        },
        None => match content_or_text_exec(ev) {
            Some(x) => Some(x),
            None => Some(raw.to_owned()),
        },
    }
}

/// Whether the event can be shown (see `event_defined`).
pub fn event_defined_exec(ev: &RawEvent, show_tool_calls: bool) -> (r: bool)
    ensures
        r == event_defined(ev@, show_tool_calls),
{
    if !show_tool_calls {
        return true;
    }
    match &ev.event_type {
        Some(t) => if is_tool_type_exec(t.as_str()) {
            match &ev.input {
                Some(v) => tool_args_defined_exec(v),
                None => true,
            }
        } else {
            true
        },
        None => true,
    }
}

// ---------------------------------------------------------------------------
// Lines of the stream
// ---------------------------------------------------------------------------

/// The text to show for one line of an agent's NDJSON output: blank lines
/// give nothing, lines that are not JSON events pass through trimmed, and
/// events give their text (assistant text, errors, and tool calls when
/// `show_tool_calls` is set) or nothing for bookkeeping events.
pub fn parse_ndjson_line(line: &str, show_tool_calls: bool) -> (r: Option<String>)
    requires
        ndjson_line_defined(line@, show_tool_calls),
    ensures
        opt_text(r) == ndjson_line_spec(line@, show_tool_calls),
{
    let trimmed = trim(line);
    if trimmed.as_str().unicode_len() == 0 {
        return None;
    }
    match parse_json(trimmed.as_str()) {
        None => Some(trimmed),
        Some(j) => match decode_event_exec(&j) {
            None => Some(trimmed),
            Some(ev) => event_text_exec(&ev, trimmed.as_str(), show_tool_calls),
        },
    }
}

/// Like `parse_ndjson_line`, but `None` for a line whose tool arguments would
/// be cut inside a character, which `parse_ndjson_line` does not accept.
pub fn try_parse_ndjson_line(line: &str, show_tool_calls: bool) -> (r: Option<Option<String>>)
    ensures
        r is Some <==> ndjson_line_defined(line@, show_tool_calls),
        r matches Some(t) ==> opt_text(t) == ndjson_line_spec(line@, show_tool_calls),
{
    let trimmed = trim(line);
    if trimmed.as_str().unicode_len() > 0 {
        match parse_json(trimmed.as_str()) {
            Some(j) => match decode_event_exec(&j) {
                Some(ev) => if !event_defined_exec(&ev, show_tool_calls) {
                    return None;
                },
                None => {},
            },
            None => {},
        }
    }
    Some(parse_ndjson_line(line, show_tool_calls))
}

// ---------------------------------------------------------------------------
// Filtering a stream of lines
// ---------------------------------------------------------------------------

/// What filtering `lines` gives next, with the number of lines it reads: the
/// text of the first line that has one (`Ok`), or the first line whose text
/// is not defined (`Err`, with the line), or nothing when no line is left.
pub open spec fn filter_next(lines: Seq<String>, show_tool_calls: bool) -> (Option<Result<Seq<char>, Seq<char>>>, nat)
    decreases lines.len(),
{
    if lines.len() == 0 {
        (None, 0)
    } else if !ndjson_line_defined(lines[0]@, show_tool_calls) {
        (Some(Err(lines[0]@)), 1)
    } else {
        match ndjson_line_spec(lines[0]@, show_tool_calls) {
            Some(t) => (Some(Ok(t)), 1),
            None => {
                let (r, n) = filter_next(lines.drop_first(), show_tool_calls);
                (r, n + 1)
            },
        }
    }
}

/// All the texts of `lines` in order, or the first line whose text is not defined.
pub open spec fn filter_all(lines: Seq<String>, show_tool_calls: bool) -> Result<Seq<Seq<char>>, Seq<char>>
    decreases lines.len(),
{
    if lines.len() == 0 {
        Ok(Seq::empty())
    } else if !ndjson_line_defined(lines[0]@, show_tool_calls) {
        Err(lines[0]@)
    } else {
        match filter_all(lines.drop_first(), show_tool_calls) {
            Ok(ts) => match ndjson_line_spec(lines[0]@, show_tool_calls) {
                Some(t) => Ok(seq![t] + ts),
                None => Ok(ts),
            },
            Err(l) => Err(l),
        }
    }
}

/// The texts of a stream of NDJSON lines, skipping lines with nothing to show.
pub struct NdjsonFilter<I> {
    pub inner: I,
    pub show_tool_calls: bool,
}

impl<I: Iterator<Item = String>> NdjsonFilter<I> {
    /// The lines can be read one by one, and reading them ends.
    pub open spec fn readable(&self) -> bool {
        &&& vstd::std_specs::iter::IteratorSpec::obeys_prophetic_iter_laws(&self.inner)
        &&& vstd::std_specs::iter::IteratorSpec::decrease(&self.inner) is Some
    }

    /// A filter over the lines `inner` yields.
    pub fn new(inner: I, show_tool_calls: bool) -> (f: Self)
        ensures
            f.inner == inner,
            f.show_tool_calls == show_tool_calls,
    {
        NdjsonFilter { inner, show_tool_calls }
    }

    /// The next text of the stream (see `filter_next`): `Some(Ok(text))`,
    /// `Some(Err(line))` for a line whose text is not defined, or `None` once
    /// the lines run out.
    pub fn next(&mut self) -> (r: Option<Result<String, String>>)
        requires
            old(self).readable(),
        ensures
            final(self).readable(),
            final(self).show_tool_calls == old(self).show_tool_calls,
            r is Some ==> vstd::std_specs::iter::IteratorSpec::decrease(&final(self).inner)->0 < vstd::std_specs::iter::IteratorSpec::decrease(&old(self).inner)->0,
            ({
                let (want, n) = filter_next(vstd::std_specs::iter::IteratorSpec::remaining(&old(self).inner), old(self).show_tool_calls);
                &&& vstd::std_specs::iter::IteratorSpec::remaining(&final(self).inner) == vstd::std_specs::iter::IteratorSpec::remaining(&old(self).inner).skip(n as int)
                &&& match r {
                    None => want is None,
                    Some(Ok(t)) => want == Some(Ok::<Seq<char>, Seq<char>>(t@)),
                    Some(Err(l)) => want == Some(Err::<Seq<char>, Seq<char>>(l@)),
                }
            }),
    {
        let ghost start = vstd::std_specs::iter::IteratorSpec::remaining(&self.inner);
        let ghost mut read: nat = 0;
        loop
            invariant
                self.readable(),
                self.show_tool_calls == old(self).show_tool_calls,
                start == vstd::std_specs::iter::IteratorSpec::remaining(&old(self).inner),
                read <= start.len(),
                vstd::std_specs::iter::IteratorSpec::decrease(&self.inner)->0 <= vstd::std_specs::iter::IteratorSpec::decrease(&old(self).inner)->0,
                read > 0 ==> vstd::std_specs::iter::IteratorSpec::decrease(&self.inner)->0 < vstd::std_specs::iter::IteratorSpec::decrease(&old(self).inner)->0,
                vstd::std_specs::iter::IteratorSpec::remaining(&self.inner) == start.skip(read as int),
                filter_next(start, self.show_tool_calls) == ({
                    let (r, n) = filter_next(vstd::std_specs::iter::IteratorSpec::remaining(&self.inner), self.show_tool_calls);
                    (r, n + read)
                }),
            decreases vstd::std_specs::iter::IteratorSpec::decrease(&self.inner)->0,
        {
            let ghost before = vstd::std_specs::iter::IteratorSpec::remaining(&self.inner);
            match self.inner.next() {
                None => {
                    return None;
                },
                Some(line) => {
                    proof {
                        assert(before[0] == line);
                        assert(before.drop_first() =~= start.skip(read + 1 as int));
                        read = read + 1;
                    }
                    match try_parse_ndjson_line(line.as_str(), self.show_tool_calls) {
                        None => {
                            return Some(Err(line));
                        },
                        Some(Some(t)) => {
                            return Some(Ok(t));
                        },
                        Some(None) => {},
                    }
                },
            }
        }
    }

    /// All texts of the stream in order, or the first line whose text is not defined.
    pub fn collect_texts(self) -> (r: Result<Vec<String>, String>)
        requires
            self.readable(),
        ensures
            match r {
                Ok(v) => filter_all(vstd::std_specs::iter::IteratorSpec::remaining(&self.inner), self.show_tool_calls) == Ok::<Seq<Seq<char>>, Seq<char>>(v@.map_values(|s: String| s@)),
                Err(l) => filter_all(vstd::std_specs::iter::IteratorSpec::remaining(&self.inner), self.show_tool_calls) == Err::<Seq<Seq<char>>, Seq<char>>(l@),
            },
    {
        let mut f = self;
        let ghost start = vstd::std_specs::iter::IteratorSpec::remaining(&f.inner);
        let mut out: Vec<String> = Vec::new();
        loop
            invariant
                f.readable(),
                f.show_tool_calls == self.show_tool_calls,
                start == vstd::std_specs::iter::IteratorSpec::remaining(&self.inner),
                filter_all(start, self.show_tool_calls) == match filter_all(vstd::std_specs::iter::IteratorSpec::remaining(&f.inner), f.show_tool_calls) {
                    Ok(ts) => Ok(out@.map_values(|s: String| s@) + ts),
                    Err(l) => Err::<Seq<Seq<char>>, Seq<char>>(l),
                },
            decreases vstd::std_specs::iter::IteratorSpec::decrease(&f.inner)->0,
        {
            let ghost before = vstd::std_specs::iter::IteratorSpec::remaining(&f.inner);
            proof {
                lemma_filter_all_next(before, f.show_tool_calls);
            }
            match f.next() {
                None => {
                    assert(out@.map_values(|s: String| s@) + Seq::<Seq<char>>::empty() =~= out@.map_values(|s: String| s@));
                    return Ok(out);
                },
                Some(Err(l)) => {
                    return Err(l);
                },
                Some(Ok(t)) => {
                    let ghost old_out = out@;
                    let ghost tv = t@;
                    out.push(t);
                    assert(out@.map_values(|s: String| s@) =~= old_out.map_values(|s: String| s@).push(tv));
                    let ghost ov = old_out.map_values(|s: String| s@);
                    assert forall|ts2: Seq<Seq<char>>| #[trigger] (ov + (seq![tv] + ts2)) == ov.push(tv) + ts2 by {
                        assert(ov + (seq![tv] + ts2) =~= ov.push(tv) + ts2);
                    }
                },
            }
        }
    }
}

/// `filter_all` is `filter_next` repeated.
proof fn lemma_filter_all_next(lines: Seq<String>, show: bool)
    ensures
        ({
            let (r, n) = filter_next(lines, show);
            &&& n <= lines.len()
            &&& (r is Some ==> n > 0)
            &&& match r {
                None => filter_all(lines, show) == Ok::<Seq<Seq<char>>, Seq<char>>(Seq::empty()),
                Some(Err(l)) => filter_all(lines, show) == Err::<Seq<Seq<char>>, Seq<char>>(l),
                Some(Ok(t)) => filter_all(lines, show) == match filter_all(lines.skip(n as int), show) {
                    Ok(ts) => Ok(seq![t] + ts),
                    Err(l) => Err::<Seq<Seq<char>>, Seq<char>>(l),
                },
            }
        }),
    decreases lines.len(),
{
    if lines.len() > 0 && ndjson_line_defined(lines[0]@, show) {
        lemma_filter_all_next(lines.drop_first(), show);
        let (r, n) = filter_next(lines.drop_first(), show);
        assert(lines.skip(1) =~= lines.drop_first());
        if ndjson_line_spec(lines[0]@, show) is None {
            assert(lines.drop_first().skip(n as int) =~= lines.skip(n + 1 as int));
        }
    }
}

// ---------------------------------------------------------------------------
// Laws of the filter
// ---------------------------------------------------------------------------

/// A blank line shows nothing.
pub proof fn law_blank_line_shows_nothing(line: Seq<char>, show_tool_calls: bool)
    requires
        trim_spec(line).len() == 0,
    ensures
        ndjson_line_spec(line, show_tool_calls) is None,
{
}

/// A line that is not a JSON event passes through, trimmed.
pub proof fn law_plain_line_passes_through(line: Seq<char>, show_tool_calls: bool)
    requires
        trim_spec(line).len() > 0,
        line_event(trim_spec(line)) is None,
    ensures
        ndjson_line_spec(line, show_tool_calls) == Some(trim_spec(line)),
{
}

/// Tool calls are hidden unless asked for.
pub proof fn law_tool_calls_hidden_by_default(line: Seq<char>)
    requires
        trim_spec(line).len() > 0,
        line_event(trim_spec(line)) matches Some(ev) && ev.event_type matches Some(t) && is_tool_type(t),
    ensures
        ndjson_line_spec(line, false) is None,
{
    let t = line_event(trim_spec(line))->0.event_type->0;
    reveal_strlit("assistant");
    reveal_strlit("tool_use");
    reveal_strlit("tool_call");
    assert(t != "assistant"@) by {
        if t == "tool_call"@ {
            assert(t[0] != "assistant"@[0]);
        } else {
            assert(t.len() != "assistant"@.len());
        }
    }
}

/// Bookkeeping events (tool results, usage, stats, system, result) show nothing.
pub proof fn law_silent_events_show_nothing(line: Seq<char>, show_tool_calls: bool)
    requires
        trim_spec(line).len() > 0,
        line_event(trim_spec(line)) matches Some(ev) && ev.event_type matches Some(t) && is_silent_type(t),
    ensures
        ndjson_line_spec(line, show_tool_calls) is None,
{
    let ev = line_event(trim_spec(line))->0;
    let t = ev.event_type->0;
    reveal_strlit("assistant");
    reveal_strlit("tool_use");
    reveal_strlit("tool_call");
    reveal_strlit("text");
    reveal_strlit("tool_result");
    reveal_strlit("token_usage");
    reveal_strlit("usage");
    reveal_strlit("stats");
    reveal_strlit("system");
    reveal_strlit("result");
    assert(t.len() == 11 || t.len() == 5 || t.len() == 6);
    assert(t != "assistant"@ && !is_tool_type(t) && t != "text"@);
}

/// Every text kept from blocks is non-empty.
proof fn lemma_block_texts_nonempty(bs: Seq<BlockModel>)
    ensures
        forall|i: int| 0 <= i < block_texts(bs).len() ==> (#[trigger] block_texts(bs)[i]).len() > 0,
    decreases bs.len(),
{
    if bs.len() > 0 {
        lemma_block_texts_nonempty(bs.drop_last());
        let init = block_texts(bs.drop_last());
        assert forall|i: int| 0 <= i < block_texts(bs).len() implies (#[trigger] block_texts(bs)[i]).len() > 0 by {
            if i < init.len() {
                assert(block_texts(bs)[i] == init[i]);
            }
        }
    }
}

/// The text a content value gives is never empty.
proof fn lemma_plain_content_nonempty(c: JsonModel)
    ensures
        plain_content(c) matches Some(t) ==> t.len() > 0,
{
    if let JsonModel::Array(items) = c {
        let ts = block_texts(decodable_blocks(items));
        lemma_block_texts_nonempty(decodable_blocks(items));
        if ts.len() == 1 {
            assert(join_lines(ts) == ts[0]);
        } else if ts.len() > 1 {
            assert(join_lines(ts) == join_lines(ts.drop_last()) + seq!['\n'] + ts.last());
        }
    }
}

/// The text an event's `content` gives on its own: a non-empty string, or
/// the text of the blocks of an array.
pub open spec fn content_text(ev: EventModel) -> Option<Seq<char>> {
    match ev.content {
        Some(c) => plain_content(c),
        None => None,
    }
}

/// An error event is shown as `[error: msg]`, where `msg` is the text its
/// content gives, else its `text` field, else `unknown error`.
pub proof fn law_error_event_text(ev: EventModel, raw: Seq<char>, show_tool_calls: bool)
    requires
        ev.event_type == Some("error"@),
    ensures
        content_text(ev) matches Some(m) ==> event_text(ev, raw, show_tool_calls) == Some("[error: "@ + m + "]"@),
        content_text(ev) is None ==> (ev.text matches Some(t) ==> event_text(ev, raw, show_tool_calls) == Some("[error: "@ + t + "]"@)),
        content_text(ev) is None && ev.text is None ==> event_text(ev, raw, show_tool_calls) == Some("[error: unknown error]"@),
{
    let t = "error"@;
    reveal_strlit("error");
    reveal_strlit("assistant");
    reveal_strlit("tool_use");
    reveal_strlit("tool_call");
    reveal_strlit("text");
    reveal_strlit("tool_result");
    reveal_strlit("token_usage");
    reveal_strlit("usage");
    reveal_strlit("stats");
    reveal_strlit("system");
    reveal_strlit("result");
    reveal_strlit("[error: ");
    reveal_strlit("]");
    reveal_strlit("unknown error");
    reveal_strlit("[error: unknown error]");
    assert(t != "assistant"@ && !is_tool_type(t) && t != "text"@ && !is_silent_type(t)) by {
        assert(t.len() == 5);
        assert(t[0] == 'e');
        assert("usage"@[0] == 'u' && "stats"@[0] == 's' && "text"@.len() == 4);
    }
    assert("[error: "@ + "unknown error"@ + "]"@ =~= "[error: unknown error]"@);
}

/// A text event shows the non-empty text its content gives, else its
/// non-empty `text` field, else nothing.
pub proof fn law_text_event_text(ev: EventModel, raw: Seq<char>, show_tool_calls: bool)
    requires
        ev.event_type == Some("text"@),
    ensures
        content_text(ev) matches Some(m) ==> event_text(ev, raw, show_tool_calls) == Some(m),
        content_text(ev) is None ==> (ev.text matches Some(t) ==> (t.len() > 0 ==> event_text(ev, raw, show_tool_calls) == Some(t))),
        content_text(ev) is None && (ev.text is None || ev.text->0.len() == 0) ==> event_text(ev, raw, show_tool_calls) is None,
{
    let t = "text"@;
    reveal_strlit("assistant");
    reveal_strlit("tool_use");
    reveal_strlit("tool_call");
    reveal_strlit("text");
    assert(t != "assistant"@ && !is_tool_type(t)) by {
        assert(t.len() == 4);
    }
    if content_text(ev) is Some {
        assert(content_text(ev)->0.len() > 0) by {
            lemma_plain_content_nonempty(ev.content->0);
        }
    }
}

/// An event without a type shows the text its content gives, else its
/// `text` field, else the line itself.
pub proof fn law_untyped_event_text(ev: EventModel, raw: Seq<char>, show_tool_calls: bool)
    requires
        ev.event_type is None,
    ensures
        content_text(ev) matches Some(m) ==> event_text(ev, raw, show_tool_calls) == Some(m),
        content_text(ev) is None ==> (ev.text matches Some(t) ==> event_text(ev, raw, show_tool_calls) == Some(t)),
        content_text(ev) is None && ev.text is None ==> event_text(ev, raw, show_tool_calls) == Some(raw),
{
}

/// Showing tool calls only adds lines: a line shown without them is shown,
/// the same, with them.
pub proof fn law_show_tool_calls_only_adds(line: Seq<char>)
    requires
        ndjson_line_spec(line, false) is Some,
    ensures
        ndjson_line_spec(line, true) == ndjson_line_spec(line, false),
{
}

} // verus!
