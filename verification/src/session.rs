//! Sessions: their titles, their listing order, the records of their
//! context files, and the text of a user's input.
use vstd::prelude::*;
use crate::json::{
    Json, JsonValue, entries_view, find_key, get_value, is_first_key, lemma_first_key_unique,
    lemma_object_view, lemma_array_view, items_view, obj_get, obj_insert, obj_remove, remove_value,
    keys_distinct, lemma_insert_get, lemma_insert_same, lemma_remove_get, member, member_of, str_member,
    str_member_of,
};
use crate::paths::{extension_dot, join_path, joined, split_extension};
use crate::json_text::{
    float_free, json_equiv, json_parse, json_text, json_to_text, lemma_entries_float_free, lemma_entries_plain,
    lemma_equiv_member, lemma_equiv_scalar, lemma_items_equiv_at, lemma_items_float_free, lemma_items_plain,
    nested_within, parse_json_text, plain_data,
};
use crate::text::{
    append_str, byte_len, byte_len_at_most, char_width, char_width_of, chars_to_string,
    collapse_whitespace, collapsed, is_white, is_white_char, join, lemma_byte_len_concat,
    lemma_byte_len_prefix, lemma_byte_len_push, lemma_join_push, str_chars, str_equal, string_of,
    trim_prefix_to_string, trimmed, chars_range_to_string, split_chars, split_on, strs_view,
    lemma_split_joined, lemma_split_single,
};

verus! {

/// A part of a message's content.
pub enum ContentPart {
    Text(String),
    Think(String),
    ImageUrl(String),
    AudioUrl(String),
    VideoUrl(String),
}

/// What a user typed: plain text, or parts of a message.
pub enum UserInput {
    Text(String),
    Parts(Vec<ContentPart>),
}

/// The texts of the text parts of `ps`, in order.
pub open spec fn text_parts(ps: Seq<ContentPart>) -> Seq<Seq<char>>
    decreases ps.len(),
{
    if ps.len() == 0 {
        Seq::empty()
    } else {
        let r = text_parts(ps.drop_last());
        match ps.last() {
            ContentPart::Text(t) => r.push(t@),
            _ => r,
        }
    }
}

/// The text of a user's input: the text itself, or the texts of its text
/// parts joined by spaces.
pub open spec fn input_text(u: UserInput) -> Seq<char> {
    match u {
        UserInput::Text(t) => t@,
        UserInput::Parts(ps) => join(text_parts(ps@), " "@),
    }
}

/// The text of a user's input.
pub fn user_input_to_text(user_input: &UserInput) -> (r: String)
    ensures
        r@ == input_text(*user_input),
{
    match user_input {
        UserInput::Text(t) => t.clone(),
        UserInput::Parts(ps) => {
            let mut out = String::new();
            let mut any = false;
            let mut i: usize = 0;
            while i < ps.len()
                invariant
                    i <= ps.len(),
                    out@ == join(text_parts(ps@.take(i as int)), " "@),
                    any == (text_parts(ps@.take(i as int)).len() > 0),
                decreases ps.len() - i,
            {
                proof {
                    assert(ps@.take(i + 1).drop_last() =~= ps@.take(i as int));
                    assert(ps@.take(i + 1).last() == ps@[i as int]);
                }
                match &ps[i] {
                    ContentPart::Text(t) => {
                        proof {
                            lemma_join_push(text_parts(ps@.take(i as int)), t@, " "@);
                        }
                        if any {
                            append_str(&mut out, " ");
                        }
                        append_str(&mut out, t.as_str());
                        any = true;
                    },
                    _ => {},
                }
                i = i + 1;
            }
            assert(ps@.take(ps.len() as int) =~= ps@);
            out
        },
    }
}

/// The largest `k < n` where `c` holds white space that starts within the
/// first `target` bytes; -1 when there is none.
pub open spec fn last_break(c: Seq<char>, n: int, target: nat) -> int
    decreases n,
{
    if n <= 0 {
        -1
    } else if is_white(c[n - 1]) && byte_len(c.take(n - 1)) <= target {
        n - 1
    } else {
        last_break(c, n - 1, target)
    }
}

/// `text` shortened for a title of at most `width` bytes: its words joined by
/// single spaces; when that is too long, cut at the last space that leaves
/// room for `...` and marked with it, or `...` alone when no such space is.
pub open spec fn shortened(text: Seq<char>, width: nat) -> Seq<char> {
    let c = collapsed(text);
    if c.len() == 0 {
        Seq::empty()
    } else if byte_len(c) <= width {
        c
    } else if width <= 3 {
        "..."@
    } else {
        let k = last_break(c, c.len() as int, (width - 3) as nat);
        if k <= 0 {
            "..."@
        } else {
            c.take(k) + "..."@
        }
    }
}

proof fn lemma_last_break_found(c: Seq<char>, n: int, target: nat)
    requires
        0 <= n <= c.len(),
    ensures
        last_break(c, n, target) < n,
        last_break(c, n, target) >= 0 ==> byte_len(c.take(last_break(c, n, target))) <= target,
    decreases n,
{
    if n > 0 {
        lemma_last_break_found(c, n - 1, target);
    }
}

proof fn lemma_last_break_past(c: Seq<char>, m: int, n: int, target: nat)
    requires
        0 <= m <= n <= c.len(),
        byte_len(c.take(m)) > target,
    ensures
        last_break(c, n, target) == last_break(c, m, target),
    decreases n - m,
{
    if n > m {
        lemma_byte_len_prefix(c, m, n - 1);
        lemma_last_break_past(c, m, n - 1, target);
    }
}

/// Shortens `text` to a title of at most `width` bytes (see `shortened`).
pub fn shorten_text(text: &str, width: usize) -> (r: String)
    ensures
        r@ == shortened(text@, width as nat),
{
    let c = collapse_whitespace(text);
    if c.len() == 0 {
        return String::new();
    }
    let cs = chars_to_string(&c);
    if byte_len_at_most(cs.as_str(), width) {
        return cs;
    }
    if width <= 3 {
        return string_of("...");
    }
    let target = width - 3;
    let mut k: usize = 0;
    let mut off: usize = 0;
    let mut over = false;
    let mut last: Option<usize> = None;
    assert(c@.take(0) =~= Seq::<char>::empty());
    while k < c.len() && !over
        invariant
            k <= c.len(),
            c@ == collapsed(text@),
            over ==> byte_len(c@.take(k as int)) > target,
            !over ==> off == byte_len(c@.take(k as int)) && off <= target,
            match last {
                Some(j) => last_break(c@, k as int, target as nat) == j as int,
                None => last_break(c@, k as int, target as nat) == -1,
            },
        decreases c.len() - k, if over { 0nat } else { 1nat },
    {
        proof {
            assert(c@.take(k + 1) == c@.take(k as int).push(c@[k as int]));
            lemma_byte_len_push(c@.take(k as int), c@[k as int]);
        }
        if is_white_char(c[k]) {
            last = Some(k);
        }
        let w = char_width_of(c[k]);
        if w > target - off {
            over = true;
        } else {
            off = off + w;
        }
        k = k + 1;
    }
    proof {
        if over {
            lemma_last_break_past(c@, k as int, c@.len() as int, target as nat);
        }
        lemma_last_break_found(c@, k as int, target as nat);
    }
    match last {
        Some(j) => {
            if j > 0 {
                let mut out = chars_range_to_string(&c, 0, j);
                assert(c@.subrange(0, j as int) =~= c@.take(j as int));
                append_str(&mut out, "...");
                out
            } else {
                string_of("...")
            }
        },
        None => string_of("..."),
    }
}

/// A shortened title never takes more than `width` bytes, or the three of
/// `...` when `width` is smaller; it is empty only for a text of white space.
pub proof fn law_shortened_within_width(text: Seq<char>, width: nat)
    ensures
        byte_len(shortened(text, width)) <= if width < 3 {
            3
        } else {
            width
        },
        shortened(text, width).len() == 0 <==> collapsed(text).len() == 0,
{
    let c = collapsed(text);
    reveal_strlit("...");
    assert("..."@ =~= seq!['.', '.'].push('.'));
    assert(seq!['.', '.'] =~= seq!['.'].push('.'));
    crate::text::lemma_byte_len_single('.');
    lemma_byte_len_push(seq!['.'], '.');
    lemma_byte_len_push(seq!['.', '.'], '.');
    if c.len() > 0 && byte_len(c) > width && width > 3 {
        let k = last_break(c, c.len() as int, (width - 3) as nat);
        lemma_last_break_found(c, c.len() as int, (width - 3) as nat);
        if k > 0 {
            lemma_byte_len_concat(c.take(k), "..."@);
        }
    }
}

/// A record of a session's wire file, as far as a title needs it.
pub enum WireRecord {
    TurnBegin(UserInput),
    Other,
    Unreadable,
}

/// A content part as mathematical values.
pub enum PartView {
    Text(Seq<char>),
    Think(Seq<char>),
    ImageUrl(Seq<char>),
    AudioUrl(Seq<char>),
    VideoUrl(Seq<char>),
}

/// The view of a content part.
pub open spec fn part_view(p: ContentPart) -> PartView {
    match p {
        ContentPart::Text(t) => PartView::Text(t@),
        ContentPart::Think(t) => PartView::Think(t@),
        ContentPart::ImageUrl(u) => PartView::ImageUrl(u@),
        ContentPart::AudioUrl(u) => PartView::AudioUrl(u@),
        ContentPart::VideoUrl(u) => PartView::VideoUrl(u@),
    }
}

/// The views of a list of content parts.
pub open spec fn parts_view(ps: Seq<ContentPart>) -> Seq<PartView> {
    Seq::new(ps.len(), |i: int| part_view(ps[i]))
}

/// The URL under `k` of a part: `{k: {"url": ...}}`.
pub open spec fn url_member(j: Json, k: Seq<char>) -> Option<Seq<char>> {
    match member(j, k) {
        Some(u) => str_member(u, "url"@),
        None => None,
    }
}

/// The content part that a JSON value of a wire record stands for: an object
/// whose `type` is `text` or `think` (with that text), or `image_url`,
/// `audio_url` or `video_url` (with `{"url": ...}` under the same name).
pub open spec fn part_of_doc(j: Json) -> Option<PartView> {
    match str_member(j, "type"@) {
        Some(t) => if t == "text"@ {
            match str_member(j, "text"@) {
                Some(x) => Some(PartView::Text(x)),
                None => None,
            }
        } else if t == "think"@ {
            match str_member(j, "think"@) {
                Some(x) => Some(PartView::Think(x)),
                None => None,
            }
        } else if t == "image_url"@ {
            match url_member(j, "image_url"@) {
                Some(x) => Some(PartView::ImageUrl(x)),
                None => None,
            }
        } else if t == "audio_url"@ {
            match url_member(j, "audio_url"@) {
                Some(x) => Some(PartView::AudioUrl(x)),
                None => None,
            }
        } else if t == "video_url"@ {
            match url_member(j, "video_url"@) {
                Some(x) => Some(PartView::VideoUrl(x)),
                None => None,
            }
        } else {
            None
        },
        None => None,
    }
}

/// The content parts that a list of JSON values stands for, leaving out those
/// that stand for none.
pub open spec fn parts_of_docs(a: Seq<Json>) -> Seq<PartView>
    decreases a.len(),
{
    if a.len() == 0 {
        Seq::empty()
    } else {
        let rest = parts_of_docs(a.drop_last());
        match part_of_doc(a.last()) {
            Some(p) => rest.push(p),
            None => rest,
        }
    }
}

/// A wire record as mathematical values.
pub enum RecordView {
    TurnText(Seq<char>),
    TurnParts(Seq<PartView>),
    Other,
    Unreadable,
}

/// The view of a wire record.
pub open spec fn record_view(r: WireRecord) -> RecordView {
    match r {
        WireRecord::TurnBegin(UserInput::Text(t)) => RecordView::TurnText(t@),
        WireRecord::TurnBegin(UserInput::Parts(ps)) => RecordView::TurnParts(parts_view(ps@)),
        WireRecord::Other => RecordView::Other,
        WireRecord::Unreadable => RecordView::Unreadable,
    }
}

/// The record that a parsed line of a wire file stands for. A line is
/// `{"message": {"type": ..., "payload": ...}}`; one without a `message` is
/// none. A message of another type than `TurnBegin` is another record; a
/// `TurnBegin` carries its `payload`'s `user_input`: a string, or a list of
/// parts. Any other `user_input` makes the record unreadable.
pub open spec fn record_of_doc(doc: Json) -> Option<RecordView> {
    match member(doc, "message"@) {
        None => None,
        Some(msg) => if str_member(msg, "type"@) != Some("TurnBegin"@) {
            Some(RecordView::Other)
        } else {
            match member(msg, "payload"@) {
                Some(payload) => match member(payload, "user_input"@) {
                    Some(Json::Str(t)) => Some(RecordView::TurnText(t)),
                    Some(Json::Array(a)) => Some(RecordView::TurnParts(parts_of_docs(a))),
                    _ => Some(RecordView::Unreadable),
                },
                None => Some(RecordView::Unreadable),
            }
        },
    }
}

/// The record that the (trimmed, non-blank) line `line` of a wire file
/// stands for: unreadable when serde_json cannot read it.
pub open spec fn record_of_line(line: Seq<char>) -> Option<RecordView> {
    match json_parse(line) {
        Ok(doc) => record_of_doc(doc),
        Err(_) => Some(RecordView::Unreadable),
    }
}

/// The records of a wire file whose lines are `lines`: each non-blank line,
/// trimmed, gives its record, if any.
pub open spec fn records_of_lines(lines: Seq<Seq<char>>) -> Seq<RecordView>
    decreases lines.len(),
{
    if lines.len() == 0 {
        Seq::empty()
    } else {
        let rest = records_of_lines(lines.drop_last());
        let t = trimmed(lines.last());
        if t.len() == 0 {
            rest
        } else {
            match record_of_line(t) {
                Some(r) => rest.push(r),
                None => rest,
            }
        }
    }
}

/// The URL under `k` of a part (see `url_member`).
fn url_member_of<'a>(j: &'a JsonValue, k: &str) -> (r: Option<&'a String>)
    ensures
        match r {
            Some(s) => url_member(j@, k@) == Some(s@),
            None => url_member(j@, k@) is None,
        },
{
    match member_of(j, k) {
        Some(u) => str_member_of(u, "url"),
        None => None,
    }
}

/// The content part that a JSON value stands for (see `part_of_doc`).
fn part_from_doc(j: &JsonValue) -> (r: Option<ContentPart>)
    ensures
        match r {
            Some(p) => part_of_doc(j@) == Some(part_view(p)),
            None => part_of_doc(j@) is None,
        },
{
    let t = match str_member_of(j, "type") {
        Some(t) => t,
        None => return None,
    };
    if str_equal(t.as_str(), "text") {
        match str_member_of(j, "text") {
            Some(x) => Some(ContentPart::Text(x.clone())),
            None => None,
        }
    } else if str_equal(t.as_str(), "think") {
        match str_member_of(j, "think") {
            Some(x) => Some(ContentPart::Think(x.clone())),
            None => None,
        }
    } else if str_equal(t.as_str(), "image_url") {
        match url_member_of(j, "image_url") {
            Some(x) => Some(ContentPart::ImageUrl(x.clone())),
            None => None,
        }
    } else if str_equal(t.as_str(), "audio_url") {
        match url_member_of(j, "audio_url") {
            Some(x) => Some(ContentPart::AudioUrl(x.clone())),
            None => None,
        }
    } else if str_equal(t.as_str(), "video_url") {
        match url_member_of(j, "video_url") {
            Some(x) => Some(ContentPart::VideoUrl(x.clone())),
            None => None,
        }
    } else {
        None
    }
}

/// The content parts that the values `a` stand for (see `parts_of_docs`).
fn parts_from_docs(a: &Vec<JsonValue>) -> (r: Vec<ContentPart>)
    ensures
        parts_view(r@) == parts_of_docs(items_view(a@)),
{
    let ghost iv = items_view(a@);
    let mut out: Vec<ContentPart> = Vec::new();
    let mut i: usize = 0;
    assert(parts_view(out@) =~= Seq::<PartView>::empty());
    while i < a.len()
        invariant
            i <= a.len(),
            iv == items_view(a@),
            parts_view(out@) == parts_of_docs(iv.take(i as int)),
        decreases a.len() - i,
    {
        assert(iv.take(i + 1).drop_last() =~= iv.take(i as int));
        assert(iv.take(i + 1).last() == a@[i as int]@);
        let ghost before = parts_view(out@);
        match part_from_doc(&a[i]) {
            Some(p) => {
                out.push(p);
                assert(parts_view(out@) =~= before.push(part_of_doc(a@[i as int]@)->0));
            },
            None => {},
        }
        i = i + 1;
    }
    assert(iv.take(a.len() as int) =~= iv);
    out
}

/// The record that a parsed line stands for (see `record_of_doc`).
fn record_from_doc(doc: &JsonValue) -> (r: Option<WireRecord>)
    ensures
        match r {
            Some(rec) => record_of_doc(doc@) == Some(record_view(rec)),
            None => record_of_doc(doc@) is None,
        },
{
    let msg = match member_of(doc, "message") {
        Some(m) => m,
        None => return None,
    };
    let is_turn = match str_member_of(msg, "type") {
        Some(t) => str_equal(t.as_str(), "TurnBegin"),
        None => false,
    };
    proof {
        reveal_strlit("TurnBegin");
    }
    if !is_turn {
        return Some(WireRecord::Other);
    }
    match member_of(msg, "payload") {
        Some(payload) => match member_of(payload, "user_input") {
            Some(JsonValue::String(t)) => Some(WireRecord::TurnBegin(UserInput::Text(t.clone()))),
            Some(JsonValue::Array(a)) => {
                proof {
                    lemma_array_view(*a);
                }
                Some(WireRecord::TurnBegin(UserInput::Parts(parts_from_docs(a))))
            },
            _ => Some(WireRecord::Unreadable),
        },
        None => Some(WireRecord::Unreadable),
    }
}

/// The record that the line `line` of a wire file stands for (see
/// `record_of_line`).
pub fn wire_record_of(line: &str) -> (r: Option<WireRecord>)
    ensures
        match r {
            Some(rec) => record_of_line(line@) == Some(record_view(rec)),
            None => record_of_line(line@) is None,
        },
{
    match parse_json_text(line) {
        Ok(doc) => record_from_doc(&doc),
        Err(_) => Some(WireRecord::Unreadable),
    }
}

/// The records of the wire file whose text is `content` (see
/// `records_of_lines`).
pub fn read_wire_records(content: &str) -> (r: Vec<WireRecord>)
    ensures
        Seq::new(r@.len(), |i: int| record_view(r@[i])) == records_of_lines(split_on(content@, '\n')),
{
    let cs = str_chars(content);
    let lines = split_chars(&cs, '\n');
    let ghost lv = strs_view(lines@);
    let mut out: Vec<WireRecord> = Vec::new();
    let mut i: usize = 0;
    assert(Seq::new(out@.len(), |j: int| record_view(out@[j])) =~= records_of_lines(lv.take(0)));
    while i < lines.len()
        invariant
            i <= lines.len(),
            lv == strs_view(lines@),
            lv == split_on(content@, '\n'),
            Seq::new(out@.len(), |j: int| record_view(out@[j])) == records_of_lines(lv.take(i as int)),
        decreases lines.len() - i,
    {
        assert(lv.take(i + 1).drop_last() =~= lv.take(i as int));
        assert(lv.take(i + 1).last() == lines@[i as int]@);
        let lc = str_chars(lines[i].as_str());
        let line = trim_prefix_to_string(&lc, lc.len());
        assert(lc@.take(lc.len() as int) =~= lines@[i as int]@);
        if !line.as_str().is_empty() {
            let ghost before = Seq::new(out@.len(), |j: int| record_view(out@[j]));
            match wire_record_of(line.as_str()) {
                Some(rec) => {
                    out.push(rec);
                    assert(Seq::new(out@.len(), |j: int| record_view(out@[j])) =~= before.push(
                        record_of_line(line@)->0,
                    ));
                },
                None => {},
            }
        }
        i = i + 1;
    }
    assert(lv.take(lines.len() as int) =~= lv);
    out
}

/// The document of a URL: `{"url": u}`.
pub open spec fn url_doc(u: Seq<char>) -> Json {
    Json::Object(seq![("url"@, Json::Str(u))])
}

/// The document of a content part: its `type`, and its text (or
/// `{"url": ...}`) under the name of that type.
pub open spec fn part_doc(p: PartView) -> Json {
    match p {
        PartView::Text(t) => Json::Object(seq![("type"@, Json::Str("text"@)), ("text"@, Json::Str(t))]),
        PartView::Think(t) => Json::Object(seq![("type"@, Json::Str("think"@)), ("think"@, Json::Str(t))]),
        PartView::ImageUrl(u) => Json::Object(seq![("type"@, Json::Str("image_url"@)), ("image_url"@, url_doc(u))]),
        PartView::AudioUrl(u) => Json::Object(seq![("type"@, Json::Str("audio_url"@)), ("audio_url"@, url_doc(u))]),
        PartView::VideoUrl(u) => Json::Object(seq![("type"@, Json::Str("video_url"@)), ("video_url"@, url_doc(u))]),
    }
}

/// The documents of a list of content parts.
pub open spec fn parts_docs(ps: Seq<PartView>) -> Seq<Json> {
    Seq::new(ps.len(), |i: int| part_doc(ps[i]))
}

/// The document of a user's input in a wire record: the text itself, or the
/// list of its parts.
pub open spec fn input_doc(u: UserInput) -> Json {
    match u {
        UserInput::Text(t) => Json::Str(t@),
        UserInput::Parts(ps) => Json::Array(parts_docs(parts_view(ps@))),
    }
}

/// The message stored in a context file for a user's input: its `role` is
/// `user`, and its `content` is the list of parts (plain text becoming one
/// text part).
pub open spec fn user_message_doc(u: UserInput) -> Json {
    let content = match u {
        UserInput::Text(t) => seq![part_doc(PartView::Text(t@))],
        UserInput::Parts(ps) => parts_docs(parts_view(ps@)),
    };
    Json::Object(seq![("role"@, Json::Str("user"@)), ("content"@, Json::Array(content))])
}

/// The wire record of the beginning of a turn with the user's input `u`.
pub open spec fn turn_record_doc(u: UserInput) -> Json {
    Json::Object(
        seq![
            ("message"@, Json::Object(seq![
                ("type"@, Json::Str("TurnBegin"@)),
                ("payload"@, Json::Object(seq![("user_input"@, input_doc(u))])),
            ])),
        ],
    )
}

/// A string pair.
fn pair(k: &str, v: JsonValue) -> (r: (String, JsonValue))
    ensures
        r.0@ == k@,
        r.1 == v,
{
    (string_of(k), v)
}

/// The object with the one entry `(k, v)`.
fn object_of_one(k: &str, v: JsonValue) -> (r: JsonValue)
    ensures
        r@ == Json::Object(seq![(k@, v@)]),
{
    let mut m: Vec<(String, JsonValue)> = Vec::new();
    m.push(pair(k, v));
    proof {
        lemma_object_view(m);
        assert(entries_view(m@) =~= seq![(k@, m@[0].1@)]);
    }
    JsonValue::Object(m)
}

/// The object with the two entries `(k1, v1)` and `(k2, v2)`.
fn object_of_two(k1: &str, v1: JsonValue, k2: &str, v2: JsonValue) -> (r: JsonValue)
    ensures
        r@ == Json::Object(seq![(k1@, v1@), (k2@, v2@)]),
{
    let ghost j1 = v1@;
    let ghost j2 = v2@;
    let mut m: Vec<(String, JsonValue)> = Vec::new();
    m.push(pair(k1, v1));
    m.push(pair(k2, v2));
    proof {
        lemma_object_view(m);
        assert(entries_view(m@) =~= seq![(k1@, j1), (k2@, j2)]);
    }
    JsonValue::Object(m)
}

/// The document of a content part (see `part_doc`).
pub fn part_document(p: &ContentPart) -> (r: JsonValue)
    ensures
        r@ == part_doc(part_view(*p)),
{
    match p {
        ContentPart::Text(t) => object_of_two("type", JsonValue::String(string_of("text")), "text", JsonValue::String(t.clone())),
        ContentPart::Think(t) => object_of_two("type", JsonValue::String(string_of("think")), "think", JsonValue::String(t.clone())),
        ContentPart::ImageUrl(u) => object_of_two(
            "type",
            JsonValue::String(string_of("image_url")),
            "image_url",
            object_of_one("url", JsonValue::String(u.clone())),
        ),
        ContentPart::AudioUrl(u) => object_of_two(
            "type",
            JsonValue::String(string_of("audio_url")),
            "audio_url",
            object_of_one("url", JsonValue::String(u.clone())),
        ),
        ContentPart::VideoUrl(u) => object_of_two(
            "type",
            JsonValue::String(string_of("video_url")),
            "video_url",
            object_of_one("url", JsonValue::String(u.clone())),
        ),
    }
}

/// The documents of the content parts `ps` (see `parts_docs`).
fn parts_documents(ps: &Vec<ContentPart>) -> (r: Vec<JsonValue>)
    ensures
        items_view(r@) == parts_docs(parts_view(ps@)),
{
    let mut out: Vec<JsonValue> = Vec::new();
    let mut i: usize = 0;
    while i < ps.len()
        invariant
            i <= ps.len(),
            out@.len() == i,
            forall|j: int| 0 <= j < i ==> (#[trigger] out@[j])@ == part_doc(part_view(ps@[j])),
        decreases ps.len() - i,
    {
        out.push(part_document(&ps[i]));
        i = i + 1;
    }
    assert(items_view(out@) =~= parts_docs(parts_view(ps@)));
    out
}

/// The document of a user's input in a wire record (see `input_doc`).
fn input_document(u: &UserInput) -> (r: JsonValue)
    ensures
        r@ == input_doc(*u),
{
    match u {
        UserInput::Text(t) => JsonValue::String(t.clone()),
        UserInput::Parts(ps) => {
            let docs = parts_documents(ps);
            proof {
                lemma_array_view(docs);
            }
            JsonValue::Array(docs)
        },
    }
}

/// The message stored in a context file for the user's input `u` (see
/// `user_message_doc`).
pub fn user_message_document(u: &UserInput) -> (r: JsonValue)
    ensures
        r@ == user_message_doc(*u),
{
    let content = match u {
        UserInput::Text(t) => {
            let mut parts: Vec<JsonValue> = Vec::new();
            parts.push(part_document(&ContentPart::Text(t.clone())));
            parts
        },
        UserInput::Parts(ps) => parts_documents(ps),
    };
    let ghost cv = items_view(content@);
    proof {
        lemma_array_view(content);
        match u {
            UserInput::Text(t) => {
                assert(cv =~= seq![part_doc(PartView::Text(t@))]);
            },
            UserInput::Parts(ps) => {},
        }
    }
    object_of_two("role", JsonValue::String(string_of("user")), "content", JsonValue::Array(content))
}

/// The wire record of the beginning of a turn with the user's input `u`
/// (see `turn_record_doc`).
pub fn turn_record_document(u: &UserInput) -> (r: JsonValue)
    ensures
        r@ == turn_record_doc(*u),
{
    let payload = object_of_one("user_input", input_document(u));
    let message = object_of_two("type", JsonValue::String(string_of("TurnBegin")), "payload", payload);
    object_of_one("message", message)
}

/// A lookup in an object of two entries with different keys.
proof fn lemma_get_of_two(k1: Seq<char>, v1: Json, k2: Seq<char>, v2: Json)
    requires
        k1 != k2,
    ensures
        obj_get(seq![(k1, v1), (k2, v2)], k1) == Some(v1),
        obj_get(seq![(k1, v1), (k2, v2)], k2) == Some(v2),
{
    let m = seq![(k1, v1), (k2, v2)];
    lemma_first_key_unique(m, k1, 0);
    assert(is_first_key(m, k2, 1));
    lemma_first_key_unique(m, k2, 1);
}

/// A lookup in an object of one entry.
proof fn lemma_get_of_one(k: Seq<char>, v: Json)
    ensures
        obj_get(seq![(k, v)], k) == Some(v),
{
    lemma_first_key_unique(seq![(k, v)], k, 0);
}

/// Reading a content part back from its document gives that part.
proof fn lemma_part_reads_back(p: PartView)
    ensures
        part_of_doc(part_doc(p)) == Some(p),
{
    reveal_strlit("type");
    reveal_strlit("text");
    reveal_strlit("think");
    reveal_strlit("image_url");
    reveal_strlit("audio_url");
    reveal_strlit("video_url");
    reveal_strlit("url");
    assert("type"@[1] != "text"@[1]);
    assert("type"@.len() == 4 && "think"@.len() == 5 && "text"@.len() == 4 && "image_url"@.len() == 9);
    assert("image_url"@[0] != "audio_url"@[0] && "image_url"@[0] != "video_url"@[0] && "audio_url"@[0]
        != "video_url"@[0]);
    match p {
        PartView::Text(t) => lemma_get_of_two("type"@, Json::Str("text"@), "text"@, Json::Str(t)),
        PartView::Think(t) => lemma_get_of_two("type"@, Json::Str("think"@), "think"@, Json::Str(t)),
        PartView::ImageUrl(u) => {
            lemma_get_of_two("type"@, Json::Str("image_url"@), "image_url"@, url_doc(u));
            lemma_get_of_one("url"@, Json::Str(u));
        },
        PartView::AudioUrl(u) => {
            lemma_get_of_two("type"@, Json::Str("audio_url"@), "audio_url"@, url_doc(u));
            lemma_get_of_one("url"@, Json::Str(u));
        },
        PartView::VideoUrl(u) => {
            lemma_get_of_two("type"@, Json::Str("video_url"@), "video_url"@, url_doc(u));
            lemma_get_of_one("url"@, Json::Str(u));
        },
    }
}

/// Reading parts back from their documents gives those parts.
proof fn lemma_parts_read_back(ps: Seq<PartView>)
    ensures
        parts_of_docs(parts_docs(ps)) == ps,
    decreases ps.len(),
{
    if ps.len() > 0 {
        assert(parts_docs(ps).drop_last() =~= parts_docs(ps.drop_last()));
        lemma_parts_read_back(ps.drop_last());
        lemma_part_reads_back(ps.last());
        assert(ps.drop_last().push(ps.last()) =~= ps);
    } else {
        assert(parts_docs(ps) =~= Seq::<Json>::empty());
    }
}

/// The message stored for a user's input is a message: a context file that
/// holds it holds a message.
pub proof fn law_user_message_is_message(u: UserInput)
    ensures
        is_message_record(user_message_doc(u)),
{
    reveal_strlit("role");
    reveal_strlit("content");
    reveal_strlit("user");
    reveal_strlit("_usage");
    reveal_strlit("_checkpoint");
    assert("role"@.len() == 4 && "content"@.len() == 7);
    assert("user"@.len() == 4 && "_usage"@.len() == 6 && "_checkpoint"@.len() == 11);
    let content = match u {
        UserInput::Text(t) => seq![part_doc(PartView::Text(t@))],
        UserInput::Parts(ps) => parts_docs(parts_view(ps@)),
    };
    lemma_get_of_two("role"@, Json::Str("user"@), "content"@, Json::Array(content));
}

/// Reading back the wire record of the beginning of a turn gives that turn,
/// with the same input.
pub proof fn law_turn_record_reads_back(u: UserInput)
    ensures
        record_of_doc(turn_record_doc(u)) == Some(record_view(WireRecord::TurnBegin(u))),
{
    reveal_strlit("message");
    reveal_strlit("type");
    reveal_strlit("payload");
    reveal_strlit("user_input");
    reveal_strlit("TurnBegin");
    assert("type"@.len() == 4 && "payload"@.len() == 7);
    let payload = Json::Object(seq![("user_input"@, input_doc(u))]);
    let msg = Json::Object(seq![("type"@, Json::Str("TurnBegin"@)), ("payload"@, payload)]);
    lemma_get_of_one("message"@, msg);
    lemma_get_of_two("type"@, Json::Str("TurnBegin"@), "payload"@, payload);
    lemma_get_of_one("user_input"@, input_doc(u));
    match u {
        UserInput::Text(t) => {},
        UserInput::Parts(ps) => {
            lemma_parts_read_back(parts_view(ps@));
        },
    }
}

/// The input of the first turn that the records begin.
pub open spec fn first_turn_input(records: Seq<WireRecord>) -> Option<UserInput>
    decreases records.len(),
{
    if records.len() == 0 {
        None
    } else {
        match records[0] {
            WireRecord::TurnBegin(u) => Some(u),
            _ => first_turn_input(records.drop_first()),
        }
    }
}

/// A session's title: the shortened text of its first turn's input, or
/// `Untitled`, followed by its id in parentheses.
pub open spec fn session_title_of(id: Seq<char>, records: Seq<WireRecord>) -> Seq<char> {
    match first_turn_input(records) {
        Some(u) => shortened(input_text(u), 50) + " ("@ + id + ")"@,
        None => "Untitled ("@ + id + ")"@,
    }
}

/// The title of the session `id` with wire records `records`.
pub fn session_title(id: &str, records: &Vec<WireRecord>) -> (r: String)
    ensures
        r@ == session_title_of(id@, records@),
{
    let mut i: usize = 0;
    assert(records@.skip(0) =~= records@);
    while i < records.len()
        invariant
            i <= records.len(),
            first_turn_input(records@) == first_turn_input(records@.skip(i as int)),
        decreases records.len() - i,
    {
        assert(records@.skip(i as int)[0] == records@[i as int]);
        assert(records@.skip(i as int).drop_first() =~= records@.skip(i + 1));
        match &records[i] {
            WireRecord::TurnBegin(u) => {
                let text = user_input_to_text(u);
                let mut title = shorten_text(text.as_str(), 50);
                append_str(&mut title, " (");
                append_str(&mut title, id);
                append_str(&mut title, ")");
                return title;
            },
            _ => {},
        }
        i = i + 1;
    }
    let mut title = string_of("Untitled (");
    append_str(&mut title, id);
    append_str(&mut title, ")");
    title
}

/// A session of the agent in a working directory.
pub struct Session {
    pub id: String,
    /// The working directory.
    pub work_dir: String,
    /// The directory that holds the working directory's sessions.
    pub sessions_dir: String,
    pub context_file: String,
    pub wire_file: String,
    pub title: String,
    /// When the context file was last modified, in nanoseconds since the
    /// Unix epoch; 0 when that is not known.
    pub updated_at: u128,
}

impl Session {
    /// The session's directory.
    pub fn dir(&self) -> (r: String)
        ensures
            r@ == joined(self.sessions_dir@, self.id@),
    {
        join_path(self.sessions_dir.as_str(), self.id.as_str())
    }

    /// The session's wire file.
    pub fn wire_file(&self) -> (r: String)
        ensures
            r@ == self.wire_file@,
    {
        self.wire_file.clone()
    }
}

/// Where the files of session `id` stand under `sessions_dir`: its
/// directory, its context file and its wire file.
pub fn session_paths(sessions_dir: &str, id: &str) -> (r: (String, String, String))
    ensures
        r.0@ == joined(sessions_dir@, id@),
        r.1@ == joined(joined(sessions_dir@, id@), "context.jsonl"@),
        r.2@ == joined(joined(sessions_dir@, id@), "wire.jsonl"@),
{
    let dir = join_path(sessions_dir, id);
    let context = join_path(dir.as_str(), "context.jsonl");
    let wire = join_path(dir.as_str(), "wire.jsonl");
    (dir, context, wire)
}

/// The context file of session `id` in the older layout, directly in
/// `sessions_dir`, and where it belongs now, in the session's directory.
pub fn context_migration_paths(sessions_dir: &str, id: &str) -> (r: (String, String))
    ensures
        r.0@ == joined(sessions_dir@, id@ + ".jsonl"@),
        r.1@ == joined(joined(sessions_dir@, id@), "context.jsonl"@),
{
    let mut name = string_of(id);
    append_str(&mut name, ".jsonl");
    let old_file = join_path(sessions_dir, name.as_str());
    let dir = join_path(sessions_dir, id);
    (old_file, join_path(dir.as_str(), "context.jsonl"))
}

/// A context file of the older layout is moved when it exists and nothing is
/// in its new place yet.
pub fn context_migration_needed(old_exists: bool, new_exists: bool) -> (r: bool)
    ensures
        r == (old_exists && !new_exists),
{
    old_exists && !new_exists
}

/// A session is empty when its wire file is empty and its context file is
/// empty or cannot be read (its length unknown).
pub open spec fn empty_session(wire_is_empty: bool, context_len: Option<u64>) -> bool {
    wire_is_empty && match context_len {
        Some(n) => n == 0,
        None => true,
    }
}

/// Whether a session is empty (see `empty_session`).
pub fn session_is_empty(wire_is_empty: bool, context_len: Option<u64>) -> (r: bool)
    ensures
        r == empty_session(wire_is_empty, context_len),
{
    if !wire_is_empty {
        return false;
    }
    match context_len {
        Some(n) => n == 0,
        None => true,
    }
}

impl Session {
    /// Session `id` of `work_dir`, whose sessions are kept in
    /// `sessions_dir`, before it is refreshed: without a title and without
    /// a time of update.
    pub fn located(id: &str, work_dir: &str, sessions_dir: &str) -> (r: Session)
        ensures
            r.id@ == id@,
            r.work_dir@ == work_dir@,
            r.sessions_dir@ == sessions_dir@,
            r.context_file@ == joined(joined(sessions_dir@, id@), "context.jsonl"@),
            r.wire_file@ == joined(joined(sessions_dir@, id@), "wire.jsonl"@),
            r.title@ == Seq::<char>::empty(),
            r.updated_at == 0,
    {
        let (_dir, context_file, wire_file) = session_paths(sessions_dir, id);
        Session {
            id: string_of(id),
            work_dir: string_of(work_dir),
            sessions_dir: string_of(sessions_dir),
            context_file,
            wire_file,
            title: String::new(),
            updated_at: 0,
        }
    }

    /// Sets the title from the records of the wire file, and the time of
    /// update to when the context file was last modified (0 when unknown).
    pub fn refresh(&mut self, context_mtime: Option<u128>, records: &Vec<WireRecord>)
        ensures
            final(self).title@ == session_title_of(old(self).id@, records@),
            final(self).updated_at == match context_mtime {
                Some(t) => t,
                None => 0u128,
            },
            final(self).id == old(self).id,
            final(self).work_dir == old(self).work_dir,
            final(self).sessions_dir == old(self).sessions_dir,
            final(self).context_file == old(self).context_file,
            final(self).wire_file == old(self).wire_file,
    {
        self.updated_at = match context_mtime {
            Some(t) => t,
            None => 0,
        };
        self.title = session_title(self.id.as_str(), records);
    }
}

/// `s` runs from the most recently updated session to the least.
pub open spec fn newest_first(s: Seq<Session>) -> bool {
    forall|i: int, j: int| 0 <= i < j < s.len() ==> (#[trigger] s[i]).updated_at >= (#[trigger] s[j]).updated_at
}

/// The sessions, most recently updated first.
pub fn sort_sessions(sessions: Vec<Session>) -> (r: Vec<Session>)
    ensures
        newest_first(r@),
        r@.to_multiset() == sessions@.to_multiset(),
{
    let ghost orig = sessions@;
    let mut rest = sessions;
    let mut out: Vec<Session> = Vec::new();
    proof {
        broadcast use vstd::seq_lib::group_to_multiset_ensures;
        assert(out@.to_multiset() =~= vstd::multiset::Multiset::empty());
        assert(out@.to_multiset().add(rest@.to_multiset()) =~= orig.to_multiset());
    }
    while rest.len() > 0
        invariant
            newest_first(out@),
            out@.to_multiset().add(rest@.to_multiset()) == orig.to_multiset(),
        decreases rest.len(),
    {
        let ghost before_rest = rest@;
        let ghost before_out = out@;
        let x = rest.remove(0);
        let mut p: usize = 0;
        while p < out.len() && out[p].updated_at >= x.updated_at
            invariant
                p <= out.len(),
                out@ == before_out,
                forall|i: int| 0 <= i < p ==> (#[trigger] out@[i]).updated_at >= x.updated_at,
            decreases out.len() - p,
        {
            p = p + 1;
        }
        proof {
            assert forall|i: int| p <= i < out@.len() implies (#[trigger] out@[i]).updated_at < x.updated_at by {
                if i > p {
                    assert(out@[p as int].updated_at >= out@[i].updated_at);
                }
            }
        }
        out.insert(p, x);
        proof {
            broadcast use vstd::seq_lib::group_to_multiset_ensures;
            vstd::seq_lib::to_multiset_remove(before_rest, 0);
            vstd::seq_lib::to_multiset_insert(before_out, p as int, x);
            assert(out@ == before_out.insert(p as int, x));
            assert(before_rest.to_multiset() =~= rest@.to_multiset().insert(x));
            assert(out@.to_multiset().add(rest@.to_multiset()) =~= before_out.to_multiset().add(before_rest.to_multiset()));
            assert forall|i: int, j: int| 0 <= i < j < out@.len() implies (#[trigger] out@[i]).updated_at
                >= (#[trigger] out@[j]).updated_at by {
                if j < p {
                    assert(out@[i] == before_out[i] && out@[j] == before_out[j]);
                } else if j == p {
                    assert(out@[i] == before_out[i]);
                } else if i < p {
                    assert(out@[i] == before_out[i] && out@[j] == before_out[j - 1]);
                } else if i == p {
                    assert(out@[j] == before_out[j - 1]);
                } else {
                    assert(out@[i] == before_out[i - 1] && out@[j] == before_out[j - 1]);
                }
            }
        }
    }
    proof {
        broadcast use vstd::seq_lib::group_to_multiset_ensures;
        assert(rest@.to_multiset() =~= vstd::multiset::Multiset::empty());
        assert(out@.to_multiset().add(rest@.to_multiset()) =~= out@.to_multiset());
    }
    out
}

/// An entry of a sessions directory: its name, and whether it is a directory.
pub struct SessionDirEntry {
    pub name: String,
    pub is_dir: bool,
}

/// The session id that an entry of a sessions directory stands for: a
/// directory's name, or the stem of a `.jsonl` file (a context file of the
/// older layout).
pub open spec fn entry_session_id(name: Seq<char>, is_dir: bool) -> Option<Seq<char>> {
    if is_dir {
        Some(name)
    } else {
        match extension_dot(name) {
            Some(i) => if name.skip(i + 1) == "jsonl"@ {
                Some(name.take(i))
            } else {
                None
            },
            None => None,
        }
    }
}

/// The session ids that the entries stand for.
pub open spec fn entries_session_ids(entries: Seq<SessionDirEntry>) -> Set<Seq<char>> {
    Set::new(
        |id: Seq<char>|
            exists|i: int|
                0 <= i < entries.len() && entry_session_id(entries[i].name@, entries[i].is_dir)
                    == Some(id),
    )
}

/// The session id that a directory entry stands for, if any.
pub fn entry_session_id_of(entry: &SessionDirEntry) -> (r: Option<String>)
    ensures
        match r {
            Some(id) => entry_session_id(entry.name@, entry.is_dir) == Some(id@),
            None => entry_session_id(entry.name@, entry.is_dir) is None,
        },
{
    if entry.is_dir {
        return Some(entry.name.clone());
    }
    match split_extension(entry.name.as_str()) {
        Some((stem, ext)) => {
            if str_equal(ext.as_str(), "jsonl") {
                Some(stem)
            } else {
                None
            }
        },
        None => None,
    }
}

proof fn lemma_entries_ids_step(entries: Seq<SessionDirEntry>, i: int)
    requires
        0 <= i < entries.len(),
    ensures
        entries_session_ids(entries.take(i + 1)) == match entry_session_id(
            entries[i].name@,
            entries[i].is_dir,
        ) {
            Some(x) => entries_session_ids(entries.take(i)).insert(x),
            None => entries_session_ids(entries.take(i)),
        },
{
    let a = entries.take(i);
    let b = entries.take(i + 1);
    assert forall|e: int| 0 <= e < i implies #[trigger] b[e] == a[e] by {}
    let target = match entry_session_id(entries[i].name@, entries[i].is_dir) {
        Some(x) => entries_session_ids(a).insert(x),
        None => entries_session_ids(a),
    };
    assert forall|x: Seq<char>| entries_session_ids(b).contains(x) implies target.contains(x) by {
        let e = choose|e: int| 0 <= e < b.len() && entry_session_id(b[e].name@, b[e].is_dir) == Some(x);
        if e < i {
            assert(entry_session_id(a[e].name@, a[e].is_dir) == Some(x));
        }
    }
    assert forall|x: Seq<char>| target.contains(x) implies entries_session_ids(b).contains(x) by {
        if entries_session_ids(a).contains(x) {
            let e = choose|e: int| 0 <= e < a.len() && entry_session_id(a[e].name@, a[e].is_dir) == Some(x);
            assert(entry_session_id(b[e].name@, b[e].is_dir) == Some(x));
        } else {
            assert(entry_session_id(b[i].name@, b[i].is_dir) == Some(x));
        }
    }
    assert(entries_session_ids(b) =~= target);
}

/// The distinct session ids that the entries of a sessions directory stand
/// for, in the order they first appear.
pub fn session_ids_from_entries(entries: &Vec<SessionDirEntry>) -> (r: Vec<String>)
    ensures
        forall|i: int, j: int| 0 <= i < j < r@.len() ==> (#[trigger] r@[i])@ != (#[trigger] r@[j])@,
        strs_view(r@).to_set() == entries_session_ids(entries@),
{
    let mut ids: Vec<String> = Vec::new();
    let mut i: usize = 0;
    assert(strs_view(ids@).to_set() =~= entries_session_ids(entries@.take(0))) by {
        assert(strs_view(ids@) =~= Seq::<Seq<char>>::empty());
    }
    while i < entries.len()
        invariant
            i <= entries.len(),
            forall|a: int, b: int| 0 <= a < b < ids@.len() ==> (#[trigger] ids@[a])@ != (#[trigger] ids@[b])@,
            strs_view(ids@).to_set() == entries_session_ids(entries@.take(i as int)),
        decreases entries.len() - i,
    {
        proof {
            lemma_entries_ids_step(entries@, i as int);
        }
        let ghost old_view = strs_view(ids@);
        match entry_session_id_of(&entries[i]) {
            Some(id) => {
                let mut seen = false;
                let mut k: usize = 0;
                while k < ids.len()
                    invariant
                        k <= ids.len(),
                        old_view == strs_view(ids@),
                        seen <==> exists|a: int| 0 <= a < k && old_view[a] == id@,
                    decreases ids.len() - k,
                {
                    assert(old_view[k as int] == ids@[k as int]@);
                    if str_equal(ids[k].as_str(), id.as_str()) {
                        seen = true;
                    }
                    k = k + 1;
                }
                if seen {
                    assert(old_view.to_set().insert(id@) =~= old_view.to_set()) by {
                        let a = choose|a: int| 0 <= a < k && old_view[a] == id@;
                        assert(old_view.to_set().contains(old_view[a]));
                    }
                } else {
                    ids.push(id);
                    assert(strs_view(ids@) =~= old_view.push(id@));
                    assert(strs_view(ids@).to_set() =~= old_view.to_set().insert(id@)) by {
                        Seq::lemma_to_set_insert_commutes(old_view, id@);
                        assert(old_view + seq![id@] =~= old_view.push(id@));
                    }
                    assert forall|a: int, b: int| 0 <= a < b < ids@.len() implies (#[trigger] ids@[a])@ != (#[trigger] ids@[b])@ by {
                        if b == ids@.len() - 1 {
                            assert(old_view[a] == ids@[a]@);
                        }
                    }
                }
            },
            None => {},
        }
        i = i + 1;
    }
    assert(entries@.take(entries@.len() as int) =~= entries@);
    ids
}

/// A line of a context file: blank, not JSON, or a JSON record.
pub enum ContextLine {
    Blank,
    Unparsable,
    Record(JsonValue),
}

/// A context file holds a line that is not JSON.
#[derive(Debug, PartialEq, Eq, Structural)]
pub struct ContextParseError;

/// Whether a record of a context file is a message: anything but an object
/// whose `role` is `_usage` or `_checkpoint`.
pub open spec fn is_message_record(v: Json) -> bool {
    match v {
        Json::Object(m) => match obj_get(m, "role"@) {
            Some(Json::Str(r)) => r != "_usage"@ && r != "_checkpoint"@,
            _ => true,
        },
        _ => true,
    }
}

/// Whether a context file with the lines `lines` holds a message: decided by
/// its first line that is neither blank nor a usage or checkpoint record;
/// `None` when that line, or one before it, is not JSON.
pub open spec fn lines_have_messages(lines: Seq<ContextLine>) -> Option<bool>
    decreases lines.len(),
{
    if lines.len() == 0 {
        Some(false)
    } else {
        match lines[0] {
            ContextLine::Blank => lines_have_messages(lines.drop_first()),
            ContextLine::Unparsable => None,
            ContextLine::Record(v) => if is_message_record(v@) {
                Some(true)
            } else {
                lines_have_messages(lines.drop_first())
            },
        }
    }
}

/// Whether a record of a context file is a message.
pub fn is_message(v: &JsonValue) -> (r: bool)
    ensures
        r == is_message_record(v@),
{
    match v {
        JsonValue::Object(m) => {
            proof {
                lemma_object_view(*m);
            }
            match get_value(m, "role") {
                Some(JsonValue::String(r)) => !str_equal(r.as_str(), "_usage") && !str_equal(
                    r.as_str(),
                    "_checkpoint",
                ),
                _ => true,
            }
        },
        _ => true,
    }
}

/// Whether a context file with the lines `lines` holds a message.
pub fn context_lines_have_messages(lines: &Vec<ContextLine>) -> (r: Result<bool, ContextParseError>)
    ensures
        match r {
            Ok(b) => lines_have_messages(lines@) == Some(b),
            Err(_) => lines_have_messages(lines@) is None,
        },
{
    let mut i: usize = 0;
    assert(lines@.skip(0) =~= lines@);
    while i < lines.len()
        invariant
            i <= lines.len(),
            lines_have_messages(lines@) == lines_have_messages(lines@.skip(i as int)),
        decreases lines.len() - i,
    {
        assert(lines@.skip(i as int)[0] == lines@[i as int]);
        assert(lines@.skip(i as int).drop_first() =~= lines@.skip(i + 1));
        match &lines[i] {
            ContextLine::Blank => {},
            ContextLine::Unparsable => {
                return Err(ContextParseError);
            },
            ContextLine::Record(v) => {
                if is_message(v) {
                    return Ok(true);
                }
            },
        }
        i = i + 1;
    }
    Ok(false)
}

/// Whether a context file whose lines are `lines` holds a message: decided
/// by its first line that is neither blank nor, read by serde_json once
/// trimmed, a usage or checkpoint record; `None` when that line, or one
/// before it, is not JSON.
pub open spec fn text_lines_have_messages(lines: Seq<Seq<char>>) -> Option<bool>
    decreases lines.len(),
{
    if lines.len() == 0 {
        Some(false)
    } else if trimmed(lines[0]).len() == 0 {
        text_lines_have_messages(lines.drop_first())
    } else {
        match json_parse(trimmed(lines[0])) {
            Err(_) => None,
            Ok(v) => if is_message_record(v) {
                Some(true)
            } else {
                text_lines_have_messages(lines.drop_first())
            },
        }
    }
}

/// Whether the context file whose text is `content` holds a message (see
/// `text_lines_have_messages`); an error when a line that decides is not
/// JSON.
pub fn context_has_messages(content: &str) -> (r: Result<bool, ContextParseError>)
    ensures
        match r {
            Ok(b) => text_lines_have_messages(split_on(content@, '\n')) == Some(b),
            Err(_) => text_lines_have_messages(split_on(content@, '\n')) is None,
        },
{
    let cs = str_chars(content);
    let lines = split_chars(&cs, '\n');
    let ghost lv = strs_view(lines@);
    let mut i: usize = 0;
    assert(lv.skip(0) =~= lv);
    while i < lines.len()
        invariant
            i <= lines.len(),
            lv == strs_view(lines@),
            lv == split_on(content@, '\n'),
            text_lines_have_messages(lv) == text_lines_have_messages(lv.skip(i as int)),
        decreases lines.len() - i,
    {
        assert(lv.skip(i as int)[0] == lines@[i as int]@);
        assert(lv.skip(i as int).drop_first() =~= lv.skip(i + 1));
        let lc = str_chars(lines[i].as_str());
        let line = trim_prefix_to_string(&lc, lc.len());
        assert(lc@.take(lc.len() as int) =~= lines@[i as int]@);
        if !line.as_str().is_empty() {
            match parse_json_text(line.as_str()) {
                Err(_) => {
                    return Err(ContextParseError);
                },
                Ok(v) => {
                    if is_message(&v) {
                        return Ok(true);
                    }
                },
            }
        }
        i = i + 1;
    }
    Ok(false)
}

/// The line to append to a JSON-lines file whose last byte is `last_byte`: a
/// newline first when the file does not end with one, then `line` and a
/// newline.
pub open spec fn jsonl_append_text(last_byte: Option<u8>, line: Seq<char>) -> Seq<char> {
    (if last_byte matches Some(b) && b != 10 {
        "\n"@
    } else {
        Seq::empty()
    }) + line + "\n"@
}

/// `last_byte` is the last byte of a file whose text is `content`: none for
/// an empty file, and a newline exactly when the text ends with one.
pub open spec fn last_byte_of(content: Seq<char>, last_byte: Option<u8>) -> bool {
    &&& (content.len() == 0 <==> last_byte is None)
    &&& (content.len() > 0 ==> (last_byte == Some(10u8) <==> content.last() == '\n'))
}

/// Whether the lines `x` then `y` hold a message: `x` decides unless it
/// holds none.
proof fn lemma_lines_have_messages_concat(x: Seq<Seq<char>>, y: Seq<Seq<char>>)
    ensures
        text_lines_have_messages(x + y) == if text_lines_have_messages(x) == Some(false) {
            text_lines_have_messages(y)
        } else {
            text_lines_have_messages(x)
        },
    decreases x.len(),
{
    if x.len() == 0 {
        assert(x + y =~= y);
    } else {
        assert((x + y)[0] == x[0]);
        assert((x + y).drop_first() =~= x.drop_first() + y);
        lemma_lines_have_messages_concat(x.drop_first(), y);
    }
}

/// The lines of a JSON-lines file after `line` is appended: those before,
/// then `line`, then the empty piece after the final newline.
proof fn lemma_appended_lines(content: Seq<char>, last_byte: Option<u8>, line: Seq<char>)
    requires
        last_byte_of(content, last_byte),
        !line.contains('\n'),
    ensures
        last_byte is None ==> split_on(content + jsonl_append_text(last_byte, line), '\n') == seq![
            line,
            Seq::<char>::empty(),
        ],
        last_byte == Some(10u8) ==> split_on(content, '\n') == split_on(content.drop_last(), '\n') + seq![
            Seq::<char>::empty(),
        ] && split_on(content + jsonl_append_text(last_byte, line), '\n') == split_on(
            content.drop_last(),
            '\n',
        ) + seq![line, Seq::<char>::empty()],
        last_byte matches Some(b) && b != 10 ==> split_on(content + jsonl_append_text(last_byte, line), '\n')
            == split_on(content, '\n') + seq![line, Seq::<char>::empty()],
{
    reveal_strlit("\n");
    assert("\n"@ =~= seq!['\n']);
    let e = Seq::<char>::empty();
    lemma_split_single(line, '\n');
    lemma_split_single(e, '\n');
    lemma_split_joined(line, e, '\n');
    assert(split_on(line + seq!['\n'] + e, '\n') =~= seq![line, e]);
    let whole = content + jsonl_append_text(last_byte, line);
    match last_byte {
        None => {
            assert(whole =~= line + seq!['\n'] + e);
        },
        Some(b) => if b == 10 {
            let c0 = content.drop_last();
            assert(content =~= c0 + seq!['\n'] + e);
            lemma_split_joined(c0, e, '\n');
            assert(whole =~= c0 + seq!['\n'] + (line + seq!['\n'] + e));
            lemma_split_joined(c0, line + seq!['\n'] + e, '\n');
        } else {
            assert(whole =~= content + seq!['\n'] + (line + seq!['\n'] + e));
            lemma_split_joined(content, line + seq!['\n'] + e, '\n');
        },
    }
}

/// Appending a line that serde_json reads as a message to a context file that
/// holds none makes the file hold one: a second write of an interrupted turn
/// finds the message and adds nothing to the context file.
pub proof fn law_appended_message_is_found(content: Seq<char>, last_byte: Option<u8>, line: Seq<char>)
    requires
        text_lines_have_messages(split_on(content, '\n')) == Some(false),
        last_byte_of(content, last_byte),
        !line.contains('\n'),
        trimmed(line).len() > 0,
        json_parse(trimmed(line)) matches Ok(v) && is_message_record(v),
    ensures
        text_lines_have_messages(split_on(content + jsonl_append_text(last_byte, line), '\n')) == Some(true),
{
    lemma_appended_lines(content, last_byte, line);
    let tail = seq![line, Seq::<char>::empty()];
    assert(tail.drop_first() =~= seq![Seq::<char>::empty()]);
    assert(text_lines_have_messages(tail) == Some(true));
    match last_byte {
        None => {},
        Some(b) => if b == 10 {
            let x = split_on(content.drop_last(), '\n');
            lemma_lines_have_messages_concat(x, seq![Seq::<char>::empty()]);
            assert(seq![Seq::<char>::empty()].drop_first() =~= Seq::<Seq<char>>::empty());
            lemma_lines_have_messages_concat(x, tail);
        } else {
            lemma_lines_have_messages_concat(split_on(content, '\n'), tail);
        },
    }
}

/// Appending a line that reads as a wire record to a wire file leaves the
/// file with a record: a second write of an interrupted turn finds the wire
/// file not empty and adds nothing to it.
pub proof fn law_appended_record_is_found(content: Seq<char>, last_byte: Option<u8>, line: Seq<char>)
    requires
        last_byte_of(content, last_byte),
        !line.contains('\n'),
        trimmed(line).len() > 0,
        record_of_line(trimmed(line)) is Some,
    ensures
        records_of_lines(split_on(content + jsonl_append_text(last_byte, line), '\n')).len() > 0,
{
    lemma_appended_lines(content, last_byte, line);
    let e = Seq::<char>::empty();
    let y: Seq<Seq<char>> = match last_byte {
        None => Seq::empty(),
        Some(b) => if b == 10 {
            split_on(content.drop_last(), '\n')
        } else {
            split_on(content, '\n')
        },
    };
    let all = split_on(content + jsonl_append_text(last_byte, line), '\n');
    assert(all =~= y + seq![line, e]);
    assert(all.drop_last() =~= y + seq![line]);
    assert((y + seq![line]).drop_last() =~= y);
    assert(trimmed(e).len() == 0);
    assert(records_of_lines(all) == records_of_lines(y + seq![line]));
}

/// The text to append to a JSON-lines file (see `jsonl_append_text`).
pub fn jsonl_append(last_byte: Option<u8>, line: &str) -> (r: String)
    ensures
        r@ == jsonl_append_text(last_byte, line@),
{
    let mut out = String::new();
    match last_byte {
        Some(b) => {
            if b != 10 {
                append_str(&mut out, "\n");
            }
        },
        None => {},
    }
    append_str(&mut out, line);
    append_str(&mut out, "\n");
    assert(Seq::<char>::empty() + line@ =~= line@);
    out
}

/// `m` without the entry `k` when it holds `null`.
pub open spec fn without_null(m: Seq<(Seq<char>, Json)>, k: Seq<char>) -> Seq<(Seq<char>, Json)> {
    if obj_get(m, k) == Some(Json::Null) {
        obj_remove(m, k)
    } else {
        m
    }
}

/// A tool call of a stored message without its `null` `extras` and its
/// function's `null` `arguments`.
pub open spec fn stripped_call(c: Json) -> Json {
    match c {
        Json::Object(cm) => {
            let c1 = without_null(cm, "extras"@);
            match obj_get(c1, "function"@) {
                Some(Json::Object(f)) => Json::Object(
                    obj_insert(c1, "function"@, Json::Object(without_null(f, "arguments"@))),
                ),
                _ => Json::Object(c1),
            }
        },
        _ => c,
    }
}

/// A stored message without the `null` values that its optional fields hold:
/// `name`, `tool_calls`, `tool_call_id` and `partial`, and within each tool
/// call `extras` and the function's `arguments`.
pub open spec fn stripped_message(v: Json) -> Json {
    match v {
        Json::Object(m) => {
            let m1 = without_null(
                without_null(without_null(without_null(m, "name"@), "tool_calls"@), "tool_call_id"@),
                "partial"@,
            );
            match obj_get(m1, "tool_calls"@) {
                Some(Json::Array(calls)) => Json::Object(
                    obj_insert(
                        m1,
                        "tool_calls"@,
                        Json::Array(Seq::new(calls.len(), |i: int| stripped_call(calls[i]))),
                    ),
                ),
                _ => Json::Object(m1),
            }
        },
        _ => v,
    }
}

/// The objects that stripping looks into hold each key once: the tool call
/// and its function.
pub open spec fn call_keys_distinct(c: Json) -> bool {
    match c {
        Json::Object(cm) => keys_distinct(cm) && match obj_get(cm, "function"@) {
            Some(Json::Object(f)) => keys_distinct(f),
            _ => true,
        },
        _ => true,
    }
}

/// The objects that stripping looks into hold each key once: the message,
/// each of its tool calls, and each call's function (as in every object that
/// serde_json reads).
pub open spec fn message_keys_distinct(v: Json) -> bool {
    match v {
        Json::Object(m) => keys_distinct(m) && match obj_get(m, "tool_calls"@) {
            Some(Json::Array(calls)) => forall|i: int| 0 <= i < calls.len() ==> #[trigger] call_keys_distinct(calls[i]),
            _ => true,
        },
        _ => true,
    }
}

/// What a lookup gives after dropping a `null` entry, where no key occurs
/// twice; dropping it keeps keys distinct.
proof fn lemma_without_null_get(m: Seq<(Seq<char>, Json)>, k: Seq<char>, k2: Seq<char>)
    requires
        keys_distinct(m),
    ensures
        keys_distinct(without_null(m, k)),
        obj_get(without_null(m, k), k2) == (if k2 == k && obj_get(m, k) == Some(Json::Null) {
            None
        } else {
            obj_get(m, k2)
        }),
{
    lemma_remove_get(m, k, k2);
}

/// Stripping a tool call twice strips it once.
proof fn lemma_stripped_call_idempotent(c: Json)
    requires
        call_keys_distinct(c),
    ensures
        stripped_call(stripped_call(c)) == stripped_call(c),
{
    reveal_strlit("extras");
    reveal_strlit("function");
    reveal_strlit("arguments");
    assert("extras"@.len() == 6 && "function"@.len() == 8 && "arguments"@.len() == 9);
    match c {
        Json::Object(cm) => {
            let c1 = without_null(cm, "extras"@);
            lemma_without_null_get(cm, "extras"@, "extras"@);
            lemma_without_null_get(cm, "extras"@, "function"@);
            match obj_get(c1, "function"@) {
                Some(Json::Object(f)) => {
                    let f1 = without_null(f, "arguments"@);
                    lemma_without_null_get(f, "arguments"@, "arguments"@);
                    let c2 = obj_insert(c1, "function"@, Json::Object(f1));
                    lemma_insert_get(c1, "function"@, Json::Object(f1), "extras"@);
                    lemma_insert_get(c1, "function"@, Json::Object(f1), "function"@);
                    assert(without_null(c2, "extras"@) == c2);
                    assert(without_null(f1, "arguments"@) == f1);
                    lemma_insert_same(c2, "function"@, Json::Object(f1));
                },
                _ => {
                    assert(without_null(c1, "extras"@) == c1);
                },
            }
        },
        _ => {},
    }
}

/// Stripping a stored message a second time changes nothing.
pub proof fn law_strip_idempotent(v: Json)
    requires
        message_keys_distinct(v),
    ensures
        stripped_message(stripped_message(v)) == stripped_message(v),
{
    reveal_strlit("name");
    reveal_strlit("tool_calls");
    reveal_strlit("tool_call_id");
    reveal_strlit("partial");
    assert("name"@.len() == 4 && "tool_calls"@.len() == 10 && "tool_call_id"@.len() == 12 && "partial"@.len() == 7);
    match v {
        Json::Object(m) => {
            let a = without_null(m, "name"@);
            let b = without_null(a, "tool_calls"@);
            let c = without_null(b, "tool_call_id"@);
            let m1 = without_null(c, "partial"@);
            assert forall|k: Seq<char>|
                k == "name"@ || k == "tool_calls"@ || k == "tool_call_id"@ || k == "partial"@ implies obj_get(m1, k)
                != Some(Json::Null) by {
                lemma_without_null_get(m, "name"@, k);
                lemma_without_null_get(a, "tool_calls"@, k);
                lemma_without_null_get(b, "tool_call_id"@, k);
                lemma_without_null_get(c, "partial"@, k);
            }
            lemma_without_null_get(m, "name"@, "tool_calls"@);
            lemma_without_null_get(a, "tool_calls"@, "tool_calls"@);
            lemma_without_null_get(b, "tool_call_id"@, "tool_calls"@);
            lemma_without_null_get(c, "partial"@, "tool_calls"@);
            match obj_get(m1, "tool_calls"@) {
                Some(Json::Array(calls)) => {
                    let sc = Seq::new(calls.len(), |i: int| stripped_call(calls[i]));
                    let r = obj_insert(m1, "tool_calls"@, Json::Array(sc));
                    assert forall|k: Seq<char>|
                        k == "name"@ || k == "tool_calls"@ || k == "tool_call_id"@ || k == "partial"@ implies obj_get(r, k)
                        != Some(Json::Null) by {
                        lemma_insert_get(m1, "tool_calls"@, Json::Array(sc), k);
                    }
                    lemma_insert_get(m1, "tool_calls"@, Json::Array(sc), "tool_calls"@);
                    assert(without_null(r, "name"@) == r);
                    assert(without_null(r, "tool_calls"@) == r);
                    assert(without_null(r, "tool_call_id"@) == r);
                    assert(without_null(r, "partial"@) == r);
                    assert forall|i: int| 0 <= i < sc.len() implies #[trigger] stripped_call(sc[i]) == sc[i] by {
                        assert(call_keys_distinct(calls[i]));
                        lemma_stripped_call_idempotent(calls[i]);
                    }
                    assert(Seq::new(sc.len(), |i: int| stripped_call(sc[i])) =~= sc);
                    lemma_insert_same(r, "tool_calls"@, Json::Array(sc));
                },
                _ => {
                    assert(without_null(m1, "name"@) == m1);
                    assert(without_null(m1, "tool_calls"@) == m1);
                    assert(without_null(m1, "tool_call_id"@) == m1);
                    assert(without_null(m1, "partial"@) == m1);
                },
            }
        },
        _ => {},
    }
}

/// Removes the entry `k` of `m` when it holds `null`.
fn remove_null(m: &mut Vec<(String, JsonValue)>, k: &str)
    ensures
        entries_view(final(m)@) == without_null(entries_view(old(m)@), k@),
{
    let is_null = match get_value(m, k) {
        Some(JsonValue::Null) => true,
        _ => false,
    };
    if is_null {
        remove_value(m, k);
    }
}

/// A tool call without its `null` fields.
fn strip_call(c: &JsonValue) -> (r: JsonValue)
    ensures
        r@ == stripped_call(c@),
{
    match c {
        JsonValue::Object(cm) => {
            proof {
                lemma_object_view(*cm);
            }
            let mut c1 = crate::json::duplicate_entries(cm);
            remove_null(&mut c1, "extras");
            let f2 = match get_value(&c1, "function") {
                Some(JsonValue::Object(f)) => {
                    proof {
                        lemma_object_view(*f);
                    }
                    let mut f1 = crate::json::duplicate_entries(f);
                    remove_null(&mut f1, "arguments");
                    proof {
                        lemma_object_view(f1);
                    }
                    Some(JsonValue::Object(f1))
                },
                _ => None,
            };
            match f2 {
                Some(fv) => {
                    crate::json::insert_value(&mut c1, "function", fv);
                },
                None => {},
            }
            proof {
                lemma_object_view(c1);
            }
            JsonValue::Object(c1)
        },
        _ => c.duplicate(),
    }
}

/// Removes from a stored message the `null` values of its optional fields
/// (see `stripped_message`).
pub fn strip_message_nulls(value: &mut JsonValue)
    ensures
        final(value)@ == stripped_message(old(value)@),
{
    let result = match &*value {
        JsonValue::Object(m) => {
            proof {
                lemma_object_view(*m);
            }
            let mut m1 = crate::json::duplicate_entries(m);
            remove_null(&mut m1, "name");
            remove_null(&mut m1, "tool_calls");
            remove_null(&mut m1, "tool_call_id");
            remove_null(&mut m1, "partial");
            let calls2 = match get_value(&m1, "tool_calls") {
                Some(JsonValue::Array(calls)) => {
                    proof {
                        lemma_array_view(*calls);
                    }
                    let mut out: Vec<JsonValue> = Vec::new();
                    let mut i: usize = 0;
                    while i < calls.len()
                        invariant
                            i <= calls.len(),
                            out@.len() == i,
                            forall|j: int| 0 <= j < i ==> (#[trigger] out@[j])@ == stripped_call(calls@[j]@),
                        decreases calls.len() - i,
                    {
                        out.push(strip_call(&calls[i]));
                        i = i + 1;
                    }
                    proof {
                        lemma_array_view(out);
                        let cs = items_view(calls@);
                        assert(items_view(out@) =~= Seq::new(cs.len(), |i: int| stripped_call(cs[i])));
                    }
                    Some(JsonValue::Array(out))
                },
                _ => None,
            };
            match calls2 {
                Some(cv) => {
                    let ghost before = entries_view(m1@);
                    crate::json::insert_value(&mut m1, "tool_calls", cv);

                },
                None => {},
            }
            proof {
                lemma_object_view(m1);
            }
            JsonValue::Object(m1)
        },
        other => other.duplicate(),
    };
    *value = result;
}

/// The key literals of the documents that this module writes, told apart.
proof fn lemma_doc_keys_differ()
    ensures
        "type"@ != "text"@,
        "type"@ != "think"@,
        "type"@ != "image_url"@,
        "type"@ != "audio_url"@,
        "type"@ != "video_url"@,
        "role"@ != "content"@,
        "type"@ != "payload"@,
{
    reveal_strlit("type");
    reveal_strlit("text");
    reveal_strlit("think");
    reveal_strlit("image_url");
    reveal_strlit("audio_url");
    reveal_strlit("video_url");
    reveal_strlit("role");
    reveal_strlit("content");
    reveal_strlit("payload");
    assert("type"@[1] != "text"@[1]);
    assert("role"@.len() == 4 && "content"@.len() == 7 && "payload"@.len() == 7 && "think"@.len() == 5);
    assert("image_url"@.len() == 9 && "audio_url"@.len() == 9 && "video_url"@.len() == 9);
}

/// An object of one string entry, or of two entries under different keys
/// whose values have the given properties, has them too.
proof fn lemma_object_of_two_plain(k1: Seq<char>, v1: Json, k2: Seq<char>, v2: Json, d: nat)
    requires
        k1 != k2,
        d > 0,
        float_free(v1) && plain_data(v1) && nested_within(v1, (d - 1) as nat),
        float_free(v2) && plain_data(v2) && nested_within(v2, (d - 1) as nat),
    ensures
        float_free(Json::Object(seq![(k1, v1), (k2, v2)])),
        plain_data(Json::Object(seq![(k1, v1), (k2, v2)])),
        nested_within(Json::Object(seq![(k1, v1), (k2, v2)]), d),
{
    let m = seq![(k1, v1), (k2, v2)];
    lemma_entries_float_free(m);
    lemma_entries_plain(m);
    assert(forall|i: int| 0 <= i < m.len() ==> #[trigger] float_free(m[i].1));
    assert(forall|i: int| 0 <= i < m.len() ==> #[trigger] plain_data(m[i].1));
    assert(forall|i: int| 0 <= i < m.len() ==> nested_within(#[trigger] m[i].1, (d - 1) as nat));
}

proof fn lemma_object_of_one_plain(k: Seq<char>, v: Json, d: nat)
    requires
        d > 0,
        float_free(v) && plain_data(v) && nested_within(v, (d - 1) as nat),
    ensures
        float_free(Json::Object(seq![(k, v)])),
        plain_data(Json::Object(seq![(k, v)])),
        nested_within(Json::Object(seq![(k, v)]), d),
{
    let m = seq![(k, v)];
    lemma_entries_float_free(m);
    lemma_entries_plain(m);
    assert(forall|i: int| 0 <= i < m.len() ==> #[trigger] float_free(m[i].1));
    assert(forall|i: int| 0 <= i < m.len() ==> #[trigger] plain_data(m[i].1));
    assert(forall|i: int| 0 <= i < m.len() ==> nested_within(#[trigger] m[i].1, (d - 1) as nat));
}

/// The document of a content part is plain data, two levels deep.
proof fn lemma_part_doc_plain(p: PartView, d: nat)
    requires
        d >= 2,
    ensures
        float_free(part_doc(p)),
        plain_data(part_doc(p)),
        nested_within(part_doc(p), d),
{
    lemma_doc_keys_differ();
    match p {
        PartView::Text(t) => lemma_object_of_two_plain("type"@, Json::Str("text"@), "text"@, Json::Str(t), d),
        PartView::Think(t) => lemma_object_of_two_plain("type"@, Json::Str("think"@), "think"@, Json::Str(t), d),
        PartView::ImageUrl(u) => {
            lemma_object_of_one_plain("url"@, Json::Str(u), (d - 1) as nat);
            lemma_object_of_two_plain("type"@, Json::Str("image_url"@), "image_url"@, url_doc(u), d);
        },
        PartView::AudioUrl(u) => {
            lemma_object_of_one_plain("url"@, Json::Str(u), (d - 1) as nat);
            lemma_object_of_two_plain("type"@, Json::Str("audio_url"@), "audio_url"@, url_doc(u), d);
        },
        PartView::VideoUrl(u) => {
            lemma_object_of_one_plain("url"@, Json::Str(u), (d - 1) as nat);
            lemma_object_of_two_plain("type"@, Json::Str("video_url"@), "video_url"@, url_doc(u), d);
        },
    }
}

/// A list of part documents is plain data, three levels deep.
proof fn lemma_parts_docs_plain(a: Seq<Json>, d: nat)
    requires
        d >= 3,
        forall|i: int| 0 <= i < a.len() ==> exists|p: PartView| #[trigger] a[i] == part_doc(p),
    ensures
        float_free(Json::Array(a)),
        plain_data(Json::Array(a)),
        nested_within(Json::Array(a), d),
{
    assert forall|i: int| 0 <= i < a.len() implies float_free(#[trigger] a[i]) && plain_data(a[i]) && nested_within(
        a[i],
        (d - 1) as nat,
    ) by {
        let p = choose|p: PartView| a[i] == part_doc(p);
        lemma_part_doc_plain(p, (d - 1) as nat);
    }
    assert(forall|i: int| 0 <= i < a.len() ==> #[trigger] float_free(a[i]));
    assert(forall|i: int| 0 <= i < a.len() ==> #[trigger] plain_data(a[i]));
    assert(forall|i: int| 0 <= i < a.len() ==> nested_within(#[trigger] a[i], (d - 1) as nat));
    lemma_items_float_free(a);
    lemma_items_plain(a);
}

/// The message stored for a user's input, and the wire record of the turn
/// it begins, are plain data, nested a few levels.
proof fn lemma_turn_docs_plain(u: UserInput)
    ensures
        float_free(user_message_doc(u)),
        plain_data(user_message_doc(u)),
        nested_within(user_message_doc(u), 100),
        float_free(turn_record_doc(u)),
        plain_data(turn_record_doc(u)),
        nested_within(turn_record_doc(u), 100),
{
    lemma_doc_keys_differ();
    let content = match u {
        UserInput::Text(t) => seq![part_doc(PartView::Text(t@))],
        UserInput::Parts(ps) => parts_docs(parts_view(ps@)),
    };
    assert forall|i: int| 0 <= i < content.len() implies exists|p: PartView| #[trigger] content[i] == part_doc(p) by {
        match u {
            UserInput::Text(t) => {
                assert(content[i] == part_doc(PartView::Text(t@)));
            },
            UserInput::Parts(ps) => {
                assert(content[i] == part_doc(parts_view(ps@)[i]));
            },
        }
    }
    lemma_parts_docs_plain(content, 99);
    lemma_object_of_two_plain("role"@, Json::Str("user"@), "content"@, Json::Array(content), 100);
    let input = input_doc(u);
    match u {
        UserInput::Text(t) => {},
        UserInput::Parts(ps) => {
            let a = parts_docs(parts_view(ps@));
            assert forall|i: int| 0 <= i < a.len() implies exists|p: PartView| #[trigger] a[i] == part_doc(p) by {
                assert(a[i] == part_doc(parts_view(ps@)[i]));
            }
            lemma_parts_docs_plain(a, 97);
        },
    }
    lemma_object_of_one_plain("user_input"@, input, 98);
    let payload = Json::Object(seq![("user_input"@, input)]);
    lemma_object_of_two_plain("type"@, Json::Str("TurnBegin"@), "payload"@, payload, 99);
    let msg = Json::Object(seq![("type"@, Json::Str("TurnBegin"@)), ("payload"@, payload)]);
    lemma_object_of_one_plain("message"@, msg, 100);
}

/// The message stored for a user's input holds none of the fields that
/// stripping drops: stripping leaves it as it is.
proof fn lemma_user_message_unstripped(u: UserInput)
    ensures
        stripped_message(user_message_doc(u)) == user_message_doc(u),
{
    reveal_strlit("name");
    reveal_strlit("tool_calls");
    reveal_strlit("tool_call_id");
    reveal_strlit("partial");
    reveal_strlit("role");
    reveal_strlit("content");
    assert("name"@.len() == 4 && "tool_calls"@.len() == 10 && "tool_call_id"@.len() == 12 && "partial"@.len() == 7);
    assert("role"@.len() == 4 && "content"@.len() == 7);
    assert("name"@[0] != "role"@[0] && "partial"@[0] != "content"@[0]);
    let m = user_message_doc(u)->Object_0;
    assert(m.len() == 2 && m[0].0 == "role"@ && m[1].0 == "content"@);
    assert forall|k: Seq<char>|
        k == "name"@ || k == "tool_calls"@ || k == "tool_call_id"@ || k == "partial"@ implies !crate::json::has_key(
        m,
        k,
    ) by {
        if crate::json::has_key(m, k) {
            let p = crate::json::key_pos(m, k);
            lemma_first_key_unique(m, k, p);
        }
    }
}

/// Matching documents, up to order, hold a message alike.
proof fn lemma_equiv_message_record(w: Json, v: Json)
    requires
        json_equiv(w, v),
        plain_data(v),
    ensures
        is_message_record(w) == is_message_record(v),
{
    lemma_equiv_member(w, v, "role"@);
    match v {
        Json::Object(n) => {
            let m = w->Object_0;
            assert(member(w, "role"@) == obj_get(m, "role"@));
        },
        Json::Array(_) => {},
        _ => {
            lemma_equiv_scalar(w, v);
        },
    }
}

/// Matching documents, up to order, stand for the same content part.
proof fn lemma_equiv_part(x: Json, y: Json)
    requires
        json_equiv(x, y),
        plain_data(y),
    ensures
        part_of_doc(x) == part_of_doc(y),
{
    lemma_equiv_member(x, y, "type"@);
    lemma_equiv_member(x, y, "text"@);
    lemma_equiv_member(x, y, "think"@);
    let ks = seq!["image_url"@, "audio_url"@, "video_url"@];
    assert forall|i: int| 0 <= i < 3 implies url_member(x, #[trigger] ks[i]) == url_member(y, ks[i]) by {
        lemma_equiv_member(x, y, ks[i]);
        if member(y, ks[i]) is Some {
            lemma_equiv_member(member(x, ks[i])->Some_0, member(y, ks[i])->Some_0, "url"@);
        }
    }
    assert(url_member(x, ks[0]) == url_member(y, ks[0]));
    assert(url_member(x, ks[1]) == url_member(y, ks[1]));
    assert(url_member(x, ks[2]) == url_member(y, ks[2]));
}

/// Lists whose items stand for the same parts, one by one, stand for the
/// same parts.
proof fn lemma_parts_of_docs_alike(x: Seq<Json>, y: Seq<Json>)
    requires
        x.len() == y.len(),
        forall|i: int| 0 <= i < x.len() ==> part_of_doc(#[trigger] x[i]) == part_of_doc(y[i]),
    ensures
        parts_of_docs(x) == parts_of_docs(y),
    decreases x.len(),
{
    if x.len() > 0 {
        lemma_parts_of_docs_alike(x.drop_last(), y.drop_last());
        assert(part_of_doc(x[x.len() - 1]) == part_of_doc(y[y.len() - 1]));
    }
}

/// Matching documents, up to order, stand for the same wire record.
proof fn lemma_equiv_record(w: Json, v: Json)
    requires
        json_equiv(w, v),
        plain_data(v),
    ensures
        record_of_doc(w) == record_of_doc(v),
{
    lemma_equiv_member(w, v, "message"@);
    if member(v, "message"@) is Some {
        let wm = member(w, "message"@)->Some_0;
        let vm = member(v, "message"@)->Some_0;
        lemma_equiv_member(wm, vm, "type"@);
        lemma_equiv_member(wm, vm, "payload"@);
        if member(vm, "payload"@) is Some {
            let wp = member(wm, "payload"@)->Some_0;
            let vp = member(vm, "payload"@)->Some_0;
            lemma_equiv_member(wp, vp, "user_input"@);
            if member(vp, "user_input"@) is Some {
                let wi = member(wp, "user_input"@)->Some_0;
                let vi = member(vp, "user_input"@)->Some_0;
                match vi {
                    Json::Array(b) => {
                        let a = wi->Array_0;
                        lemma_items_plain(b);
                        assert forall|i: int| 0 <= i < a.len() implies part_of_doc(#[trigger] a[i]) == part_of_doc(
                            b[i],
                        ) by {
                            lemma_items_equiv_at(a, b, i);
                            lemma_equiv_part(a[i], b[i]);
                        }
                        if a.len() > 0 {
                            lemma_items_equiv_at(a, b, 0);
                        }
                        lemma_parts_of_docs_alike(a, b);
                    },
                    Json::Object(_) => {},
                    _ => {
                        lemma_equiv_scalar(wi, vi);
                    },
                }
            }
        }
    }
}

/// The two lines that keep a turn interrupted before anything was stored:
/// the user's message for the context file, without its `null` fields, and
/// the record of the turn's beginning for the wire file, each as serde_json
/// writes it: one line each. The message line reads back as the message (up
/// to the order of its keys), and the record line as the beginning of a turn
/// with the same input; so once they are
/// appended, the context file holds a message and the wire file a record,
/// and a second interrupted turn adds nothing to either.
pub fn interrupted_turn_lines(u: &UserInput) -> (r: (String, String))
    ensures
        r.0@ == json_text(stripped_message(user_message_doc(*u))),
        r.1@ == json_text(turn_record_doc(*u)),
        !r.0@.contains('\n') && r.0@.len() > 0 && trimmed(r.0@) == r.0@,
        !r.1@.contains('\n') && r.1@.len() > 0 && trimmed(r.1@) == r.1@,
        json_parse(r.0@) matches Ok(v) && json_equiv(v, user_message_doc(*u)) && is_message_record(v),
        record_of_line(r.1@) == Some(record_view(WireRecord::TurnBegin(*u))),
        forall|content: Seq<char>, last_byte: Option<u8>|
            #![trigger last_byte_of(content, last_byte)]
            last_byte_of(content, last_byte) && text_lines_have_messages(split_on(content, '\n')) == Some(false)
                ==> text_lines_have_messages(split_on(content + jsonl_append_text(last_byte, r.0@), '\n')) == Some(true),
        forall|content: Seq<char>, last_byte: Option<u8>|
            #![trigger last_byte_of(content, last_byte)]
            last_byte_of(content, last_byte) ==> records_of_lines(
                split_on(content + jsonl_append_text(last_byte, r.1@), '\n'),
            ).len() > 0,
{
    let mut value = user_message_document(u);
    strip_message_nulls(&mut value);
    proof {
        lemma_user_message_unstripped(*u);
        lemma_turn_docs_plain(*u);
    }
    let message_line = json_to_text(&value);
    let record = turn_record_document(u);
    let record_line = json_to_text(&record);
    proof {
        let w = json_parse(message_line@)->Ok_0;
        lemma_equiv_message_record(w, user_message_doc(*u));
        law_user_message_is_message(*u);
        let x = json_parse(record_line@)->Ok_0;
        lemma_equiv_record(x, turn_record_doc(*u));
        law_turn_record_reads_back(*u);
        assert forall|content: Seq<char>, last_byte: Option<u8>|
            #![trigger last_byte_of(content, last_byte)]
            last_byte_of(content, last_byte) && text_lines_have_messages(split_on(content, '\n')) == Some(false)
                implies text_lines_have_messages(split_on(content + jsonl_append_text(last_byte, message_line@), '\n'))
                == Some(true) by {
            law_appended_message_is_found(content, last_byte, message_line@);
        }
        assert forall|content: Seq<char>, last_byte: Option<u8>|
            #![trigger last_byte_of(content, last_byte)]
            last_byte_of(content, last_byte) implies records_of_lines(
                split_on(content + jsonl_append_text(last_byte, record_line@), '\n'),
            ).len() > 0 by {
            law_appended_record_is_found(content, last_byte, record_line@);
        }
    }
    (message_line, record_line)
}

/// A session just created is empty, so a listing leaves it out: its wire
/// file holds no text, hence no record, and its context file is empty.
pub proof fn law_fresh_session_is_empty()
    ensures
        records_of_lines(split_on(Seq::<char>::empty(), '\n')).len() == 0,
        empty_session(records_of_lines(split_on(Seq::<char>::empty(), '\n')).len() == 0, Some(0u64)),
{
    let e = Seq::<char>::empty();
    lemma_split_single(e, '\n');
    let lines = seq![e];
    assert(split_on(e, '\n') == lines);
    assert(lines.drop_last() =~= Seq::<Seq<char>>::empty());
    assert(records_of_lines(Seq::<Seq<char>>::empty()).len() == 0);
    assert(lines.last() == e);
    assert(trimmed(e).len() == 0);
    assert(records_of_lines(lines) == records_of_lines(lines.drop_last()));
}

} // verus!
