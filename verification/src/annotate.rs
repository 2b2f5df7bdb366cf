//! The schema annotator: a recursive descent over the result text.
//!
//! A frame starts behind an opening delimiter and ends with the matching
//! closing one. Inside it, text is buffered up to the next delimiter; an
//! opening delimiter starts a nested frame.

use crate::bind::{bind_idents_labels, bindings, lemma_bindings_values};
use crate::bindings::Bindings;
use crate::error::{fails_with, ParseError};
use crate::json::{json_object_text, parse_object_text};
use crate::schema::{
    lemma_merged_ordered, lemma_merged_values, merged, node_views, ordered, well_formed, Schema,
    SchemaNode,
};
use crate::text::{
    back_to, char_is_ascii, find_back, find_either, from_chars, is_ascii, is_ascii_text,
    lemma_back_to_bounds, lemma_next_of_skips, next_of, push_all, trim, trimmed,
};
use vstd::prelude::*;
use vstd::slice::slice_subrange;

verus! {

/// What a parse carries down its frames.
#[derive(Clone, Copy, Debug)]
pub struct Context<'a> {
    /// The command whose result is read; the same in every frame.
    pub cmd_name: &'a [char],
    /// The delimiter that opened the frame: `{` for an object, `[` for an array.
    pub last_char: char,
    /// How many frames may still be opened inside this one.
    pub depth_left: usize,
}

/// `c` opens a frame.
pub open spec fn is_opener(c: char) -> bool {
    c == '{' || c == '['
}

/// The first index at or after `i` where buffering stops: at `close`, at an
/// opening delimiter, or at a character outside ASCII (`s.len()` if there is none).
pub open spec fn next_stop(s: Seq<char>, close: char, i: int) -> int
    decreases s.len() - i,
{
    if 0 <= i < s.len() && s[i] != close && !is_opener(s[i]) && is_ascii(s[i]) {
        next_stop(s, close, i + 1)
    } else {
        i
    }
}

/// The part of an array's buffer from its first `{` through its last `}`:
/// what stands behind the last `}` is cut off first, then what stands before
/// the first `{` of the rest.
pub open spec fn object_span(raw: Seq<char>) -> Seq<char> {
    let t = raw.take(back_to(raw, '}', raw.len() as int));
    t.skip(next_of(t, '{', '{', 0))
}

/// The items of an array, given what `serde_json` read from the object span
/// of its buffer: the one object read, kept as its compact text.
pub open spec fn embedded_object(parsed: Option<Seq<char>>) -> Result<Seq<Schema>, ParseError> {
    match parsed {
        Some(t) => Ok(seq![Schema::Literal(t)]),
        None => Err(ParseError::InvalidArrayBody),
    }
}

/// The items of the array whose buffer is `raw`.
pub open spec fn array_items(raw: Seq<char>) -> Result<Seq<Schema>, ParseError> {
    embedded_object(json_object_text(object_span(raw)))
}

/// All of `s` from `start` on is ASCII.
pub open spec fn ascii_from(s: Seq<char>, start: int) -> bool {
    forall|i: int| start <= i < s.len() && 0 <= i ==> is_ascii(#[trigger] s[i])
}

/// The schema of the frame that `opener` opened, where the frame's text
/// starts at `start`, together with the index behind the frame's closing
/// delimiter. `depth` frames may be nested inside it. A character outside
/// ASCII anywhere from `start` on fails the frame with `Encoding`, before
/// anything else is looked at.
pub open spec fn frame(s: Seq<char>, start: int, opener: char, depth: nat) -> Result<
    (Schema, int),
    ParseError,
>
    decreases s.len() - start, 1nat,
{
    if !ascii_from(s, start) {
        Err(ParseError::Encoding)
    } else if opener == '{' {
        object_frame(s, start, Seq::empty(), depth)
    } else if opener == '[' {
        array_frame(s, start, Seq::empty(), depth)
    } else {
        Err(ParseError::UnsupportedShape)
    }
}

/// The frame nested inside a frame that allows `depth` more levels.
pub open spec fn nested_frame(s: Seq<char>, start: int, opener: char, depth: nat) -> Result<
    (Schema, int),
    ParseError,
>
    decreases s.len() - start, 2nat,
{
    if depth == 0 {
        Err(ParseError::DepthExceeded)
    } else {
        frame(s, start, opener, (depth - 1) as nat)
    }
}

/// The rest of an object frame from `start` on, `acc` being the bindings
/// made so far. The text up to the next stop is the buffered block.
/// At `}` a block that is not blank binds its lines, and the frame ends.
/// At an opening delimiter the nested frame is read, the block binds its
/// lines and the nested value, and the frame goes on behind the nested one.
/// (A nested frame always ends behind its opening delimiter and inside the
/// text, see `lemma_frame`: the test of where it ends is there for the
/// termination of this definition and never fails.)
pub open spec fn object_frame(
    s: Seq<char>,
    start: int,
    acc: Seq<(Seq<char>, Schema)>,
    depth: nat,
) -> Result<(Schema, int), ParseError>
    decreases s.len() - start, 0nat,
{
    let j = next_stop(s, '}', start);
    if j < start || j >= s.len() {
        Err(ParseError::UnbalancedDelimiter)
    } else if !is_ascii(s[j]) {
        Err(ParseError::Encoding)
    } else if s[j] == '}' {
        let viewed = s.subrange(start, j);
        if trimmed(viewed).len() == 0 {
            Ok((Schema::Object(acc), j + 1))
        } else {
            match bindings(viewed, None) {
                Err(e) => Err(e),
                Ok(bs) => Ok((Schema::Object(merged(acc, bs)), j + 1)),
            }
        }
    } else {
        match nested_frame(s, j + 1, s[j], depth) {
            Err(e) => Err(e),
            Ok((inner, k)) => match bindings(s.subrange(start, j), Some(inner)) {
                Err(e) => Err(e),
                Ok(bs) => if j < k <= s.len() {
                    object_frame(s, k, merged(acc, bs), depth)
                } else {
                    Err(ParseError::UnbalancedDelimiter)
                },
            },
        }
    }
}

/// The rest of an array frame from `start` on, `buffered` being the text
/// buffered so far; the buffer is kept across nested frames.
/// At `]` the items are resolved from the whole buffer, and the frame ends.
/// At an opening delimiter the nested frame is read and bound to the buffer
/// as in an object; the bindings are dropped, but a failure to bind fails
/// the frame. (The test of where the nested frame ends never fails, as in
/// `object_frame`.)
pub open spec fn array_frame(s: Seq<char>, start: int, buffered: Seq<char>, depth: nat) -> Result<
    (Schema, int),
    ParseError,
>
    decreases s.len() - start, 0nat,
{
    let j = next_stop(s, ']', start);
    if j < start || j >= s.len() {
        Err(ParseError::UnbalancedDelimiter)
    } else if !is_ascii(s[j]) {
        Err(ParseError::Encoding)
    } else {
        let viewed = buffered + s.subrange(start, j);
        if s[j] == ']' {
            match array_items(viewed) {
                Err(e) => Err(e),
                Ok(items) => Ok((Schema::Array(items), j + 1)),
            }
        } else {
            match nested_frame(s, j + 1, s[j], depth) {
                Err(e) => Err(e),
                Ok((inner, k)) => match bindings(viewed, Some(inner)) {
                    Err(e) => Err(e),
                    Ok(_) => if j < k <= s.len() {
                        array_frame(s, k, viewed, depth)
                    } else {
                        Err(ParseError::UnbalancedDelimiter)
                    },
                },
            }
        }
    }
}

/// What `next_stop` passes over is ASCII and holds neither `close` nor an
/// opening delimiter.
pub proof fn lemma_next_stop_passed(s: Seq<char>, close: char, i: int)
    requires
        0 <= i,
    ensures
        i <= next_stop(s, close, i),
        forall|k: int|
            i <= k < next_stop(s, close, i) ==> is_ascii(#[trigger] s[k]) && s[k] != close
                && !is_opener(s[k]),
    decreases s.len() - i,
{
    if i < s.len() && s[i] != close && !is_opener(s[i]) && is_ascii(s[i]) {
        lemma_next_stop_passed(s, close, i + 1);
    }
}

/// A frame that is read ends behind its start and inside the text, and its
/// schema is well formed.
pub proof fn lemma_frame(s: Seq<char>, start: int, opener: char, depth: nat)
    requires
        0 <= start,
    ensures
        frame(s, start, opener, depth) matches Ok((node, end)) ==> well_formed(node) && start < end
            <= s.len(),
    decreases s.len() - start, 1nat,
{
    if opener == '{' {
        lemma_object_frame(s, start, Seq::empty(), depth);
    } else if opener == '[' {
        lemma_array_frame(s, start, Seq::empty(), depth);
    }
}

/// The same for a nested frame.
pub proof fn lemma_nested_frame(s: Seq<char>, start: int, opener: char, depth: nat)
    requires
        0 <= start,
    ensures
        nested_frame(s, start, opener, depth) matches Ok((node, end)) ==> well_formed(node) && start
            < end <= s.len(),
    decreases s.len() - start, 2nat,
{
    if depth > 0 {
        lemma_frame(s, start, opener, (depth - 1) as nat);
    }
}

/// The same for the rest of an object frame, given that the bindings made
/// so far are ordered and their values well formed.
pub proof fn lemma_object_frame(
    s: Seq<char>,
    start: int,
    acc: Seq<(Seq<char>, Schema)>,
    depth: nat,
)
    requires
        0 <= start,
        ordered(acc),
        forall|i: int| 0 <= i < acc.len() ==> well_formed(#[trigger] acc[i].1),
    ensures
        object_frame(s, start, acc, depth) matches Ok((node, end)) ==> well_formed(node) && start
            < end <= s.len(),
    decreases s.len() - start, 0nat,
{
    let j = next_stop(s, '}', start);
    if start <= j < s.len() && is_ascii(s[j]) {
        if s[j] == '}' {
            let viewed = s.subrange(start, j);
            if trimmed(viewed).len() != 0 {
                if let Ok(bs) = bindings(viewed, None) {
                    lemma_merged_well_formed(acc, bs, viewed, None);
                }
            }
        } else {
            lemma_nested_frame(s, j + 1, s[j], depth);
            if let Ok((inner, k)) = nested_frame(s, j + 1, s[j], depth) {
                let viewed = s.subrange(start, j);
                if let Ok(bs) = bindings(viewed, Some(inner)) {
                    lemma_merged_well_formed(acc, bs, viewed, Some(inner));
                    lemma_object_frame(s, k, merged(acc, bs), depth);
                }
            }
        }
    }
}

/// The same for the rest of an array frame.
pub proof fn lemma_array_frame(s: Seq<char>, start: int, buffered: Seq<char>, depth: nat)
    requires
        0 <= start,
    ensures
        array_frame(s, start, buffered, depth) matches Ok((node, end)) ==> well_formed(node)
            && start < end <= s.len(),
    decreases s.len() - start, 0nat,
{
    let j = next_stop(s, ']', start);
    if start <= j < s.len() && is_ascii(s[j]) {
        let viewed = buffered + s.subrange(start, j);
        if s[j] == ']' {
            if let Ok(items) = array_items(viewed) {
                assert(well_formed(items[0]));
            }
        } else {
            lemma_nested_frame(s, j + 1, s[j], depth);
            if let Ok((inner, k)) = nested_frame(s, j + 1, s[j], depth) {
                if bindings(viewed, Some(inner)) is Ok {
                    lemma_array_frame(s, k, viewed, depth);
                }
            }
        }
    }
}

/// Merging the bindings of a block into ordered, well-formed bindings gives
/// ordered, well-formed bindings, given that the nested value is well formed.
pub proof fn lemma_merged_well_formed(
    acc: Seq<(Seq<char>, Schema)>,
    bs: Seq<(Seq<char>, Schema)>,
    viewed: Seq<char>,
    nested: Option<Schema>,
)
    requires
        ordered(acc),
        forall|i: int| 0 <= i < acc.len() ==> well_formed(#[trigger] acc[i].1),
        bindings(viewed, nested) == Ok::<Seq<(Seq<char>, Schema)>, ParseError>(bs),
        nested matches Some(node) ==> well_formed(node),
    ensures
        well_formed(Schema::Object(merged(acc, bs))),
{
    let out = merged(acc, bs);
    lemma_merged_ordered(acc, bs);
    lemma_bindings_values(viewed, nested);
    assert forall|i: int| 0 <= i < out.len() implies well_formed(#[trigger] out[i].1) by {
        lemma_merged_values(acc, bs, i);
        if acc.contains(out[i]) {
            let m = choose|m: int| 0 <= m < acc.len() && acc[m] == out[i];
            assert(well_formed(acc[m].1));
        } else {
            let m = choose|m: int| 0 <= m < bs.len() && bs[m] == out[i];
            assert(bs[m].1 is Leaf || nested == Some(bs[m].1));
        }
    }
}

/// The first index at or after `from` where buffering stops.
pub fn find_stop(s: &[char], close: char, from: usize) -> (r: usize)
    ensures
        r == next_stop(s@, close, from as int),
        from <= r,
        from <= s.len() ==> r <= s.len(),
{
    let mut i: usize = from;
    while i < s.len() && s[i] != close && s[i] != '{' && s[i] != '[' && char_is_ascii(s[i])
        invariant
            from <= i,
            from <= s.len() ==> i <= s.len(),
            next_stop(s@, close, from as int) == next_stop(s@, close, i as int),
        decreases s.len() - i,
    {
        i += 1;
    }
    i
}

/// The part of an array's buffer from its first `{` through its last `}`.
pub fn span_of_object<'a>(raw: &'a [char]) -> (r: &'a [char])
    ensures
        r@ == object_span(raw@),
{
    let end = find_back(raw, '}');
    let t = slice_subrange(raw, 0, end);
    let begin = find_either(t, '{', '{', 0);
    slice_subrange(t, begin, t.len())
}

/// Makes the items of an array from what `serde_json` read from the object
/// span of its buffer.
pub fn read_embedded_object(parsed: Result<String, serde_json::Error>) -> (r: Result<
    Vec<SchemaNode>,
    ParseError,
>)
    ensures
        match parsed {
            Ok(t) => r matches Ok(v) && node_views(v@) == seq![Schema::Literal(t@)],
            Err(_) => fails_with(r, ParseError::InvalidArrayBody),
        },
{
    match parsed {
        Ok(t) => {
            let mut items: Vec<SchemaNode> = Vec::new();
            items.push(SchemaNode::Literal(t));
            assert(node_views(items@) =~= seq![Schema::Literal(t@)]);
            Ok(items)
        },
        Err(_) => Err(ParseError::InvalidArrayBody),
    }
}

/// A buffer that holds no opening brace has an empty object span.
pub proof fn lemma_object_span_empty(raw: Seq<char>)
    requires
        forall|i: int| 0 <= i < raw.len() ==> #[trigger] raw[i] != '{',
    ensures
        object_span(raw).len() == 0,
{
    let t = raw.take(back_to(raw, '}', raw.len() as int));
    lemma_back_to_bounds(raw, '}', raw.len() as int);
    assert forall|k: int| 0 <= k < t.len() implies #[trigger] t[k] != '{' && t[k] != '{' by {
        assert(t[k] == raw[k]);
    }
    lemma_next_of_skips(t, '{', '{', 0, t.len() as int);
}

/// Resolves the items of an array from its buffer. A buffer whose object
/// span is empty has no items to resolve: `serde_json` reads no object
/// from the empty text.
pub fn label_by_position(raw_observed: &[char]) -> (r: Result<Vec<SchemaNode>, ParseError>)
    ensures
        match array_items(raw_observed@) {
            Ok(items) => r matches Ok(v) && node_views(v@) == items,
            Err(e) => fails_with(r, e),
        },
        object_span(raw_observed@).len() == 0 ==> fails_with(r, ParseError::InvalidArrayBody),
{
    let span = from_chars(span_of_object(raw_observed));
    read_embedded_object(parse_object_text(span.as_str()))
}

/// Whether all of `s` from `start` on is ASCII.
pub fn is_ascii_from(s: &[char], start: usize) -> (r: bool)
    ensures
        r == ascii_from(s@, start as int),
{
    if start >= s.len() {
        return true;
    }
    let rest = slice_subrange(s, start, s.len());
    let r = is_ascii_text(rest);
    proof {
        if r {
            assert forall|i: int| start <= i < s@.len() && 0 <= i implies is_ascii(#[trigger] s@[i]) by {
                assert(rest@[i - start] == s@[i]);
            }
        } else {
            let k = choose|k: int| 0 <= k < rest@.len() && !is_ascii(#[trigger] rest@[k]);
            assert(rest@[k] == s@[start + k]);
        }
    }
    r
}

/// Reads the frame that `context.last_char` opened and whose text starts at
/// `start`. Returns its schema and the index behind its closing delimiter.
pub fn annotate_result(context: &Context, result_chars: &[char], start: usize) -> (r: Result<
    (SchemaNode, usize),
    ParseError,
>)
    ensures
        match frame(
            result_chars@,
            start as int,
            context.last_char,
            context.depth_left as nat,
        ) {
            Ok((node, end)) => r matches Ok((n, e)) && n@ == node && e == end,
            Err(e) => fails_with(r, e),
        },
        r matches Ok((n, e)) ==> well_formed(n@) && start < e <= result_chars@.len(),
        !ascii_from(result_chars@, start as int) ==> fails_with(r, ParseError::Encoding),
        context.last_char == '[' ==> r is Err,
    decreases result_chars@.len() - start, 0nat,
{
    proof {
        lemma_frame(result_chars@, start as int, context.last_char, context.depth_left as nat);
    }
    if !is_ascii_from(result_chars, start) {
        return Err(ParseError::Encoding);
    }
    if start > result_chars.len() {
        return if context.last_char == '{' || context.last_char == '[' {
            Err(ParseError::UnbalancedDelimiter)
        } else {
            Err(ParseError::UnsupportedShape)
        };
    }
    let ghost s = result_chars@;
    let ghost depth = context.depth_left as nat;
    match context.last_char {
        '{' => {
            let mut ident_label_bindings = Bindings::new();
            let mut pos: usize = start;
            loop
                invariant
                    start <= pos <= result_chars.len(),
                    s == result_chars@,
                    depth == context.depth_left,
                    context.last_char == '{',
                    frame(s, start as int, '{', depth) matches Ok((node, _)) ==> well_formed(node),
                    ident_label_bindings.wf(),
                    frame(s, start as int, '{', depth) == object_frame(
                        s,
                        pos as int,
                        ident_label_bindings@,
                        depth,
                    ),
                decreases result_chars.len() - pos,
            {
                let stop = find_stop(result_chars, '}', pos);
                if stop >= result_chars.len() {
                    return Err(ParseError::UnbalancedDelimiter);
                }
                let last_viewed = result_chars[stop];
                if !char_is_ascii(last_viewed) {
                    return Err(ParseError::Encoding);
                }
                let viewed = slice_subrange(result_chars, pos, stop);
                if last_viewed == '}' {
                    if trim(viewed).len() > 0 {
                        match bind_idents_labels(viewed, context.cmd_name, None) {
                            Err(e) => {
                                return Err(e);
                            },
                            Ok(partial_ident_label_bindings) => {
                                ident_label_bindings.bind_all(partial_ident_label_bindings);
                            },
                        }
                    }
                    return Ok((SchemaNode::Object(ident_label_bindings.into_entries()), stop + 1));
                }
                let inner_value = match recurse(last_viewed, context, result_chars, stop + 1) {
                    Err(e) => {
                        return Err(e);
                    },
                    Ok((inner_value, behind)) => {
                        pos = behind;
                        inner_value
                    },
                };
                match bind_idents_labels(viewed, context.cmd_name, Some(inner_value)) {
                    Err(e) => {
                        return Err(e);
                    },
                    Ok(partial_ident_label_bindings) => {
                        ident_label_bindings.bind_all(partial_ident_label_bindings);
                    },
                }
            }
        },
        '[' => {
            let mut viewed: Vec<char> = Vec::new();
            let mut pos: usize = start;
            loop
                invariant
                    start <= pos <= result_chars.len(),
                    s == result_chars@,
                    depth == context.depth_left,
                    context.last_char == '[',
                    forall|i: int| 0 <= i < viewed@.len() ==> #[trigger] viewed@[i] != '{',
                    frame(s, start as int, '[', depth) matches Ok((node, _)) ==> well_formed(node),
                    frame(s, start as int, '[', depth) == array_frame(
                        s,
                        pos as int,
                        viewed@,
                        depth,
                    ),
                decreases result_chars.len() - pos,
            {
                let stop = find_stop(result_chars, ']', pos);
                if stop >= result_chars.len() {
                    return Err(ParseError::UnbalancedDelimiter);
                }
                let last_viewed = result_chars[stop];
                if !char_is_ascii(last_viewed) {
                    return Err(ParseError::Encoding);
                }
                let ghost before = viewed@;
                push_all(&mut viewed, slice_subrange(result_chars, pos, stop));
                proof {
                    lemma_next_stop_passed(s, ']', pos as int);
                    assert forall|i: int| 0 <= i < viewed@.len() implies #[trigger] viewed@[i]
                        != '{' by {
                        if i >= before.len() {
                            assert(viewed@[i] == s[pos + i - before.len()]);
                        }
                    }
                    lemma_object_span_empty(viewed@);
                }
                if last_viewed == ']' {
                    return match label_by_position(viewed.as_slice()) {
                        Err(e) => Err(e),
                        Ok(ordered_results) => Ok((SchemaNode::Array(ordered_results), stop + 1)),
                    };
                }
                let inner_value = match recurse(last_viewed, context, result_chars, stop + 1) {
                    Err(e) => {
                        return Err(e);
                    },
                    Ok((inner_value, behind)) => {
                        pos = behind;
                        inner_value
                    },
                };
                match bind_idents_labels(viewed.as_slice(), context.cmd_name, Some(inner_value)) {
                    Err(e) => {
                        return Err(e);
                    },
                    Ok(_) => {},
                }
            }
        },
        _ => Err(ParseError::UnsupportedShape),
    }
}

/// Reads the frame that `last_viewed` opened inside the frame of `context`.
pub fn recurse(last_viewed: char, context: &Context, result_chars: &[char], start: usize) -> (r:
    Result<(SchemaNode, usize), ParseError>)
    ensures
        match nested_frame(result_chars@, start as int, last_viewed, context.depth_left as nat) {
            Ok((node, end)) => r matches Ok((n, e)) && n@ == node && e == end,
            Err(e) => fails_with(r, e),
        },
        r matches Ok((n, e)) ==> well_formed(n@) && start < e <= result_chars@.len(),
    decreases result_chars@.len() - start, 1nat,
{
    if context.depth_left == 0 {
        return Err(ParseError::DepthExceeded);
    }
    let inner = Context {
        cmd_name: context.cmd_name,
        last_char: last_viewed,
        depth_left: context.depth_left - 1,
    };
    annotate_result(&inner, result_chars, start)
}

} // verus!
