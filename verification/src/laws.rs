//! What holds of the library as a whole.
//!
//! Each proof function here states one law over the functions that the
//! contracts of the exec functions speak of.

use crate::annotate::{
    array_frame, embedded_object, frame, lemma_nested_frame, lemma_next_stop_passed,
    lemma_object_span_empty, nested_frame, next_stop, object_frame, object_span,
};
use crate::bind::{bindings, block_lines, leaf_bindings, lemma_leaf_bindings_succeed};
use crate::error::ParseError;
use crate::extract::{
    examples_marker, extraction, interpretation, marker_count, result_marker, result_schema,
};
use crate::json::json_object_text;
use crate::label::{labelled_field, line_type_word};
use crate::schema::{
    annotation_name, base_name, distinct_keys, has_key, last_bound, lemma_lookup_has_key,
    lemma_merged_lookup, lemma_merged_ordered, lemma_ordered_distinct, lookup, merged, rendered,
    BaseType, Schema, TypeAnnotation,
};
use crate::text::{
    all_ascii, holds, is_ascii, lemma_blank, line_seq, matches_at, segments, trimmed,
    trimmed_end,
};
use crate::utils::idempotence::{
    clean, ends_with_cr, lemma_getaddressmempool_settled, lemma_getblockdeltas_settled,
    lemma_getblockhashes_settled, lemma_kept_lines_twice, lemma_listunspent_settled,
    lemma_ellipsis_shortening, lemma_repaired_clean, lemma_settled_clean,
    lemma_shortening_settles, lemma_z_listunspent_settled, lemma_z_validateaddress_settled,
    settled, shortening,
};
use crate::utils::scrubbing::{
    is_continuation, lemma_scrub_passes_fixed, lemma_scrubbed_idempotent, pair_views, repaired,
    repairs_of, response_repairs, scrub_pass, scrub_passes, scrubbed, scrubbed_arguments,
    scrubbed_response, Part, ELLIPSIS,
};
use vstd::prelude::*;

verus! {

/// The body of a flat object: ASCII text that holds no delimiter of a frame.
pub open spec fn is_flat(body: Seq<char>) -> bool {
    forall|i: int|
        0 <= i < body.len() ==> is_ascii(#[trigger] body[i]) && body[i] != '{' && body[i] != '['
            && body[i] != '}'
}

/// The annotation of the last of `lines` that is a field line for `key`.
pub open spec fn field_type(lines: Seq<Seq<char>>, key: Seq<char>) -> Option<TypeAnnotation>
    decreases lines.len(),
{
    if lines.len() == 0 {
        None
    } else {
        match labelled_field(lines.last()) {
            Ok((k, a)) => if k == key {
                Some(a)
            } else {
                field_type(lines.drop_last(), key)
            },
            Err(_) => field_type(lines.drop_last(), key),
        }
    }
}

/// `next_stop` passes over what is no stop.
proof fn lemma_next_stop_skips(s: Seq<char>, close: char, i: int, j: int)
    requires
        0 <= i <= j <= s.len(),
        forall|k: int|
            i <= k < j ==> is_ascii(#[trigger] s[k]) && s[k] != '{' && s[k] != '[' && s[k] != close,
    ensures
        next_stop(s, close, i) == next_stop(s, close, j),
    decreases j - i,
{
    if i < j {
        lemma_next_stop_skips(s, close, i + 1, j);
    }
}

/// Among the leaves that lines bind, the leaf last bound to a key is the
/// annotation of the last line that names the key.
proof fn lemma_last_bound_of_leaves(
    lines: Seq<Seq<char>>,
    bs: Seq<(Seq<char>, Schema)>,
    key: Seq<char>,
)
    requires
        leaf_bindings(lines) == Ok::<Seq<(Seq<char>, Schema)>, ParseError>(bs),
    ensures
        last_bound(bs, key) == match field_type(lines, key) {
            Some(a) => Some(Schema::Leaf(a)),
            None => None,
        },
    decreases lines.len(),
{
    if lines.len() > 0 {
        let before = leaf_bindings(lines.drop_last())->Ok_0;
        assert(bs.drop_last() =~= before);
        lemma_last_bound_of_leaves(lines.drop_last(), before, key);
    }
}

/// A flat object whose lines are all field lines is read as an object, up
/// to its closing brace, that binds no key twice and gives every key the
/// annotation of the last line that names it; it binds no other key.
pub proof fn law_flat_object(body: Seq<char>, rest: Seq<char>, depth: nat)
    requires
        is_flat(body),
        all_ascii(rest),
        forall|i: int|
            0 <= i < block_lines(body).len() ==> labelled_field(#[trigger] block_lines(body)[i])
                is Ok,
    ensures
        ({
            let s = seq!['{'] + body + seq!['}'] + rest;
            let lines = block_lines(body);
            &&& frame(s, 1, '{', depth) matches Ok((Schema::Object(entries), end))
            &&& end == body.len() + 2
            &&& leaf_bindings(lines) matches Ok(bs) && entries == merged(Seq::empty(), bs)
            &&& distinct_keys(entries)
            &&& forall|key: Seq<char>| #[trigger]
                lookup(entries, key) == match field_type(lines, key) {
                    Some(a) => Some(Schema::Leaf(a)),
                    None => None,
                }
            &&& forall|key: Seq<char>| #[trigger]
                has_key(entries, key) <==> field_type(lines, key) is Some
        }),
{
    let s = seq!['{'] + body + seq!['}'] + rest;
    let lines = block_lines(body);
    let j = (body.len() + 1) as int;
    assert forall|k: int| 1 <= k < j implies is_ascii(#[trigger] s[k]) && s[k] != '{' && s[k] != '['
        && s[k] != '}' by {
        assert(s[k] == body[k - 1]);
    }
    lemma_next_stop_skips(s, '}', 1, j);
    assert(s[j] == '}');
    assert(next_stop(s, '}', 1) == j);
    let empty = Seq::<(Seq<char>, Schema)>::empty();
    assert(s.subrange(1, j) =~= body);
    assert(frame(s, 1, '{', depth) == object_frame(s, 1, empty, depth));
    if trimmed(body).len() == 0 {
        lemma_blank(body);
        assert(trimmed_end(body) =~= Seq::<char>::empty());
        assert(lines =~= Seq::<Seq<char>>::empty());
        assert forall|key: Seq<char>| #[trigger]
            has_key(empty, key) <==> field_type(lines, key) is Some by {
            lemma_lookup_has_key(empty, key);
        }
    } else {
        lemma_leaf_bindings_succeed(lines);
        let bs = leaf_bindings(lines)->Ok_0;
        let entries = merged(empty, bs);
        lemma_merged_ordered(empty, bs);
        lemma_ordered_distinct(entries);
        assert forall|key: Seq<char>| #[trigger]
            lookup(entries, key) == match field_type(lines, key) {
                Some(a) => Some(Schema::Leaf(a)),
                None => None,
            } by {
            lemma_merged_lookup(empty, bs, key);
            lemma_last_bound_of_leaves(lines, bs, key);
        }
        assert forall|key: Seq<char>| #[trigger]
            has_key(entries, key) <==> field_type(lines, key) is Some by {
            lemma_lookup_has_key(entries, key);
            assert(lookup(entries, key) == match field_type(lines, key) {
                Some(a) => Some(Schema::Leaf(a)),
                None => None,
            });
        }
    }
}

/// The buffer of an array frame never holds a brace: an opening brace opens
/// a nested frame and is not buffered. So the object span of the buffer is
/// empty, and the items of an array are what `serde_json` reads from the
/// empty text. An array frame is read as an array only where that is an
/// object.
pub proof fn law_array_items(s: Seq<char>, start: int, depth: nat)
    requires
        0 <= start,
    ensures
        frame(s, start, '[', depth) matches Ok((node, _)) ==> embedded_object(
            json_object_text(Seq::empty()),
        ) == Ok::<Seq<Schema>, ParseError>(node->Array_0) && node is Array,
{
    lemma_array_frame_items(s, start, Seq::empty(), depth);
}

/// The same for the rest of an array frame whose buffer holds no opening
/// brace so far.
proof fn lemma_array_frame_items(s: Seq<char>, start: int, buffered: Seq<char>, depth: nat)
    requires
        0 <= start,
        forall|i: int| 0 <= i < buffered.len() ==> #[trigger] buffered[i] != '{',
    ensures
        array_frame(s, start, buffered, depth) matches Ok((node, _)) ==> embedded_object(
            json_object_text(Seq::empty()),
        ) == Ok::<Seq<Schema>, ParseError>(node->Array_0) && node is Array,
    decreases s.len() - start,
{
    let j = next_stop(s, ']', start);
    if start <= j < s.len() && is_ascii(s[j]) {
        let viewed = buffered + s.subrange(start, j);
        lemma_next_stop_passed(s, ']', start);
        assert forall|i: int| 0 <= i < viewed.len() implies #[trigger] viewed[i] != '{' by {
            if i >= buffered.len() {
                assert(viewed[i] == s[start + i - buffered.len()]);
            }
        }
        if s[j] == ']' {
            lemma_object_span_empty(viewed);
            assert(object_span(viewed) =~= Seq::<char>::empty());
        } else {
            lemma_nested_frame(s, j + 1, s[j], depth);
            if let Ok((inner, k)) = nested_frame(s, j + 1, s[j], depth) {
                if bindings(viewed, Some(inner)) is Ok {
                    lemma_array_frame_items(s, k, viewed, depth);
                }
            }
        }
    }
}

/// The type word of a field line decides the base type of its annotation:
/// `numeric` gives `Decimal`, `string` gives `String`, `boolean` gives `bool`.
pub proof fn law_type_words(line: Seq<char>)
    requires
        labelled_field(line) is Ok,
    ensures
        ({
            let a = labelled_field(line)->Ok_0.1;
            let word = line_type_word(line)->Some_0;
            &&& line_type_word(line) is Some
            &&& matches_at(word, "numeric"@, 0) <==> a.base == BaseType::Decimal
            &&& matches_at(word, "string"@, 0) <==> a.base == BaseType::Text
            &&& matches_at(word, "boolean"@, 0) <==> a.base == BaseType::Bool
            &&& base_name(BaseType::Decimal) == "Decimal"@
            &&& base_name(BaseType::Text) == "String"@
            &&& base_name(BaseType::Bool) == "bool"@
        }),
{
    reveal_strlit("numeric");
    reveal_strlit("string");
    reveal_strlit("boolean");
    let word = line_type_word(line)->Some_0;
    if matches_at(word, "numeric"@, 0) {
        assert(word.subrange(0, 7)[0] == 'n');
    }
    if matches_at(word, "string"@, 0) {
        assert(word.subrange(0, 6)[0] == 's');
    }
    if matches_at(word, "boolean"@, 0) {
        assert(word.subrange(0, 7)[0] == 'b');
    }
}

/// `, optional` between the parentheses of a field line wraps the name of
/// the annotation in `Option<` and `>`; without it the name is that of the
/// base type. The leaf is written as that name between double quotes.
pub proof fn law_optional_wraps(line: Seq<char>)
    requires
        labelled_field(line) is Ok,
    ensures
        ({
            let a = labelled_field(line)->Ok_0.1;
            let word = line_type_word(line)->Some_0;
            &&& a.optional <==> holds(word, ", optional"@)
            &&& a.optional ==> annotation_name(a) == "Option<"@ + base_name(a.base) + ">"@
            &&& !a.optional ==> annotation_name(a) == base_name(a.base)
            &&& rendered(Schema::Leaf(a)) == seq!['"'] + annotation_name(a) + seq!['"']
        }),
{
}

/// A help text whose part behind the result marker holds the examples
/// marker not once but never, twice or more often, has no interpretation:
/// it fails with `Format`.
pub proof fn law_examples_marker(raw: Seq<char>)
    requires
        marker_count(raw, result_marker()) == 1,
        marker_count(segments(raw, result_marker())[1], examples_marker()) != 1,
    ensures
        extraction(raw) == Err::<(Seq<char>, Seq<char>), ParseError>(ParseError::Format),
        interpretation(raw) == Err::<Seq<char>, ParseError>(ParseError::Format),
{
}

/// The same where the result marker is missing or repeated.
pub proof fn law_result_marker(raw: Seq<char>)
    requires
        marker_count(raw, result_marker()) != 1,
    ensures
        extraction(raw) == Err::<(Seq<char>, Seq<char>), ParseError>(ParseError::Format),
        interpretation(raw) == Err::<Seq<char>, ParseError>(ParseError::Format),
{
}

/// A character outside ASCII anywhere in the result text fails the
/// interpretation with `Encoding`, whatever else the text holds.
pub proof fn law_non_ascii_result(raw: Seq<char>, depth: nat)
    requires
        extraction(raw) is Ok,
        !all_ascii(extraction(raw)->Ok_0.1),
    ensures
        result_schema(extraction(raw)->Ok_0.1, depth) == Err::<Schema, ParseError>(
            ParseError::Encoding,
        ),
        interpretation(raw) == Err::<Seq<char>, ParseError>(ParseError::Encoding),
{
}

/// A character outside ASCII at or behind the start of a frame fails the
/// frame with `Encoding`, whatever the opening delimiter, the depth and the
/// rest of the text.
pub proof fn law_non_ascii_frame(s: Seq<char>, start: int, opener: char, depth: nat, i: int)
    requires
        0 <= start <= i < s.len(),
        !is_ascii(s[i]),
    ensures
        frame(s, start, opener, depth) == Err::<(Schema, int), ParseError>(ParseError::Encoding),
{
}

/// Repairs change nothing in a text that holds nothing of what they
/// replace: on clean text they are a no-op.
pub proof fn law_repairs_keep_clean_text(text: Seq<char>, repairs: Seq<(Seq<char>, Seq<char>)>)
    requires
        clean(text, repairs),
    ensures
        repaired(text, repairs) == text,
{
    lemma_repaired_clean(text, repairs);
}

/// Settled repairs give clean text, so that making them twice gives what
/// making them once gives.
pub proof fn law_settled_repairs_idempotent(
    text: Seq<char>,
    repairs: Seq<(Seq<char>, Seq<char>)>,
)
    requires
        settled(repairs),
    ensures
        clean(repaired(text, repairs), repairs),
        repaired(repaired(text, repairs), repairs) == repaired(text, repairs),
{
    lemma_settled_clean(text, repairs);
    lemma_repaired_clean(repaired(text, repairs), repairs);
}

/// The commands whose repairs of the result are proved to be settled.
pub open spec fn has_settled_repairs(rpc_name: Seq<char>) -> bool {
    ||| rpc_name == "listunspent"@
    ||| rpc_name == "getaddressmempool"@
    ||| rpc_name == "z_validateaddress"@
    ||| rpc_name == "getblockdeltas"@
    ||| rpc_name == "getblockhashes"@
    ||| rpc_name == "z_listunspent"@
}

/// Their repairs are settled.
pub proof fn law_settled_commands(rpc_name: Seq<char>)
    requires
        has_settled_repairs(rpc_name),
    ensures
        settled(response_repairs(rpc_name)),
        rpc_name != "listtransactions"@,
{
    reveal_strlit("listtransactions");
    if rpc_name == "listunspent"@ {
        reveal_strlit("listunspent");
        lemma_listunspent_settled();
    } else if rpc_name == "getaddressmempool"@ {
        reveal_strlit("getaddressmempool");
        lemma_getaddressmempool_settled();
    } else if rpc_name == "z_validateaddress"@ {
        reveal_strlit("z_validateaddress");
        lemma_z_validateaddress_settled();
    } else if rpc_name == "getblockdeltas"@ {
        reveal_strlit("getblockdeltas");
        lemma_getblockdeltas_settled();
    } else if rpc_name == "getblockhashes"@ {
        reveal_strlit("getblockhashes");
        lemma_getblockhashes_settled();
    } else {
        reveal_strlit("z_listunspent");
        lemma_z_listunspent_settled();
    }
    assert("listtransactions"@.len() == 16);
}

/// Scrubbing a result twice gives what scrubbing it once gives, for every
/// command and every text, and so for the arguments.
pub proof fn law_scrub_idempotent(rpc_name: Seq<char>, text: Seq<char>)
    ensures
        scrubbed_response(rpc_name, scrubbed_response(rpc_name, text)) == scrubbed_response(
            rpc_name,
            text,
        ),
        scrubbed_arguments(rpc_name, scrubbed_arguments(rpc_name, text)) == scrubbed_arguments(
            rpc_name,
            text,
        ),
{
    lemma_scrubbed_idempotent(rpc_name, Part::Response, text);
    lemma_scrubbed_idempotent(rpc_name, Part::Arguments, text);
}

/// A text that one pass of the repairs leaves as it is, is repaired: on
/// clean text scrubbing is a no-op.
pub proof fn law_scrub_keeps_clean_text(rpc_name: Seq<char>, part: Part, text: Seq<char>)
    requires
        scrub_pass(rpc_name, part, text) == text,
    ensures
        scrubbed(rpc_name, part, text) == text,
{
}

/// What scrubbing gives is a text that a pass leaves as it is, or the text
/// that was given.
pub proof fn law_scrubbed_is_settled(rpc_name: Seq<char>, part: Part, text: Seq<char>)
    ensures
        scrub_pass(rpc_name, part, scrubbed(rpc_name, part, text)) == scrubbed(rpc_name, part, text)
            || scrubbed(rpc_name, part, text) == text,
{
    lemma_scrub_passes_fixed(rpc_name, part, text, text.len());
}

/// The results on which one pass of the repairs is enough. For
/// `listtransactions`: no line that is kept ends with a carriage return.
/// For every other command: the repairs of the command are settled, or
/// what the pass gives is clean of them.
pub open spec fn one_pass_settles(rpc_name: Seq<char>, result_data: Seq<char>) -> bool {
    if rpc_name == "listtransactions"@ {
        forall|i: int|
            0 <= i < line_seq(result_data).len() && !is_continuation(
                #[trigger] line_seq(result_data)[i],
            ) ==> !ends_with_cr(line_seq(result_data)[i])
    } else {
        settled(response_repairs(rpc_name)) || clean(
            scrub_pass(rpc_name, Part::Response, result_data),
            response_repairs(rpc_name),
        )
    }
}

/// On such a result scrubbing is one pass of the repairs (or none, for an
/// empty text, which no pass changes).
pub proof fn law_one_pass(rpc_name: Seq<char>, result_data: Seq<char>)
    requires
        one_pass_settles(rpc_name, result_data),
        result_data.len() > 0,
    ensures
        scrubbed_response(rpc_name, result_data) == scrub_pass(
            rpc_name,
            Part::Response,
            result_data,
        ),
{
    let once = scrub_pass(rpc_name, Part::Response, result_data);
    if rpc_name == "listtransactions"@ {
        lemma_kept_lines_twice(result_data);
    } else {
        let repairs = response_repairs(rpc_name);
        if settled(repairs) {
            lemma_settled_clean(result_data, repairs);
        }
        lemma_repaired_clean(once, repairs);
    }
    assert(scrub_pass(rpc_name, Part::Response, once) == once);
    if once != result_data {
        assert(scrub_passes(rpc_name, Part::Response, once, (result_data.len() - 1) as nat) == Some(
            once,
        ));
    }
}

/// One pass is enough for the result of a command with settled repairs,
/// whatever the text.
pub proof fn law_settled_one_pass(rpc_name: Seq<char>, result_data: Seq<char>)
    requires
        has_settled_repairs(rpc_name),
        result_data.len() > 0,
    ensures
        scrubbed_response(rpc_name, result_data) == scrub_pass(
            rpc_name,
            Part::Response,
            result_data,
        ),
{
    law_settled_commands(rpc_name);
    law_one_pass(rpc_name, result_data);
}

/// Where the repairs of a command each put in less than they take out,
/// passes always end: what scrubbing gives is a text that a pass leaves as
/// it is. So it is for every result that has only the repairs of the
/// ellipsis.
pub proof fn law_shortening_repairs_settle(rpc_name: Seq<char>, part: Part, text: Seq<char>)
    requires
        !(part == Part::Response && rpc_name == "listtransactions"@),
        shortening(repairs_of(rpc_name, part)) || repairs_of(rpc_name, part) == pair_views(
            ELLIPSIS@,
        ),
    ensures
        scrub_pass(rpc_name, part, scrubbed(rpc_name, part, text)) == scrubbed(rpc_name, part, text),
{
    lemma_ellipsis_shortening();
    lemma_shortening_settles(rpc_name, part, text, text.len());
    lemma_scrub_passes_fixed(rpc_name, part, text, text.len());
}

} // verus!
