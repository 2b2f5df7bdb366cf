//! Flat objects written line by line: that each line of the usual shape is
//! a field line, and that the body made of such lines is read as them.

use crate::annotate::frame;
use crate::bind::{block_lines, leaf_bindings, lemma_leaf_bindings_values};
use crate::error::ParseError;
use crate::label::{
    after_first, before_first, identifier, label_of, labelled_field, line_type_word, type_word,
};
use crate::laws::{field_type, is_flat, law_flat_object};
use crate::schema::{
    distinct_keys, has_key, lemma_merged_distinct_len, lookup, BaseType, Schema, TypeAnnotation,
};
use crate::text::{
    all_ascii, is_ascii, is_whitespace, lemma_found_from, lemma_next_of_skips,
    lemma_skip_whitespace, lemma_skip_whitespace_back, lemma_skip_whitespace_back_bounds,
    lemma_skip_whitespace_bounds, line_seq, matches_at, next_of, skip_whitespace,
    skip_whitespace_back, trimmed, trimmed_end, trimmed_start,
};
use crate::utils::idempotence::{ends_with_cr, joined, lemma_joined_first, one_line};
use vstd::prelude::*;

verus! {

/// The line `"<key>": <value>, (<word>) <description>`.
pub open spec fn field_line(
    key: Seq<char>,
    value: Seq<char>,
    word: Seq<char>,
    description: Seq<char>,
) -> Seq<char> {
    seq!['"'] + key + seq!['"', ':', ' '] + value + seq![',', ' ', '('] + word + seq![')', ' ']
        + description
}

/// `s` holds neither `a` nor `b`.
pub open spec fn without(s: Seq<char>, a: char, b: char) -> bool {
    forall|i: int| 0 <= i < s.len() ==> #[trigger] s[i] != a && s[i] != b
}

/// Trimming at the end cuts behind the last character that is no
/// whitespace.
pub proof fn lemma_trimmed_end_at(s: Seq<char>, p: int, j: int)
    requires
        0 < p <= j <= s.len(),
        !is_whitespace(s[p - 1]),
        forall|k: int| p <= k < j ==> is_whitespace(#[trigger] s[k]),
    ensures
        skip_whitespace_back(s, j) == p,
    decreases j - p,
{
    if p < j {
        lemma_trimmed_end_at(s, p, j - 1);
    }
}

/// A text that holds a character that is no whitespace is trimmed at the
/// end behind that character or further back.
pub proof fn lemma_trimmed_end_behind(s: Seq<char>, q: int)
    requires
        0 <= q < s.len(),
        !is_whitespace(s[q]),
    ensures
        q < skip_whitespace_back(s, s.len() as int) <= s.len(),
        !is_whitespace(s[skip_whitespace_back(s, s.len() as int) - 1]),
{
    lemma_skip_whitespace_back(s, s.len() as int);
    lemma_skip_whitespace_back_bounds(s, s.len() as int);
    let p = skip_whitespace_back(s, s.len() as int);
    if p <= q {
        assert(is_whitespace(s[q]));
    }
}

/// A text that starts and ends with characters that are no whitespace is
/// trimmed already.
pub proof fn lemma_trimmed_id(s: Seq<char>)
    requires
        s.len() > 0,
        !is_whitespace(s[0]),
        !is_whitespace(s[s.len() - 1]),
    ensures
        trimmed_start(s) == s,
        trimmed_end(s) == s,
        trimmed(s) == s,
{
    assert(s.skip(0) =~= s);
    assert(s.take(s.len() as int) =~= s);
}

/// The characters of a field line, place by place.
pub proof fn lemma_field_line_chars(
    key: Seq<char>,
    value: Seq<char>,
    word: Seq<char>,
    description: Seq<char>,
)
    ensures
        ({
            let line = field_line(key, value, word, description);
            let k = key.len() as int;
            let v = value.len() as int;
            let w = word.len() as int;
            &&& line.len() == k + v + w + 9 + description.len()
            &&& line[0] == '"'
            &&& forall|i: int| 0 <= i < k ==> line[1 + i] == #[trigger] key[i]
            &&& line[k + 1] == '"'
            &&& line[k + 2] == ':'
            &&& line[k + 3] == ' '
            &&& forall|i: int| 0 <= i < v ==> line[k + 4 + i] == #[trigger] value[i]
            &&& line[k + v + 4] == ','
            &&& line[k + v + 5] == ' '
            &&& line[k + v + 6] == '('
            &&& forall|i: int| 0 <= i < w ==> line[k + v + 7 + i] == #[trigger] word[i]
            &&& line[k + v + w + 7] == ')'
            &&& line[k + v + w + 8] == ' '
            &&& forall|i: int|
                0 <= i < description.len() ==> line[k + v + w + 9 + i] == #[trigger] description[i]
        }),
{
}

/// A line of the usual shape is a field line: its identifier is the key,
/// and its annotation is what the word between its parentheses stands for.
/// The key holds no double quote and no colon; the value and the word hold
/// no parenthesis.
pub proof fn lemma_field_line(
    key: Seq<char>,
    value: Seq<char>,
    word: Seq<char>,
    description: Seq<char>,
)
    requires
        without(key, '"', ':'),
        without(value, '(', ')'),
        without(word, '(', ')'),
        label_of(word) is Some,
    ensures
        labelled_field(field_line(key, value, word, description)) == Ok::<
            (Seq<char>, TypeAnnotation),
            ParseError,
        >((key, label_of(word)->Some_0)),
        line_type_word(field_line(key, value, word, description)) == Some(word),
        trimmed(field_line(key, value, word, description)).len() > 0,
        trimmed(field_line(key, value, word, description))[0] == '"',
        trimmed(field_line(key, value, word, description)) == trimmed_end(
            field_line(key, value, word, description),
        ),
{
    let line = field_line(key, value, word, description);
    lemma_field_line_chars(key, value, word, description);
    let k = key.len() as int;
    let v = value.len() as int;
    let w = word.len() as int;
    let close = k + v + w + 7;
    assert(skip_whitespace(line, 0) == 0);
    assert(line.skip(0) =~= line);
    lemma_trimmed_end_behind(line, close);
    let e = skip_whitespace_back(line, line.len() as int);
    let t = trimmed(line);
    assert(t == line.take(e));
    // the colon
    assert forall|i: int| 0 <= i < k + 2 implies #[trigger] t[i] != ':' && t[i] != ':' by {
        if 1 <= i <= k {
            assert(t[i] == key[i - 1]);
        }
    }
    lemma_next_of_skips(t, ':', ':', 0, k + 2);
    assert(t[k + 2] == ':');
    assert(next_of(t, ':', ':', 0) == k + 2);
    // the identifier
    let lhs = before_first(t, ':');
    assert(lhs == t.take(k + 2));
    assert(lhs[0] == '"');
    assert(next_of(lhs, '"', '"', 0) == 0);
    assert forall|i: int| 1 <= i < k + 1 implies #[trigger] lhs[i] != '"' && lhs[i] != '"' by {
        assert(lhs[i] == key[i - 1]);
    }
    lemma_next_of_skips(lhs, '"', '"', 1, k + 1);
    assert(lhs[k + 1] == '"');
    assert(next_of(lhs, '"', '"', 1) == k + 1);
    assert(lhs.subrange(1, k + 1) =~= key);
    assert(identifier(lhs) == key);
    // what stands behind the colon
    let rest = t.skip(k + 3);
    assert(after_first(t, ':') == Some(rest));
    let a = skip_whitespace(rest, 0);
    lemma_skip_whitespace(rest, 0);
    lemma_skip_whitespace_bounds(rest, 0);
    let o = v + 3;
    assert(rest[o] == '(');
    if a > o {
        assert(is_whitespace(rest[o]));
    }
    let meta = rest.skip(a);
    assert(meta.len() > 0);
    assert(meta[meta.len() - 1] == line[e - 1]);
    lemma_trimmed_end_at(meta, meta.len() as int, meta.len() as int);
    assert(meta.take(meta.len() as int) =~= meta);
    assert(trimmed(rest) == meta);
    // the parentheses
    let oo = o - a;
    assert forall|i: int| 0 <= i < oo implies #[trigger] meta[i] != '(' && meta[i] != ')' by {
        let j = k + 3 + a + i;
        assert(meta[i] == line[j]);
        if k + 4 <= j < k + 4 + v {
            assert(line[j] == value[j - k - 4]);
        }
    }
    lemma_next_of_skips(meta, '(', ')', 0, oo);
    assert(meta[oo] == '(');
    assert(next_of(meta, '(', ')', 0) == oo);
    assert forall|i: int| oo + 1 <= i < oo + 1 + w implies #[trigger] meta[i] != '(' && meta[i]
        != ')' by {
        assert(meta[i] == line[k + 3 + a + i]);
        assert(line[k + 3 + a + i] == word[i - oo - 1]);
    }
    lemma_next_of_skips(meta, '(', ')', oo + 1, oo + 1 + w);
    assert(meta[oo + 1 + w] == ')');
    assert(next_of(meta, '(', ')', oo + 1) == oo + 1 + w);
    assert(meta.subrange(oo + 1, oo + 1 + w) =~= word);
    assert(type_word(meta) == Some(word));
    assert(line_type_word(line) == Some(word));
}

/// A part of a field line of a flat object: ASCII text on one line that
/// holds no delimiter of a frame.
pub open spec fn flat_part(part: Seq<char>) -> bool {
    forall|i: int|
        0 <= i < part.len() ==> is_ascii(#[trigger] part[i]) && part[i] != '{' && part[i] != '['
            && part[i] != '}' && part[i] != '\n' && part[i] != '\r'
}

/// The parts of a field line of a flat object: all are flat, the key holds
/// no double quote and no colon, the value and the word hold no
/// parenthesis, and the word starts with a type word.
pub open spec fn field_parts(
    key: Seq<char>,
    value: Seq<char>,
    word: Seq<char>,
    description: Seq<char>,
) -> bool {
    &&& flat_part(key)
    &&& flat_part(value)
    &&& flat_part(word)
    &&& flat_part(description)
    &&& without(key, '"', ':')
    &&& without(value, '(', ')')
    &&& without(word, '(', ')')
    &&& label_of(word) is Some
}

/// A field line made of flat parts is flat.
pub proof fn lemma_field_line_flat(
    key: Seq<char>,
    value: Seq<char>,
    word: Seq<char>,
    description: Seq<char>,
)
    requires
        flat_part(key),
        flat_part(value),
        flat_part(word),
        flat_part(description),
    ensures
        flat_part(field_line(key, value, word, description)),
        field_line(key, value, word, description).len() > 0,
{
    let line = field_line(key, value, word, description);
    lemma_field_line_chars(key, value, word, description);
    let k = key.len() as int;
    let v = value.len() as int;
    let w = word.len() as int;
    assert forall|i: int| 0 <= i < line.len() implies is_ascii(#[trigger] line[i]) && line[i] != '{'
        && line[i] != '[' && line[i] != '}' && line[i] != '\n' && line[i] != '\r' by {
        if 1 <= i <= k {
            assert(line[i] == key[i - 1]);
        } else if k + 4 <= i < k + 4 + v {
            assert(line[i] == value[i - k - 4]);
        } else if k + v + 7 <= i < k + v + 7 + w {
            assert(line[i] == word[i - k - v - 7]);
        } else if k + v + w + 9 <= i {
            assert(line[i] == description[i - k - v - w - 9]);
        }
    }
}

/// Reading joined lines and one more line without a line feed behind it
/// gives the lines back.
pub proof fn lemma_line_seq_joined_tail(lines: Seq<Seq<char>>, tail: Seq<char>)
    requires
        forall|i: int| 0 <= i < lines.len() ==> one_line(#[trigger] lines[i]) && !ends_with_cr(lines[i]),
        one_line(tail),
        tail.len() > 0,
    ensures
        line_seq(joined(lines) + tail) == lines.push(tail),
    decreases lines.len(),
{
    let text = joined(lines) + tail;
    if lines.len() == 0 {
        assert(text =~= tail);
        lemma_next_of_skips(tail, '\n', '\n', 0, tail.len() as int);
        assert(line_seq(tail) =~= seq![tail]);
        assert(lines.push(tail) =~= seq![tail]);
    } else {
        let first = lines[0];
        let rest = lines.skip(1);
        lemma_joined_first(lines);
        assert(one_line(first) && !ends_with_cr(first));
        let n = first.len() as int;
        assert forall|k: int| 0 <= k < n implies #[trigger] text[k] != '\n' && text[k] != '\n' by {
            assert(text[k] == first[k]);
        }
        lemma_next_of_skips(text, '\n', '\n', 0, n);
        assert(text[n] == '\n');
        assert(next_of(text, '\n', '\n', 0) == n);
        assert(text.take(n) =~= first);
        assert(text.skip(n + 1) =~= joined(rest) + tail);
        assert forall|i: int| 0 <= i < rest.len() implies one_line(#[trigger] rest[i])
            && !ends_with_cr(rest[i]) by {
            assert(rest[i] == lines[i + 1]);
        }
        lemma_line_seq_joined_tail(rest, tail);
        assert(seq![first] + rest.push(tail) =~= lines.push(tail));
    }
}

/// The body of an object frame that holds the lines, each on a line of
/// its own behind the line of the opening brace.
pub open spec fn flat_body(lines: Seq<Seq<char>>) -> Seq<char> {
    seq!['\n'] + joined(lines)
}

/// The lines that bind fields in the body made of flat lines are the
/// lines, the last of them without the whitespace at its end.
pub proof fn lemma_block_lines_of_body(lines: Seq<Seq<char>>)
    requires
        lines.len() > 0,
        forall|i: int|
            0 <= i < lines.len() ==> flat_part(#[trigger] lines[i]) && lines[i].len() > 0
                && lines[i][0] == '"',
        trimmed_end(lines.last()).len() > 0,
    ensures
        block_lines(flat_body(lines)) == lines.drop_last().push(trimmed_end(lines.last())),
        is_flat(flat_body(lines)),
{
    let body = flat_body(lines);
    let init = lines.drop_last();
    let last = lines.last();
    let head = seq!['\n'] + joined(init);
    assert(last == lines[lines.len() - 1]);
    assert(body =~= head + last + seq!['\n']);
    // the end of the body
    lemma_skip_whitespace_back(last, last.len() as int);
    lemma_skip_whitespace_back_bounds(last, last.len() as int);
    let e = skip_whitespace_back(last, last.len() as int);
    let tail = trimmed_end(last);
    assert(tail == last.take(e));
    let p = head.len() + e;
    assert(body[p - 1] == last[e - 1]);
    assert forall|k: int| p <= k < body.len() implies is_whitespace(#[trigger] body[k]) by {
        if k < head.len() + last.len() {
            assert(body[k] == last[k - head.len()]);
        }
    }
    lemma_trimmed_end_at(body, p, body.len() as int);
    assert(trimmed_end(body) =~= head + tail);
    // its lines
    assert forall|i: int| 0 <= i < init.len() implies one_line(#[trigger] init[i]) && !ends_with_cr(
        init[i],
    ) by {
        assert(init[i] == lines[i]);
        assert(flat_part(lines[i]));
    }
    assert(one_line(tail)) by {
        assert forall|i: int| 0 <= i < tail.len() implies #[trigger] tail[i] != '\n' by {
            assert(tail[i] == last[i]);
        }
    }
    lemma_line_seq_joined_tail(init, tail);
    let text = head + tail;
    assert(text[0] == '\n');
    assert(next_of(text, '\n', '\n', 0) == 0);
    assert(text.take(0) =~= Seq::<char>::empty());
    assert(text.skip(1) =~= joined(init) + tail);
    let all = line_seq(text);
    assert(all =~= seq![Seq::<char>::empty()] + init.push(tail));
    assert(trimmed(all[0]) =~= Seq::<char>::empty());
    let rest = all.skip(1);
    assert(rest =~= init.push(tail));
    // the first line is no ellipsis
    let first = rest[0];
    assert(first.len() > 0 && first[0] == '"') by {
        if init.len() > 0 {
            assert(first == lines[0]);
        } else {
            assert(tail[0] == last[0]);
        }
    }
    assert(skip_whitespace(first, 0) == 0);
    assert(first.skip(0) =~= first);
    lemma_trimmed_end_behind(first, 0);
    assert(trimmed(first)[0] == '"');
    reveal_strlit("...");
    assert("..."@[0] == '.');
    // the body is flat
    assert forall|i: int| 0 <= i < body.len() implies is_ascii(#[trigger] body[i]) && body[i] != '{'
        && body[i] != '[' && body[i] != '}' by {
        lemma_joined_flat(lines, i - 1);
    }
}

/// Joined flat lines hold ASCII and no delimiter of a frame.
pub proof fn lemma_joined_flat(lines: Seq<Seq<char>>, i: int)
    requires
        forall|j: int| 0 <= j < lines.len() ==> flat_part(#[trigger] lines[j]),
    ensures
        0 <= i < joined(lines).len() ==> is_ascii(joined(lines)[i]) && joined(lines)[i] != '{'
            && joined(lines)[i] != '[' && joined(lines)[i] != '}',
    decreases lines.len(),
{
    if lines.len() > 0 {
        let before = joined(lines.drop_last());
        let last = lines.last();
        assert forall|j: int| 0 <= j < lines.drop_last().len() implies flat_part(
            #[trigger] lines.drop_last()[j],
        ) by {
            assert(lines.drop_last()[j] == lines[j]);
        }
        lemma_joined_flat(lines.drop_last(), i);
        assert(flat_part(lines[lines.len() - 1]));
        if before.len() <= i < before.len() + last.len() {
            assert(joined(lines)[i] == last[i - before.len()]);
        }
    }
}

/// The field lines made of the parts at each place.
pub open spec fn field_lines(
    keys: Seq<Seq<char>>,
    values: Seq<Seq<char>>,
    words: Seq<Seq<char>>,
    descriptions: Seq<Seq<char>>,
) -> Seq<Seq<char>> {
    Seq::new(keys.len(), |i: int| field_line(keys[i], values[i], words[i], descriptions[i]))
}

/// Among lines that name distinct keys, the type of a key is the
/// annotation of the line that names it, and no other key has a type.
proof fn lemma_field_type_of(
    lines: Seq<Seq<char>>,
    keys: Seq<Seq<char>>,
    words: Seq<Seq<char>>,
    key: Seq<char>,
)
    requires
        lines.len() == keys.len() == words.len(),
        forall|i: int|
            0 <= i < lines.len() ==> label_of(words[i]) is Some && labelled_field(
                #[trigger] lines[i],
            ) == Ok::<(Seq<char>, TypeAnnotation), ParseError>((keys[i], label_of(words[i])->Some_0)),
        forall|i: int, j: int| 0 <= i < j < keys.len() ==> #[trigger] keys[i] != #[trigger] keys[j],
    ensures
        forall|i: int|
            0 <= i < keys.len() && #[trigger] keys[i] == key ==> field_type(lines, key) == Some(
                label_of(words[i])->Some_0,
            ),
        !keys.contains(key) ==> field_type(lines, key) is None,
    decreases lines.len(),
{
    if lines.len() > 0 {
        let n = lines.len() - 1;
        assert(labelled_field(lines[n]) is Ok);
        assert forall|i: int| 0 <= i < n implies label_of(words.drop_last()[i]) is Some
            && labelled_field(#[trigger] lines.drop_last()[i]) == Ok::<
            (Seq<char>, TypeAnnotation),
            ParseError,
        >((keys.drop_last()[i], label_of(words.drop_last()[i])->Some_0)) by {
            assert(lines.drop_last()[i] == lines[i]);
        }
        assert forall|i: int, j: int| 0 <= i < j < n implies #[trigger] keys.drop_last()[i]
            != #[trigger] keys.drop_last()[j] by {
            assert(keys.drop_last()[i] == keys[i] && keys.drop_last()[j] == keys[j]);
        }
        lemma_field_type_of(lines.drop_last(), keys.drop_last(), words.drop_last(), key);
        assert forall|i: int| 0 <= i < keys.len() && #[trigger] keys[i] == key implies field_type(
            lines,
            key,
        ) == Some(label_of(words[i])->Some_0) by {
            if i < n {
                assert(keys.drop_last()[i] == key);
                assert(keys[i] != keys[n]);
            }
        }
        if !keys.contains(key) {
            assert(keys[n] != key);
            if keys.drop_last().contains(key) {
                let i = choose|i: int| 0 <= i < n && keys.drop_last()[i] == key;
                assert(keys[i] == key);
            }
        }
    }
}

/// A flat object written line by line, each line of the shape
/// `"<key>": <value>, (<word>) <description>` and the keys all different,
/// is read as an object that has one entry for each line: the key of the
/// line, bound to the annotation that the word of the line stands for. It
/// has no other entry.
pub proof fn law_flat_object_lines(
    keys: Seq<Seq<char>>,
    values: Seq<Seq<char>>,
    words: Seq<Seq<char>>,
    descriptions: Seq<Seq<char>>,
    rest: Seq<char>,
    depth: nat,
)
    requires
        keys.len() > 0,
        keys.len() == values.len() == words.len() == descriptions.len(),
        forall|i: int|
            0 <= i < keys.len() ==> field_parts(
                #[trigger] keys[i],
                values[i],
                words[i],
                descriptions[i],
            ),
        forall|i: int, j: int| 0 <= i < j < keys.len() ==> #[trigger] keys[i] != #[trigger] keys[j],
        all_ascii(rest),
    ensures
        ({
            let body = flat_body(field_lines(keys, values, words, descriptions));
            let s = seq!['{'] + body + seq!['}'] + rest;
            &&& frame(s, 1, '{', depth) matches Ok((Schema::Object(entries), end))
            &&& end == body.len() + 2
            &&& entries.len() == keys.len()
            &&& distinct_keys(entries)
            &&& forall|i: int|
                0 <= i < keys.len() ==> lookup(entries, #[trigger] keys[i]) == Some(
                    Schema::Leaf(label_of(words[i])->Some_0),
                )
            &&& forall|key: Seq<char>| #[trigger] has_key(entries, key) <==> keys.contains(key)
            &&& forall|i: int|
                0 <= i < keys.len() && words[i] == "numeric"@ ==> lookup(entries, #[trigger] keys[i])
                    == Some(
                    Schema::Leaf(TypeAnnotation { base: BaseType::Decimal, optional: false }),
                )
            &&& forall|i: int|
                0 <= i < keys.len() && words[i] == "string"@ ==> lookup(entries, #[trigger] keys[i])
                    == Some(Schema::Leaf(TypeAnnotation { base: BaseType::Text, optional: false }))
            &&& forall|i: int|
                0 <= i < keys.len() && words[i] == "boolean"@ ==> lookup(entries, #[trigger] keys[i])
                    == Some(Schema::Leaf(TypeAnnotation { base: BaseType::Bool, optional: false }))
        }),
{
    law_type_word_annotations();
    let lines = field_lines(keys, values, words, descriptions);
    let n = keys.len() as int;
    let body = flat_body(lines);
    assert forall|i: int| 0 <= i < n implies flat_part(#[trigger] lines[i]) && lines[i].len() > 0
        && lines[i][0] == '"' && labelled_field(lines[i]) == Ok::<
        (Seq<char>, TypeAnnotation),
        ParseError,
    >((keys[i], label_of(words[i])->Some_0)) by {
        assert(field_parts(keys[i], values[i], words[i], descriptions[i]));
        lemma_field_line(keys[i], values[i], words[i], descriptions[i]);
        lemma_field_line_flat(keys[i], values[i], words[i], descriptions[i]);
        lemma_field_line_chars(keys[i], values[i], words[i], descriptions[i]);
    }
    let last = lines.last();
    assert(last == lines[n - 1]);
    assert(field_parts(keys[n - 1], values[n - 1], words[n - 1], descriptions[n - 1]));
    lemma_field_line(keys[n - 1], values[n - 1], words[n - 1], descriptions[n - 1]);
    let tail = trimmed_end(last);
    assert(tail == trimmed(last));
    lemma_block_lines_of_body(lines);
    let block = block_lines(body);
    assert(block == lines.drop_last().push(tail));
    // the last line without the whitespace at its end is the same field line
    lemma_trimmed_end_behind(last, 0);
    assert(tail[tail.len() - 1] == last[tail.len() - 1]);
    lemma_trimmed_id(tail);
    assert(trimmed(tail) == trimmed(last));
    assert(labelled_field(tail) == labelled_field(last));
    assert forall|i: int| 0 <= i < block.len() implies label_of(words[i]) is Some && labelled_field(
        #[trigger] block[i],
    ) == Ok::<(Seq<char>, TypeAnnotation), ParseError>((keys[i], label_of(words[i])->Some_0)) by {
        assert(field_parts(keys[i], values[i], words[i], descriptions[i]));
        if i < n - 1 {
            assert(block[i] == lines[i]);
        }
    }
    law_flat_object(body, rest, depth);
    let s = seq!['{'] + body + seq!['}'] + rest;
    let entries = frame(s, 1, '{', depth)->Ok_0.0->Object_0;
    assert forall|i: int| 0 <= i < keys.len() implies lookup(entries, #[trigger] keys[i]) == Some(
        Schema::Leaf(label_of(words[i])->Some_0),
    ) by {
        lemma_field_type_of(block, keys, words, keys[i]);
    }
    assert forall|key: Seq<char>| #[trigger] has_key(entries, key) <==> keys.contains(key) by {
        lemma_field_type_of(block, keys, words, key);
        if keys.contains(key) {
            let i = choose|i: int| 0 <= i < keys.len() && keys[i] == key;
            assert(keys[i] == key);
        }
    }
    // one entry for each line
    let bs = leaf_bindings(block)->Ok_0;
    lemma_leaf_bindings_values(block);
    assert forall|i: int, j: int| 0 <= i < j < bs.len() implies (#[trigger] bs[i]).0 != (
    #[trigger] bs[j]).0 by {
        assert(labelled_field(block[i]) is Ok && labelled_field(block[j]) is Ok);
        assert(bs[i].0 == keys[i] && bs[j].0 == keys[j]);
    }
    lemma_merged_distinct_len(bs);
}

/// What the three type words stand for, alone and followed by
/// `, optional`.
pub proof fn law_type_word_annotations()
    ensures
        label_of("numeric"@) == Some(TypeAnnotation { base: BaseType::Decimal, optional: false }),
        label_of("string"@) == Some(TypeAnnotation { base: BaseType::Text, optional: false }),
        label_of("boolean"@) == Some(TypeAnnotation { base: BaseType::Bool, optional: false }),
        label_of("numeric, optional"@) == Some(
            TypeAnnotation { base: BaseType::Decimal, optional: true },
        ),
        label_of("string, optional"@) == Some(TypeAnnotation { base: BaseType::Text, optional: true }),
        label_of("boolean, optional"@) == Some(
            TypeAnnotation { base: BaseType::Bool, optional: true },
        ),
{
    reveal_strlit("numeric");
    reveal_strlit("string");
    reveal_strlit("boolean");
    reveal_strlit(", optional");
    reveal_strlit("numeric, optional");
    reveal_strlit("string, optional");
    reveal_strlit("boolean, optional");
    let optional = ", optional"@;
    assert("numeric"@.subrange(0, 7) =~= "numeric"@);
    assert("string"@.subrange(0, 6) =~= "string"@);
    assert("boolean"@.subrange(0, 7) =~= "boolean"@);
    assert("numeric, optional"@.subrange(0, 7) =~= "numeric"@);
    assert("string, optional"@.subrange(0, 6) =~= "string"@);
    assert("boolean, optional"@.subrange(0, 7) =~= "boolean"@);
    assert("string, optional"@.subrange(0, 7)[0] != "numeric"@[0]);
    assert("boolean, optional"@.subrange(0, 7)[0] != "numeric"@[0]);
    assert("boolean, optional"@.subrange(0, 6)[0] != "string"@[0]);
    assert("boolean"@.subrange(0, 7)[0] != "numeric"@[0]);
    assert("boolean"@.subrange(0, 6)[0] != "string"@[0]);
    assert("numeric, optional"@.subrange(7, 17) =~= optional);
    assert("string, optional"@.subrange(6, 16) =~= optional);
    assert("boolean, optional"@.subrange(7, 17) =~= optional);
    lemma_found_from("numeric"@, optional, 0);
    lemma_found_from("string"@, optional, 0);
    lemma_found_from("boolean"@, optional, 0);
    lemma_found_from("numeric, optional"@, optional, 0);
    lemma_found_from("string, optional"@, optional, 0);
    lemma_found_from("boolean, optional"@, optional, 0);
    assert(matches_at("numeric, optional"@, optional, 7));
    assert(matches_at("string, optional"@, optional, 6));
    assert(matches_at("boolean, optional"@, optional, 7));
}

} // verus!
