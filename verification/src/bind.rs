//! Field binding: from the text buffered in an object frame, and the nested
//! value that may follow it, to named schema entries.

use crate::error::{fails_with, ParseError};
use crate::label::{before_first, label_identifier, labelled_field};
use crate::schema::{binding_views, Binding, Schema, SchemaNode};
use crate::text::{
    contains, find_either, holds, line_seq, lines, same_chars, strip, stripped, to_chars, trim,
    trim_end, trimmed, trimmed_end, views,
};
use vstd::prelude::*;
use vstd::slice::{slice_subrange, slice_to_vec};

verus! {

/// A first line that is no field: blank, or the description of the object
/// that the frame stands for.
pub open spec fn is_noise(line: Seq<char>) -> bool {
    trimmed(line).len() == 0 || holds(trimmed(line), "(object)"@)
}

/// The lines of a buffered block that bind fields. Trailing whitespace does
/// not count; a first line that is noise is dropped; and where the first line
/// that is left is the ellipsis marker `...`, the marker stands for the whole
/// block.
pub open spec fn block_lines(viewed: Seq<char>) -> Seq<Seq<char>> {
    let all = line_seq(trimmed_end(viewed));
    let rest = if all.len() > 0 && is_noise(all[0]) {
        all.skip(1)
    } else {
        all
    };
    if rest.len() > 0 && trimmed(rest[0]) == "..."@ {
        seq![trimmed(rest[0])]
    } else {
        rest
    }
}

/// The leaf that each line binds, in the order of the lines; the failure of
/// the first line that is no field line, where there is one.
pub open spec fn leaf_bindings(lines: Seq<Seq<char>>) -> Result<Seq<(Seq<char>, Schema)>, ParseError>
    decreases lines.len(),
{
    if lines.len() == 0 {
        Ok(Seq::empty())
    } else {
        match leaf_bindings(lines.drop_last()) {
            Err(e) => Err(e),
            Ok(bs) => match labelled_field(lines.last()) {
                Err(e) => Err(e),
                Ok((key, a)) => Ok(bs.push((key, Schema::Leaf(a)))),
            },
        }
    }
}

/// The key that the last line before a nested value names: the line's text
/// before its first colon, without whitespace around the line and without
/// the double quotes at the ends of the key.
pub open spec fn nested_key(line: Seq<char>) -> Seq<char> {
    stripped(before_first(trimmed(line), ':'), '"')
}

/// The bindings of a buffered block. Without a nested value every line binds
/// a leaf. With one, the last line names the key of the nested value and the
/// lines before it bind leaves; a block without lines then fails.
pub open spec fn bindings(viewed: Seq<char>, nested: Option<Schema>) -> Result<
    Seq<(Seq<char>, Schema)>,
    ParseError,
> {
    let ls = block_lines(viewed);
    match nested {
        None => leaf_bindings(ls),
        Some(node) => if ls.len() == 0 {
            Err(ParseError::MalformedField)
        } else {
            match leaf_bindings(ls.drop_last()) {
                Err(e) => Err(e),
                Ok(bs) => Ok(bs.push((nested_key(ls.last()), node))),
            }
        },
    }
}

/// The schema of an optional node.
pub open spec fn optional_view(node: Option<SchemaNode>) -> Option<Schema> {
    match node {
        Some(n) => Some(n@),
        None => None,
    }
}

/// Whether a first line is no field.
pub fn line_is_noise(line: &[char]) -> (r: bool)
    ensures
        r == is_noise(line@),
{
    let t = trim(line);
    t.len() == 0 || contains(t, to_chars("(object)").as_slice())
}

/// The lines of a buffered block that bind fields.
pub fn clean_viewed<'a>(raw_viewed: &'a [char]) -> (r: Vec<&'a [char]>)
    ensures
        views(r@) == block_lines(raw_viewed@),
{
    let mut ident_labels = lines(trim_end(raw_viewed));
    if ident_labels.len() > 0 && line_is_noise(ident_labels[0]) {
        let ghost all = ident_labels@;
        ident_labels.remove(0);
        assert(views(ident_labels@) =~= views(all).skip(1));
    }
    if ident_labels.len() > 0 {
        let first = trim(ident_labels[0]);
        let ellipsis = to_chars("...");
        if same_chars(first, ellipsis.as_slice()) {
            let mut marker: Vec<&'a [char]> = Vec::new();
            marker.push(first);
            assert(views(marker@) =~= seq![first@]);
            return marker;
        }
    }
    ident_labels
}

/// Binds the lines of a buffered block, and the nested value that follows
/// the block where there is one. The command's name has no part in the
/// result.
pub fn bind_idents_labels(
    viewed: &[char],
    cmd_name: &[char],
    inner_value: Option<SchemaNode>,
) -> (r: Result<Vec<Binding>, ParseError>)
    ensures
        match bindings(viewed@, optional_view(inner_value)) {
            Ok(bs) => r matches Ok(v) && binding_views(v@) == bs,
            Err(e) => fails_with(r, e),
        },
{
    let cleaned = clean_viewed(viewed);
    let ghost ls = views(cleaned@);
    let leaves: usize = match &inner_value {
        None => cleaned.len(),
        Some(_) => {
            if cleaned.len() == 0 {
                return Err(ParseError::MalformedField);
            }
            cleaned.len() - 1
        },
    };
    let mut bound: Vec<Binding> = Vec::new();
    let mut i: usize = 0;
    assert(ls.take(0) =~= Seq::<Seq<char>>::empty());
    assert(binding_views(bound@) =~= Seq::<(Seq<char>, Schema)>::empty());
    while i < leaves
        invariant
            i <= leaves <= cleaned.len(),
            leaves == if inner_value is Some { cleaned.len() - 1 } else { cleaned.len() as int },
            ls == views(cleaned@),
            ls == block_lines(viewed@),
            leaf_bindings(ls.take(i as int)) == Ok::<Seq<(Seq<char>, Schema)>, ParseError>(
                binding_views(bound@),
            ),
        decreases leaves - i,
    {
        let ghost before = binding_views(bound@);
        proof {
            assert(ls.take(i + 1).drop_last() =~= ls.take(i as int));
            assert(ls.take(i + 1).last() == cleaned@[i as int]@);
        }
        match label_identifier(cleaned[i], cmd_name) {
            Err(e) => {
                proof {
                    assert(ls.take(leaves as int).take(i + 1) =~= ls.take(i + 1));
                    lemma_leaf_bindings_fail(ls.take(leaves as int), i + 1);
                    if inner_value is Some {
                        assert(ls.drop_last() =~= ls.take(leaves as int));
                    } else {
                        assert(ls.take(leaves as int) =~= ls);
                    }
                }
                return Err(e);
            },
            Ok((key, a)) => {
                bound.push(Binding { key, value: SchemaNode::Leaf(a) });
                assert(binding_views(bound@) =~= before.push((key@, Schema::Leaf(a))));
            },
        }
        i += 1;
    }
    match inner_value {
        None => {
            assert(ls.take(leaves as int) =~= ls);
        },
        Some(node) => {
            let ghost before = binding_views(bound@);
            assert(ls.drop_last() =~= ls.take(leaves as int));
            let last = trim(cleaned[leaves]);
            let colon = find_either(last, ':', ':', 0);
            let key = slice_to_vec(strip(slice_subrange(last, 0, colon), '"'));
            bound.push(Binding { key, value: node });
            assert(binding_views(bound@) =~= before.push((key@, node@)));
        },
    }
    Ok(bound)
}

/// Where the first `k` lines fail, all the lines fail in the same way.
pub proof fn lemma_leaf_bindings_fail(lines: Seq<Seq<char>>, k: int)
    requires
        0 <= k <= lines.len(),
        leaf_bindings(lines.take(k)) is Err,
    ensures
        leaf_bindings(lines) == leaf_bindings(lines.take(k)),
    decreases lines.len(),
{
    if k < lines.len() {
        assert(lines.drop_last().take(k) =~= lines.take(k));
        lemma_leaf_bindings_fail(lines.drop_last(), k);
    } else {
        assert(lines.take(k) =~= lines);
    }
}

/// Lines bind leaves only.
pub proof fn lemma_leaf_bindings_values(lines: Seq<Seq<char>>)
    ensures
        leaf_bindings(lines) matches Ok(bs) ==> bs.len() == lines.len() && forall|i: int|
            0 <= i < bs.len() ==> (#[trigger] bs[i]).1 is Leaf && labelled_field(lines[i]) == Ok::<
                (Seq<char>, crate::schema::TypeAnnotation),
                ParseError,
            >((bs[i].0, bs[i].1->Leaf_0)),
    decreases lines.len(),
{
    if lines.len() > 0 {
        lemma_leaf_bindings_values(lines.drop_last());
    }
}

/// Lines that are all field lines bind.
pub proof fn lemma_leaf_bindings_succeed(lines: Seq<Seq<char>>)
    requires
        forall|i: int| 0 <= i < lines.len() ==> labelled_field(#[trigger] lines[i]) is Ok,
    ensures
        leaf_bindings(lines) is Ok,
    decreases lines.len(),
{
    if lines.len() > 0 {
        assert forall|i: int| 0 <= i < lines.drop_last().len() implies labelled_field(
            #[trigger] lines.drop_last()[i],
        ) is Ok by {
            assert(lines.drop_last()[i] == lines[i]);
        }
        lemma_leaf_bindings_succeed(lines.drop_last());
        assert(labelled_field(lines[lines.len() - 1]) is Ok);
    }
}

/// A block binds leaves and, last, the nested value where there is one.
pub proof fn lemma_bindings_values(viewed: Seq<char>, nested: Option<Schema>)
    ensures
        bindings(viewed, nested) matches Ok(bs) ==> forall|i: int|
            0 <= i < bs.len() ==> (#[trigger] bs[i]).1 is Leaf || nested == Some(bs[i].1),
{
    let ls = block_lines(viewed);
    match nested {
        None => {
            lemma_leaf_bindings_values(ls);
        },
        Some(node) => {
            if ls.len() > 0 {
                lemma_leaf_bindings_values(ls.drop_last());
            }
        },
    }
}

} // verus!
