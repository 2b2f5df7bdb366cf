//! The typed schema tree and its JSON text.
//!
//! `Schema` is the mathematical tree that contracts speak of; `SchemaNode` is
//! the value that the program holds, and `node@` is its `Schema`. An object
//! keeps its bindings ordered by key, each key once: in that order a
//! `serde_json::Map` walks them, which gathers the bindings of a frame.

use crate::json::{is_plain, json_quote, json_quoted, quoted};
use crate::text::from_chars;
use vstd::prelude::*;
use vstd::string::StringExecFns;

verus! {

/// The semantic type that a type word stands for.
#[derive(Clone, Copy, Debug, PartialEq, Eq, Structural)]
pub enum BaseType {
    /// `numeric`
    Decimal,
    /// `string`
    Text,
    /// `boolean`
    Bool,
}

/// What a leaf of the schema says of its field.
#[derive(Clone, Copy, Debug, PartialEq, Eq, Structural)]
pub struct TypeAnnotation {
    pub base: BaseType,
    /// The field may be absent.
    pub optional: bool,
}

/// The canonical name of a base type.
pub open spec fn base_name(base: BaseType) -> Seq<char> {
    match base {
        BaseType::Decimal => "Decimal"@,
        BaseType::Text => "String"@,
        BaseType::Bool => "bool"@,
    }
}

/// The canonical name of an annotation: the base type's name, inside
/// `Option<` and `>` where the field is optional.
pub open spec fn annotation_name(a: TypeAnnotation) -> Seq<char> {
    if a.optional {
        "Option<"@ + base_name(a.base) + ">"@
    } else {
        base_name(a.base)
    }
}

impl TypeAnnotation {
    /// The canonical name of the annotation.
    pub fn name(&self) -> (r: String)
        ensures
            r@ == annotation_name(*self),
    {
        let base = match self.base {
            BaseType::Decimal => "Decimal",
            BaseType::Text => "String",
            BaseType::Bool => "bool",
        };
        if self.optional {
            let mut r = "Option<".to_owned();
            r.append(base);
            r.append(">");
            r
        } else {
            base.to_owned()
        }
    }
}

/// A schema tree.
pub enum Schema {
    /// Named fields, as pairs of key and value.
    Object(Seq<(Seq<char>, Schema)>),
    /// Positional items.
    Array(Seq<Schema>),
    /// A typed field.
    Leaf(TypeAnnotation),
    /// An embedded data object, kept as its compact JSON text.
    Literal(Seq<char>),
}

/// One named field of an object.
#[derive(Debug, PartialEq, Eq)]
pub struct Binding {
    pub key: Vec<char>,
    pub value: SchemaNode,
}

/// A schema tree as the program holds it.
#[derive(Debug, PartialEq, Eq)]
pub enum SchemaNode {
    Object(Vec<Binding>),
    Array(Vec<SchemaNode>),
    Leaf(TypeAnnotation),
    Literal(String),
}

/// The schema that a node stands for.
pub open spec fn schema_of(node: SchemaNode) -> Schema
    decreases node,
{
    match node {
        SchemaNode::Object(entries) => Schema::Object(binding_views(entries@)),
        SchemaNode::Array(items) => Schema::Array(node_views(items@)),
        SchemaNode::Leaf(a) => Schema::Leaf(a),
        SchemaNode::Literal(t) => Schema::Literal(t@),
    }
}

/// The bindings that a vector of bindings stands for.
pub open spec fn binding_views(entries: Seq<Binding>) -> Seq<(Seq<char>, Schema)>
    decreases entries,
{
    Seq::new(
        entries.len(),
        |i: int|
            if 0 <= i < entries.len() {
                (entries[i].key@, schema_of(entries[i].value))
            } else {
                (Seq::empty(), Schema::Array(Seq::empty()))
            },
    )
}

/// The schemas that a vector of nodes stands for.
pub open spec fn node_views(items: Seq<SchemaNode>) -> Seq<Schema>
    decreases items,
{
    Seq::new(
        items.len(),
        |i: int|
            if 0 <= i < items.len() {
                schema_of(items[i])
            } else {
                Schema::Array(Seq::empty())
            },
    )
}

impl View for SchemaNode {
    type V = Schema;

    open spec fn view(&self) -> Schema {
        schema_of(*self)
    }
}

impl View for Binding {
    type V = (Seq<char>, Schema);

    open spec fn view(&self) -> (Seq<char>, Schema) {
        (self.key@, self.value@)
    }
}

// ---------------------------------------------------------------------------
// Ordered bindings
// ---------------------------------------------------------------------------

/// `a` comes before `b` in the order of keys: character by character, a
/// proper prefix first.
pub open spec fn key_before(a: Seq<char>, b: Seq<char>) -> bool
    decreases a.len(),
{
    if b.len() == 0 {
        false
    } else if a.len() == 0 {
        true
    } else if a[0] != b[0] {
        a[0] < b[0]
    } else {
        key_before(a.skip(1), b.skip(1))
    }
}

/// Each binding's key comes before the next one's.
pub open spec fn ordered(entries: Seq<(Seq<char>, Schema)>) -> bool {
    forall|i: int, j: int|
        0 <= i < j < entries.len() ==> key_before(#[trigger] entries[i].0, #[trigger] entries[j].0)
}

/// Every object of the tree keeps its bindings ordered by key.
pub open spec fn well_formed(n: Schema) -> bool
    decreases n,
{
    match n {
        Schema::Object(entries) => ordered(entries) && forall|i: int|
            0 <= i < entries.len() ==> well_formed(#[trigger] entries[i].1),
        Schema::Array(items) => forall|i: int|
            0 <= i < items.len() ==> well_formed(#[trigger] items[i]),
        Schema::Leaf(_) => true,
        Schema::Literal(_) => true,
    }
}

/// The value bound to `key`.
pub open spec fn lookup(entries: Seq<(Seq<char>, Schema)>, key: Seq<char>) -> Option<Schema>
    decreases entries.len(),
{
    if entries.len() == 0 {
        None
    } else if entries[0].0 == key {
        Some(entries[0].1)
    } else {
        lookup(entries.skip(1), key)
    }
}

/// `entries` with `key` bound to `value`: a binding of the same key is
/// replaced, a new key takes its place in the order of keys.
pub open spec fn inserted<V>(entries: Seq<(Seq<char>, V)>, key: Seq<char>, value: V) -> Seq<
    (Seq<char>, V),
>
    decreases entries.len(),
{
    if entries.len() == 0 {
        seq![(key, value)]
    } else if entries[0].0 == key {
        seq![(key, value)] + entries.skip(1)
    } else if key_before(key, entries[0].0) {
        seq![(key, value)] + entries
    } else {
        seq![entries[0]] + inserted(entries.skip(1), key, value)
    }
}

/// `entries` with each of `bindings` inserted in turn, so that of two
/// bindings of one key the later one stays.
pub open spec fn merged(
    entries: Seq<(Seq<char>, Schema)>,
    bindings: Seq<(Seq<char>, Schema)>,
) -> Seq<(Seq<char>, Schema)>
    decreases bindings.len(),
{
    if bindings.len() == 0 {
        entries
    } else {
        let last = bindings.last();
        inserted(merged(entries, bindings.drop_last()), last.0, last.1)
    }
}

/// `key` is bound in `entries`.
pub open spec fn has_key(entries: Seq<(Seq<char>, Schema)>, key: Seq<char>) -> bool {
    exists|i: int| 0 <= i < entries.len() && (#[trigger] entries[i]).0 == key
}

/// No key is bound twice in `entries`.
pub open spec fn distinct_keys(entries: Seq<(Seq<char>, Schema)>) -> bool {
    forall|i: int, j: int|
        0 <= i < j < entries.len() ==> (#[trigger] entries[i]).0 != (#[trigger] entries[j]).0
}

/// No key comes before itself.
pub proof fn lemma_key_before_irreflexive(a: Seq<char>)
    ensures
        !key_before(a, a),
    decreases a.len(),
{
    if a.len() > 0 {
        lemma_key_before_irreflexive(a.skip(1));
    }
}

/// The order of keys is transitive.
pub proof fn lemma_key_before_transitive(a: Seq<char>, b: Seq<char>, c: Seq<char>)
    requires
        key_before(a, b),
        key_before(b, c),
    ensures
        key_before(a, c),
    decreases a.len(),
{
    if a.len() > 0 && a[0] == b[0] && b[0] == c[0] {
        lemma_key_before_transitive(a.skip(1), b.skip(1), c.skip(1));
    }
}

/// Of two different keys one comes before the other.
pub proof fn lemma_key_before_total(a: Seq<char>, b: Seq<char>)
    requires
        a != b,
    ensures
        key_before(a, b) || key_before(b, a),
    decreases a.len(),
{
    if a.len() > 0 && b.len() > 0 && a[0] == b[0] {
        if a.skip(1) == b.skip(1) {
            assert(a =~= seq![a[0]] + a.skip(1));
            assert(b =~= seq![b[0]] + b.skip(1));
        }
        lemma_key_before_total(a.skip(1), b.skip(1));
    } else if a.len() == 0 && b.len() == 0 {
        assert(a =~= b);
    }
}

/// Ordered bindings bind no key twice.
pub proof fn lemma_ordered_distinct(entries: Seq<(Seq<char>, Schema)>)
    requires
        ordered(entries),
    ensures
        distinct_keys(entries),
{
    assert forall|i: int, j: int| 0 <= i < j < entries.len() implies (#[trigger] entries[i]).0 != (
    #[trigger] entries[j]).0 by {
        lemma_key_before_irreflexive(entries[i].0);
    }
}

/// The value of the last of `bindings` that binds `key`.
pub open spec fn last_bound(bindings: Seq<(Seq<char>, Schema)>, key: Seq<char>) -> Option<Schema>
    decreases bindings.len(),
{
    if bindings.len() == 0 {
        None
    } else if bindings.last().0 == key {
        Some(bindings.last().1)
    } else {
        last_bound(bindings.drop_last(), key)
    }
}

/// A key is bound exactly where `lookup` finds a value for it.
pub proof fn lemma_lookup_has_key(entries: Seq<(Seq<char>, Schema)>, key: Seq<char>)
    ensures
        has_key(entries, key) <==> lookup(entries, key) is Some,
    decreases entries.len(),
{
    if entries.len() > 0 {
        let rest = entries.skip(1);
        lemma_lookup_has_key(rest, key);
        if entries[0].0 != key {
            if has_key(entries, key) {
                let i = choose|i: int| 0 <= i < entries.len() && (#[trigger] entries[i]).0 == key;
                assert(rest[i - 1] == entries[i]);
            }
            if has_key(rest, key) {
                let i = choose|i: int| 0 <= i < rest.len() && (#[trigger] rest[i]).0 == key;
                assert(entries[i + 1] == rest[i]);
            }
        }
    }
}

/// After an insertion the inserted key has the inserted value, and every
/// other key has the value that it had.
pub proof fn lemma_inserted_lookup(
    entries: Seq<(Seq<char>, Schema)>,
    key: Seq<char>,
    value: Schema,
    other: Seq<char>,
)
    ensures
        lookup(inserted(entries, key, value), other) == if other == key {
            Some(value)
        } else {
            lookup(entries, other)
        },
    decreases entries.len(),
{
    let out = inserted(entries, key, value);
    if entries.len() == 0 {
        assert(out.skip(1) =~= entries);
    } else if entries[0].0 == key {
        assert(out.skip(1) =~= entries.skip(1));
    } else if key_before(key, entries[0].0) {
        assert(out.skip(1) =~= entries);
    } else {
        assert(out.skip(1) =~= inserted(entries.skip(1), key, value));
        lemma_inserted_lookup(entries.skip(1), key, value, other);
    }
}

/// An insertion keeps ordered bindings ordered.
pub proof fn lemma_inserted_ordered(entries: Seq<(Seq<char>, Schema)>, key: Seq<char>, value: Schema)
    requires
        ordered(entries),
    ensures
        ordered(inserted(entries, key, value)),
    decreases entries.len(),
{
    let out = inserted(entries, key, value);
    if entries.len() == 0 {
    } else if entries[0].0 == key {
        assert forall|i: int, j: int| 0 <= i < j < out.len() implies key_before(
            #[trigger] out[i].0,
            #[trigger] out[j].0,
        ) by {
            assert(out[j] == entries[j]);
            assert(out[i].0 == entries[i].0);
        }
    } else if key_before(key, entries[0].0) {
        assert forall|i: int, j: int| 0 <= i < j < out.len() implies key_before(
            #[trigger] out[i].0,
            #[trigger] out[j].0,
        ) by {
            assert(out[j] == entries[j - 1]);
            if i == 0 {
                if j > 1 {
                    lemma_key_before_transitive(key, entries[0].0, entries[j - 1].0);
                }
            } else {
                assert(out[i] == entries[i - 1]);
            }
        }
    } else {
        let rest = entries.skip(1);
        let tail = inserted(rest, key, value);
        assert forall|i: int, j: int| 0 <= i < j < rest.len() implies key_before(
            #[trigger] rest[i].0,
            #[trigger] rest[j].0,
        ) by {
            assert(rest[i] == entries[i + 1] && rest[j] == entries[j + 1]);
        }
        lemma_inserted_ordered(rest, key, value);
        lemma_key_before_total(key, entries[0].0);
        assert forall|i: int, j: int| 0 <= i < j < out.len() implies key_before(
            #[trigger] out[i].0,
            #[trigger] out[j].0,
        ) by {
            assert(out[j] == tail[j - 1]);
            if i == 0 {
                let k = tail[j - 1].0;
                if k != key {
                    lemma_inserted_lookup(rest, key, value, k);
                    lemma_lookup_has_key(tail, k);
                    lemma_lookup_has_key(rest, k);
                    let m = choose|m: int| 0 <= m < rest.len() && (#[trigger] rest[m]).0 == k;
                    assert(rest[m] == entries[m + 1]);
                }
            } else {
                assert(out[i] == tail[i - 1]);
            }
        }
    }
}

/// Merging keeps ordered bindings ordered.
pub proof fn lemma_merged_ordered(
    entries: Seq<(Seq<char>, Schema)>,
    bindings: Seq<(Seq<char>, Schema)>,
)
    requires
        ordered(entries),
    ensures
        ordered(merged(entries, bindings)),
    decreases bindings.len(),
{
    if bindings.len() > 0 {
        lemma_merged_ordered(entries, bindings.drop_last());
        lemma_inserted_ordered(
            merged(entries, bindings.drop_last()),
            bindings.last().0,
            bindings.last().1,
        );
    }
}

/// After a merge a key has the value of the last merged binding of that
/// key, and where none binds it, the value that it had.
pub proof fn lemma_merged_lookup(
    entries: Seq<(Seq<char>, Schema)>,
    bindings: Seq<(Seq<char>, Schema)>,
    key: Seq<char>,
)
    ensures
        lookup(merged(entries, bindings), key) == match last_bound(bindings, key) {
            Some(value) => Some(value),
            None => lookup(entries, key),
        },
    decreases bindings.len(),
{
    if bindings.len() > 0 {
        lemma_merged_lookup(entries, bindings.drop_last(), key);
        lemma_inserted_lookup(
            merged(entries, bindings.drop_last()),
            bindings.last().0,
            bindings.last().1,
            key,
        );
    }
}

/// The values of a merge are values of the bindings that went into it.
pub proof fn lemma_merged_values(
    entries: Seq<(Seq<char>, Schema)>,
    bindings: Seq<(Seq<char>, Schema)>,
    i: int,
)
    requires
        0 <= i < merged(entries, bindings).len(),
    ensures
        entries.contains(merged(entries, bindings)[i]) || bindings.contains(
            merged(entries, bindings)[i],
        ),
    decreases bindings.len(),
{
    if bindings.len() > 0 {
        let before = merged(entries, bindings.drop_last());
        let last = bindings.last();
        lemma_inserted_values(before, last.0, last.1, i);
        let e = merged(entries, bindings)[i];
        if e == last {
            assert(bindings[bindings.len() - 1] == e);
        } else {
            let m = choose|m: int| 0 <= m < before.len() && before[m] == e;
            lemma_merged_values(entries, bindings.drop_last(), m);
            if bindings.drop_last().contains(e) {
                let n = choose|n: int| 0 <= n < bindings.drop_last().len() && bindings.drop_last()[n] == e;
                assert(bindings[n] == e);
            }
        }
    }
}

/// What an insertion holds is the new binding or a binding that was there.
pub proof fn lemma_inserted_values<V>(
    entries: Seq<(Seq<char>, V)>,
    key: Seq<char>,
    value: V,
    i: int,
)
    requires
        0 <= i < inserted(entries, key, value).len(),
    ensures
        inserted(entries, key, value)[i] == (key, value) || entries.contains(
            inserted(entries, key, value)[i],
        ),
    decreases entries.len(),
{
    let out = inserted(entries, key, value);
    if entries.len() == 0 {
    } else if entries[0].0 == key {
        if i > 0 {
            assert(out[i] == entries[i]);
        }
    } else if key_before(key, entries[0].0) {
        if i > 0 {
            assert(out[i] == entries[i - 1]);
        }
    } else {
        if i == 0 {
            assert(out[0] == entries[0]);
        } else {
            let rest = entries.skip(1);
            assert(out[i] == inserted(rest, key, value)[i - 1]);
            lemma_inserted_values(rest, key, value, i - 1);
            if rest.contains(out[i]) {
                let m = choose|m: int| 0 <= m < rest.len() && rest[m] == out[i];
                assert(entries[m + 1] == out[i]);
            }
        }
    }
}

/// A key that some binding binds last is bound by a binding.
pub proof fn lemma_last_bound_key(bindings: Seq<(Seq<char>, Schema)>, key: Seq<char>)
    ensures
        last_bound(bindings, key) is Some ==> has_key(bindings, key),
    decreases bindings.len(),
{
    if bindings.len() > 0 {
        if bindings.last().0 == key {
            assert(bindings[bindings.len() - 1].0 == key);
        } else {
            lemma_last_bound_key(bindings.drop_last(), key);
            if has_key(bindings.drop_last(), key) {
                let i = choose|i: int|
                    0 <= i < bindings.drop_last().len() && (#[trigger] bindings.drop_last()[i]).0
                        == key;
                assert(bindings[i].0 == key);
            }
        }
    }
}

/// Inserting a key that is not bound makes the bindings one longer.
pub proof fn lemma_inserted_len(entries: Seq<(Seq<char>, Schema)>, key: Seq<char>, value: Schema)
    requires
        !has_key(entries, key),
    ensures
        inserted(entries, key, value).len() == entries.len() + 1,
    decreases entries.len(),
{
    if entries.len() > 0 {
        assert(entries[0].0 != key);
        if !key_before(key, entries[0].0) {
            let rest = entries.skip(1);
            if has_key(rest, key) {
                let i = choose|i: int| 0 <= i < rest.len() && (#[trigger] rest[i]).0 == key;
                assert(entries[i + 1].0 == key);
            }
            lemma_inserted_len(rest, key, value);
        }
    }
}

/// Merging bindings of distinct keys into no bindings gives as many
/// bindings.
pub proof fn lemma_merged_distinct_len(bindings: Seq<(Seq<char>, Schema)>)
    requires
        distinct_keys(bindings),
    ensures
        merged(Seq::empty(), bindings).len() == bindings.len(),
    decreases bindings.len(),
{
    if bindings.len() > 0 {
        let before = bindings.drop_last();
        let last = bindings.last();
        assert forall|i: int, j: int| 0 <= i < j < before.len() implies (#[trigger] before[i]).0 != (
        #[trigger] before[j]).0 by {
            assert(before[i] == bindings[i] && before[j] == bindings[j]);
        }
        lemma_merged_distinct_len(before);
        let m = merged(Seq::empty(), before);
        lemma_lookup_has_key(m, last.0);
        lemma_merged_lookup(Seq::empty(), before, last.0);
        lemma_last_bound_key(before, last.0);
        if has_key(before, last.0) {
            let i = choose|i: int| 0 <= i < before.len() && (#[trigger] before[i]).0 == last.0;
            assert(before[i] == bindings[i]);
            assert(bindings[bindings.len() - 1] == last);
        }
        lemma_inserted_len(m, last.0, last.1);
    }
}

// ---------------------------------------------------------------------------
// JSON text
// ---------------------------------------------------------------------------

/// The first `k` of the fields, each as its key token, a colon and its value
/// text, with a comma between two fields.
pub open spec fn fields_text(fields: Seq<(Seq<char>, Seq<char>)>, k: nat) -> Seq<char>
    decreases k,
{
    if k == 0 || k > fields.len() {
        Seq::empty()
    } else {
        fields_text(fields, (k - 1) as nat) + (if k > 1 {
            seq![',']
        } else {
            Seq::empty()
        }) + fields[k - 1].0 + seq![':'] + fields[k - 1].1
    }
}

/// The text of an object: its fields between braces.
pub open spec fn object_text(fields: Seq<(Seq<char>, Seq<char>)>) -> Seq<char> {
    seq!['{'] + fields_text(fields, fields.len()) + seq!['}']
}

/// The first `k` of the items, with a comma between two items.
pub open spec fn items_text(items: Seq<Seq<char>>, k: nat) -> Seq<char>
    decreases k,
{
    if k == 0 || k > items.len() {
        Seq::empty()
    } else {
        items_text(items, (k - 1) as nat) + (if k > 1 {
            seq![',']
        } else {
            Seq::empty()
        }) + items[k - 1]
    }
}

/// The text of an array: its items between brackets.
pub open spec fn array_text(items: Seq<Seq<char>>) -> Seq<char> {
    seq!['['] + items_text(items, items.len()) + seq![']']
}

/// The text of a leaf: the annotation's name between double quotes.
pub open spec fn leaf_text(a: TypeAnnotation) -> Seq<char> {
    seq!['"'] + annotation_name(a) + seq!['"']
}

/// The JSON string token of a key: a plain key between double quotes, any
/// other key as `serde_json` writes it.
pub open spec fn key_token(key: Seq<char>) -> Seq<char> {
    if is_plain(key) {
        quoted(key)
    } else {
        json_quoted(key)
    }
}

/// The compact JSON text of a schema. Every leaf is the name of its type as
/// a JSON string; a key is the JSON string token of its text.
pub open spec fn rendered(n: Schema) -> Seq<char>
    decreases n,
{
    match n {
        Schema::Object(entries) => object_text(rendered_fields(entries)),
        Schema::Array(items) => array_text(rendered_items(items)),
        Schema::Leaf(a) => leaf_text(a),
        Schema::Literal(t) => t,
    }
}

/// The key token and the value text of each binding.
pub open spec fn rendered_fields(entries: Seq<(Seq<char>, Schema)>) -> Seq<(Seq<char>, Seq<char>)>
    decreases entries,
{
    Seq::new(
        entries.len(),
        |i: int|
            if 0 <= i < entries.len() {
                (key_token(entries[i].0), rendered(entries[i].1))
            } else {
                (Seq::empty(), Seq::empty())
            },
    )
}

/// The text of each item.
pub open spec fn rendered_items(items: Seq<Schema>) -> Seq<Seq<char>>
    decreases items,
{
    Seq::new(
        items.len(),
        |i: int|
            if 0 <= i < items.len() {
                rendered(items[i])
            } else {
                Seq::empty()
            },
    )
}

/// The texts that a vector of key tokens and value texts holds.
pub open spec fn field_views(fields: Seq<(String, String)>) -> Seq<(Seq<char>, Seq<char>)> {
    Seq::new(fields.len(), |i: int| (fields[i].0@, fields[i].1@))
}

/// The texts that a vector of strings holds.
pub open spec fn string_views(items: Seq<String>) -> Seq<Seq<char>> {
    Seq::new(items.len(), |i: int| items[i]@)
}

/// Writes an object from the key token and the value text of each field.
pub fn write_object(fields: &Vec<(String, String)>) -> (r: String)
    ensures
        r@ == object_text(field_views(fields@)),
{
    let ghost all = field_views(fields@);
    let mut r = "{".to_owned();
    proof {
        reveal_strlit("{");
        assert(r@ =~= seq!['{'] + fields_text(all, 0));
    }
    let mut i: usize = 0;
    while i < fields.len()
        invariant
            i <= fields.len(),
            all == field_views(fields@),
            r@ == seq!['{'] + fields_text(all, i as nat),
        decreases fields.len() - i,
    {
        let ghost before = r@;
        if i > 0 {
            r.append(",");
        }
        r.append(fields[i].0.as_str());
        r.append(":");
        r.append(fields[i].1.as_str());
        proof {
            reveal_strlit(",");
            reveal_strlit(":");
            assert(all[i as int] == (fields@[i as int].0@, fields@[i as int].1@));
            assert(r@ =~= seq!['{'] + fields_text(all, (i + 1) as nat));
        }
        i += 1;
    }
    r.append("}");
    proof {
        reveal_strlit("}");
    }
    r
}

/// Writes an array from the text of each item.
pub fn write_array(items: &Vec<String>) -> (r: String)
    ensures
        r@ == array_text(string_views(items@)),
{
    let ghost all = string_views(items@);
    let mut r = "[".to_owned();
    proof {
        reveal_strlit("[");
        assert(r@ =~= seq!['['] + items_text(all, 0));
    }
    let mut i: usize = 0;
    while i < items.len()
        invariant
            i <= items.len(),
            all == string_views(items@),
            r@ == seq!['['] + items_text(all, i as nat),
        decreases items.len() - i,
    {
        if i > 0 {
            r.append(",");
        }
        r.append(items[i].as_str());
        proof {
            reveal_strlit(",");
            assert(all[i as int] == items@[i as int]@);
            assert(r@ =~= seq!['['] + items_text(all, (i + 1) as nat));
        }
        i += 1;
    }
    r.append("]");
    proof {
        reveal_strlit("]");
    }
    r
}

/// Writes a leaf.
pub fn write_leaf(a: &TypeAnnotation) -> (r: String)
    ensures
        r@ == leaf_text(*a),
{
    let mut r = "\"".to_owned();
    r.append(a.name().as_str());
    r.append("\"");
    proof {
        reveal_strlit("\"");
    }
    r
}

/// The compact JSON text of `node`.
pub fn render(node: &SchemaNode) -> (r: String)
    ensures
        r@ == rendered(node@),
    decreases node,
{
    match node {
        SchemaNode::Object(entries) => {
            let mut fields: Vec<(String, String)> = Vec::new();
            let mut i: usize = 0;
            while i < entries.len()
                invariant
                    i <= entries.len(),
                    node is Object,
                    node->Object_0 == *entries,
                    fields@.len() == i,
                    forall|j: int|
                        0 <= j < i ==> (#[trigger] fields@[j]).0@ == key_token(entries@[j].key@)
                            && fields@[j].1@ == rendered(entries@[j].value@),
                decreases entries.len() - i,
            {
                let key = from_chars(entries[i].key.as_slice());
                let token = json_quote(key.as_str());
                proof {
                    assert(decreases_to!(*node => node->Object_0));
                    assert(decreases_to!(*entries => entries[i as int]));
                }
                let value = render(&entries[i].value);
                fields.push((token, value));
                i += 1;
            }
            assert(field_views(fields@) =~= rendered_fields(node@->Object_0));
            write_object(&fields)
        },
        SchemaNode::Array(items) => {
            let mut texts: Vec<String> = Vec::new();
            let mut i: usize = 0;
            while i < items.len()
                invariant
                    i <= items.len(),
                    node is Array,
                    node->Array_0 == *items,
                    texts@.len() == i,
                    forall|j: int| 0 <= j < i ==> (#[trigger] texts@[j])@ == rendered(items@[j]@),
                decreases items.len() - i,
            {
                proof {
                    assert(decreases_to!(*node => node->Array_0));
                    assert(decreases_to!(*items => items[i as int]));
                }
                let text = render(&items[i]);
                texts.push(text);
                i += 1;
            }
            assert(string_views(texts@) =~= rendered_items(node@->Array_0));
            write_array(&texts)
        },
        SchemaNode::Leaf(a) => write_leaf(a),
        SchemaNode::Literal(t) => t.clone(),
    }
}

} // verus!
