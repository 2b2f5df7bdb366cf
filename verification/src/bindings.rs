//! The bindings of an object frame while the frame is read.
//!
//! A `serde_json::Map` keeps the keys, in their order and each once, and
//! binds each key to the place of its value in a pool of nodes. When the
//! frame ends, the map is walked and the bindings are handed out in its
//! order.

use crate::json::{json_map_insert, json_map_items, json_map_new, map_walk, walk_views};
use crate::schema::{
    binding_views, inserted, lemma_inserted_values, merged, Binding, Schema, SchemaNode,
};
use crate::text::{from_chars, to_chars};
use vstd::prelude::*;

verus! {

/// The bindings of an object frame.
pub struct Bindings {
    order: serde_json::Map<String, serde_json::Value>,
    pool: Vec<Option<SchemaNode>>,
}

/// The schema at a place of the pool.
pub open spec fn schema_at(pool: Seq<Option<SchemaNode>>, place: Option<u64>) -> Schema {
    if place is Some && place->Some_0 < pool.len() && pool[place->Some_0 as int] is Some {
        pool[place->Some_0 as int]->Some_0@
    } else {
        Schema::Array(Seq::empty())
    }
}

/// The bindings that a walk of keys and places stands for.
pub open spec fn placed(walk: Seq<(Seq<char>, Option<u64>)>, pool: Seq<Option<SchemaNode>>) -> Seq<
    (Seq<char>, Schema),
> {
    Seq::new(walk.len(), |i: int| (walk[i].0, schema_at(pool, walk[i].1)))
}

/// Every key is bound to a place of the pool that holds a node, and no two
/// keys to the same place.
pub open spec fn places_hold(walk: Seq<(Seq<char>, Option<u64>)>, pool: Seq<Option<SchemaNode>>) -> bool {
    &&& forall|i: int|
        0 <= i < walk.len() ==> (#[trigger] walk[i]).1 is Some && walk[i].1->Some_0 < pool.len()
            && pool[walk[i].1->Some_0 as int] is Some
    &&& forall|i: int, j: int|
        0 <= i < j < walk.len() ==> (#[trigger] walk[i]).1 != (#[trigger] walk[j]).1
}

/// Binding a key to a new place of the pool is inserting the key with the
/// schema of the node at that place.
pub proof fn lemma_placed_inserted(
    walk: Seq<(Seq<char>, Option<u64>)>,
    pool: Seq<Option<SchemaNode>>,
    key: Seq<char>,
    node: SchemaNode,
)
    requires
        forall|i: int|
            0 <= i < walk.len() ==> (#[trigger] walk[i]).1 is Some && walk[i].1->Some_0 < pool.len(),
        pool.len() <= u64::MAX,
    ensures
        placed(inserted(walk, key, Some(pool.len() as u64)), pool.push(Some(node))) == inserted(
            placed(walk, pool),
            key,
            node@,
        ),
    decreases walk.len(),
{
    let place = Some(pool.len() as u64);
    let grown = pool.push(Some(node));
    let out = inserted(walk, key, place);
    assert(schema_at(grown, place) == node@);
    assert forall|i: int| 0 <= i < walk.len() implies schema_at(grown, (#[trigger] walk[i]).1)
        == schema_at(pool, walk[i].1) by {}
    if walk.len() == 0 {
        assert(placed(out, grown) =~= inserted(placed(walk, pool), key, node@));
    } else if walk[0].0 == key {
        assert(placed(walk, pool).skip(1) =~= placed(walk.skip(1), pool));
        assert(placed(out, grown) =~= inserted(placed(walk, pool), key, node@)) by {
            assert forall|i: int| 1 <= i < out.len() implies placed(out, grown)[i] == placed(
                walk,
                pool,
            )[i] by {
                assert(out[i] == walk[i]);
            }
        }
    } else if crate::schema::key_before(key, walk[0].0) {
        assert(placed(out, grown) =~= inserted(placed(walk, pool), key, node@)) by {
            assert forall|i: int| 1 <= i < out.len() implies placed(out, grown)[i] == placed(
                walk,
                pool,
            )[i - 1] by {
                assert(out[i] == walk[i - 1]);
            }
        }
    } else {
        let rest = walk.skip(1);
        assert forall|i: int| 0 <= i < rest.len() implies (#[trigger] rest[i]).1 is Some
            && rest[i].1->Some_0 < pool.len() by {
            assert(rest[i] == walk[i + 1]);
        }
        lemma_placed_inserted(rest, pool, key, node);
        assert(placed(walk, pool).skip(1) =~= placed(rest, pool));
        assert(placed(out, grown) =~= inserted(placed(walk, pool), key, node@)) by {
            let tail = inserted(rest, key, place);
            assert forall|i: int| 1 <= i < out.len() implies placed(out, grown)[i] == placed(
                tail,
                grown,
            )[i - 1] by {
                assert(out[i] == tail[i - 1]);
            }
            assert(out[0] == walk[0]);
        }
    }
}

impl Bindings {
    /// The bindings, in the order of their keys.
    pub closed spec fn view(&self) -> Seq<(Seq<char>, Schema)> {
        placed(map_walk(self.order), self.pool@)
    }

    /// The map and the pool fit together.
    pub closed spec fn wf(&self) -> bool {
        places_hold(map_walk(self.order), self.pool@)
    }

    /// No bindings.
    pub fn new() -> (r: Bindings)
        ensures
            r.wf(),
            r@ == Seq::<(Seq<char>, Schema)>::empty(),
    {
        let r = Bindings { order: json_map_new(), pool: Vec::new() };
        assert(r@ =~= Seq::<(Seq<char>, Schema)>::empty());
        r
    }

    /// Binds `key` to `value`: a binding of the same key is replaced, a new
    /// key takes its place in the order of keys.
    pub fn bind(&mut self, key: Vec<char>, value: SchemaNode)
        requires
            old(self).wf(),
        ensures
            final(self).wf(),
            final(self)@ == inserted(old(self)@, key@, value@),
    {
        let ghost walk = map_walk(self.order);
        let ghost pool = self.pool@;
        let place: u64 = self.pool.len() as u64;
        proof {
            lemma_placed_inserted(walk, pool, key@, value);
        }
        self.pool.push(Some(value));
        json_map_insert(&mut self.order, from_chars(key.as_slice()), place);
        proof {
            let out = map_walk(self.order);
            assert forall|i: int| 0 <= i < out.len() implies (#[trigger] out[i]).1 is Some
                && out[i].1->Some_0 < self.pool@.len() && self.pool@[out[i].1->Some_0 as int]
                is Some by {
                lemma_inserted_values(walk, key@, Some(place), i);
                if out[i] != (key@, Some(place)) {
                    let m = choose|m: int| 0 <= m < walk.len() && walk[m] == out[i];
                    assert(walk[m].1 is Some);
                }
            }
            assert forall|i: int, j: int| 0 <= i < j < out.len() implies (#[trigger] out[i]).1 != (
            #[trigger] out[j]).1 by {
                lemma_inserted_places(walk, key@, place, i, j);
            }
        }
    }

    /// Binds each of `bindings`, the first one first.
    pub fn bind_all(&mut self, bindings: Vec<Binding>)
        requires
            old(self).wf(),
        ensures
            final(self).wf(),
            final(self)@ == merged(old(self)@, binding_views(bindings@)),
    {
        broadcast use vstd::std_specs::vec::group_vec_axioms;

        let ghost all = binding_views(bindings@);
        let ghost items = bindings@;
        assert(all.take(0) =~= Seq::<(Seq<char>, Schema)>::empty());
        for b in it: bindings.into_iter()
            invariant
                it.seq() == items,
                all == binding_views(items),
                self.wf(),
                self@ == merged(old(self)@, all.take(it.index())),
        {
            proof {
                assert(all.take(it.index() + 1).drop_last() =~= all.take(it.index()));
                assert(all.take(it.index() + 1).last() == b@);
            }
            self.bind(b.key, b.value);
        }
        assert(all.take(all.len() as int) =~= all);
    }

    /// Hands the bindings out, in the order of their keys.
    pub fn into_entries(self) -> (r: Vec<Binding>)
        requires
            self.wf(),
        ensures
            binding_views(r@) == self@,
    {
        let ghost walk = map_walk(self.order);
        let ghost before = self.pool@;
        let items = json_map_items(&self.order);
        let mut pool = self.pool;
        let mut entries: Vec<Binding> = Vec::new();
        let mut i: usize = 0;
        while i < items.len()
            invariant
                i <= items.len(),
                walk_views(items@) == walk,
                places_hold(walk, before),
                pool@.len() == before.len(),
                forall|j: int|
                    i <= j < walk.len() ==> pool@[(#[trigger] walk[j]).1->Some_0 as int]
                        == before[walk[j].1->Some_0 as int],
                entries@.len() == i,
                forall|j: int|
                    0 <= j < i ==> (#[trigger] entries@[j])@ == placed(walk, before)[j],
            decreases items.len() - i,
        {
            assert(walk[i as int] == (items@[i as int].0@, items@[i as int].1));
            assert(walk[i as int].1 is Some);
            let held_len = pool.len();
            assert(walk[i as int].1->Some_0 < held_len);
            let place = match items[i].1 {
                Some(place) => place as usize,
                None => 0,
            };
            assert(place == walk[i as int].1->Some_0);
            let ghost held = pool@;
            pool.push(None);
            let node = pool.swap_remove(place);
            assert(pool@ =~= held.update(place as int, None));
            assert(node == before[place as int]);
            assert forall|j: int| i < j < walk.len() implies pool@[(#[trigger] walk[j]).1->Some_0 as int]
                == before[walk[j].1->Some_0 as int] by {
                assert(walk[i as int].1 != walk[j].1);
                let other = walk[j].1->Some_0 as int;
                assert(other != place);
                assert(0 <= other < held.len());
                assert(pool@[other] == held[other]);
            }
            match node {
                Some(value) => {
                    entries.push(Binding { key: to_chars(items[i].0.as_str()), value });
                },
                None => {
                    assert(false);
                },
            }
            i += 1;
        }
        assert(binding_views(entries@) =~= placed(walk, before));
        entries
    }
}

/// After an insertion at a new place no two keys are bound to the same
/// place.
pub proof fn lemma_inserted_places(
    walk: Seq<(Seq<char>, Option<u64>)>,
    key: Seq<char>,
    place: u64,
    i: int,
    j: int,
)
    requires
        forall|a: int, b: int|
            0 <= a < b < walk.len() ==> (#[trigger] walk[a]).1 != (#[trigger] walk[b]).1,
        forall|a: int| 0 <= a < walk.len() ==> (#[trigger] walk[a]).1 != Some(place),
        0 <= i < j < inserted(walk, key, Some(place)).len(),
    ensures
        inserted(walk, key, Some(place))[i].1 != inserted(walk, key, Some(place))[j].1,
    decreases walk.len(),
{
    let out = inserted(walk, key, Some(place));
    if walk.len() == 0 {
    } else if walk[0].0 == key {
        assert(out[j] == walk[j]);
        if i > 0 {
            assert(out[i] == walk[i]);
        }
    } else if crate::schema::key_before(key, walk[0].0) {
        assert(out[j] == walk[j - 1]);
        if i > 0 {
            assert(out[i] == walk[i - 1]);
        }
    } else {
        let rest = walk.skip(1);
        let tail = inserted(rest, key, Some(place));
        assert(out[j] == tail[j - 1]);
        assert forall|a: int, b: int| 0 <= a < b < rest.len() implies (#[trigger] rest[a]).1 != (
        #[trigger] rest[b]).1 by {
            assert(rest[a] == walk[a + 1] && rest[b] == walk[b + 1]);
        }
        assert forall|a: int| 0 <= a < rest.len() implies (#[trigger] rest[a]).1 != Some(place) by {
            assert(rest[a] == walk[a + 1]);
        }
        if i > 0 {
            assert(out[i] == tail[i - 1]);
            lemma_inserted_places(rest, key, place, i - 1, j - 1);
        } else {
            assert(out[0] == walk[0]);
            lemma_inserted_values(rest, key, Some(place), j - 1);
            if tail[j - 1] != (key, Some(place)) {
                let m = choose|m: int| 0 <= m < rest.len() && rest[m] == tail[j - 1];
                assert(rest[m] == walk[m + 1]);
            }
        }
    }
}

} // verus!
