//! Maps from field names to field values.

use vstd::prelude::*;

use crate::domain::names::NameSet;
use crate::domain::text;
use crate::domain::text::{compare_text, TextOrder};

verus! {

/// Whether the names of a list of pairs ascend, so that none occurs twice.
pub open spec fn ordered(pairs: Seq<(Seq<char>, Seq<char>)>) -> bool {
    forall|i: int, j: int|
        0 <= i < j < pairs.len() ==> text::comes_before(
            (#[trigger] pairs[i]).0,
            (#[trigger] pairs[j]).0,
        )
}

/// Whether a name occurs at a place of a list of pairs.
pub open spec fn stands_at(pairs: Seq<(Seq<char>, Seq<char>)>, name: Seq<char>, i: int) -> bool {
    0 <= i < pairs.len() && pairs[i].0 == name
}

/// The map that a list of pairs spells out.
pub open spec fn map_of(pairs: Seq<(Seq<char>, Seq<char>)>) -> Map<Seq<char>, Seq<char>> {
    Map::new(
        |name: Seq<char>| exists|i: int| stands_at(pairs, name, i),
        |name: Seq<char>| pairs[choose|i: int| stands_at(pairs, name, i)].1,
    )
}

/// What an ordered list says of the name at one of its places is what its map says.
proof fn lemma_map_at(pairs: Seq<(Seq<char>, Seq<char>)>, i: int)
    requires
        ordered(pairs),
        0 <= i < pairs.len(),
    ensures
        map_of(pairs).contains_key(pairs[i].0),
        map_of(pairs)[pairs[i].0] == pairs[i].1,
{
    let name = pairs[i].0;
    assert(stands_at(pairs, name, i));
    let k = choose|k: int| stands_at(pairs, name, k);
    if k < i {
        text::lemma_before_is_strict(pairs[k].0, pairs[i].0);
    } else if i < k {
        text::lemma_before_is_strict(pairs[i].0, pairs[k].0);
    }
}

/// A map has one ordered list: two ordered lists that spell out the same map
/// are equal.
pub proof fn lemma_ordered_list_is_canonical(
    p: Seq<(Seq<char>, Seq<char>)>,
    q: Seq<(Seq<char>, Seq<char>)>,
)
    requires
        ordered(p),
        ordered(q),
        map_of(p) == map_of(q),
    ensures
        p == q,
    decreases p.len(),
{
    if p.len() == 0 {
        if q.len() > 0 {
            lemma_map_at(q, 0);
            assert(map_of(p).contains_key(q[0].0));
        }
        assert(p =~= q);
    } else if q.len() == 0 {
        lemma_map_at(p, 0);
        assert(map_of(q).contains_key(p[0].0));
    } else {
        lemma_map_at(p, 0);
        lemma_map_at(q, 0);
        assert(p[0].0 == q[0].0) by {
            let i = choose|i: int| stands_at(q, p[0].0, i);
            let j = choose|j: int| stands_at(p, q[0].0, j);
            assert(map_of(q).contains_key(p[0].0));
            assert(map_of(p).contains_key(q[0].0));
            if i > 0 && j > 0 {
                assert(text::comes_before(q[0].0, q[i].0));
                assert(text::comes_before(p[0].0, p[j].0));
                text::lemma_before_is_strict(q[0].0, p[0].0);
            }
        }
        let p1 = p.drop_first();
        let q1 = q.drop_first();
        assert(ordered(p1)) by {
            assert forall|i: int, j: int| 0 <= i < j < p1.len() implies text::comes_before(
                (#[trigger] p1[i]).0,
                (#[trigger] p1[j]).0,
            ) by {
                assert(p1[i] == p[i + 1] && p1[j] == p[j + 1]);
            }
        }
        assert(ordered(q1)) by {
            assert forall|i: int, j: int| 0 <= i < j < q1.len() implies text::comes_before(
                (#[trigger] q1[i]).0,
                (#[trigger] q1[j]).0,
            ) by {
                assert(q1[i] == q[i + 1] && q1[j] == q[j + 1]);
            }
        }
        lemma_map_of_rest(p);
        lemma_map_of_rest(q);
        lemma_ordered_list_is_canonical(p1, q1);
        assert(p =~= seq![p[0]] + p1);
        assert(q =~= seq![q[0]] + q1);
    }
}

/// Without its first pair, an ordered list spells out the map without that name.
proof fn lemma_map_of_rest(p: Seq<(Seq<char>, Seq<char>)>)
    requires
        ordered(p),
        p.len() > 0,
    ensures
        map_of(p.drop_first()) == map_of(p).remove(p[0].0),
{
    let p1 = p.drop_first();
    assert(ordered(p1)) by {
        assert forall|i: int, j: int| 0 <= i < j < p1.len() implies text::comes_before(
            (#[trigger] p1[i]).0,
            (#[trigger] p1[j]).0,
        ) by {
            assert(p1[i] == p[i + 1] && p1[j] == p[j + 1]);
        }
    }
    assert forall|name: Seq<char>|
        map_of(p1).contains_key(name) <==> map_of(p).remove(p[0].0).contains_key(name) by {
        if map_of(p1).contains_key(name) {
            let i = choose|i: int| stands_at(p1, name, i);
            assert(stands_at(p, name, i + 1));
            assert(text::comes_before(p[0].0, p[i + 1].0));
            text::lemma_before_is_strict(p[0].0, name);
        }
        if map_of(p).contains_key(name) && name != p[0].0 {
            let i = choose|i: int| stands_at(p, name, i);
            assert(stands_at(p1, name, i - 1));
        }
    }
    assert forall|name: Seq<char>| #[trigger] map_of(p1).contains_key(name) implies map_of(p1)[name]
        == map_of(p)[name] by {
        let i = choose|i: int| stands_at(p1, name, i);
        lemma_map_at(p1, i);
        lemma_map_at(p, i + 1);
    }
    assert(map_of(p1) =~= map_of(p).remove(p[0].0));
}

/// The ordered list that spells out a map.
pub open spec fn listed(map: Map<Seq<char>, Seq<char>>) -> Seq<(Seq<char>, Seq<char>)> {
    choose|pairs: Seq<(Seq<char>, Seq<char>)>| ordered(pairs) && #[trigger] map_of(pairs) == map
}

/// An ordered list is the one that spells out its map.
pub proof fn lemma_ordered_list_is_listed(pairs: Seq<(Seq<char>, Seq<char>)>)
    requires
        ordered(pairs),
    ensures
        listed(map_of(pairs)) == pairs,
{
    lemma_ordered_list_is_canonical(listed(map_of(pairs)), pairs);
}

/// The place of a name in an ordered list that does not have it.
proof fn lemma_place(p: Seq<(Seq<char>, Seq<char>)>, name: Seq<char>) -> (at: int)
    requires
        ordered(p),
        !map_of(p).contains_key(name),
    ensures
        0 <= at <= p.len(),
        forall|k: int| 0 <= k < at ==> text::comes_before((#[trigger] p[k]).0, name),
        forall|k: int| at <= k < p.len() ==> text::comes_before(name, (#[trigger] p[k]).0),
    decreases p.len(),
{
    if p.len() == 0 {
        0
    } else {
        let last = p.len() - 1;
        assert(!stands_at(p, name, last));
        text::lemma_before_is_total(p[last].0, name);
        if text::comes_before(p[last].0, name) {
            assert forall|k: int| 0 <= k < p.len() implies text::comes_before(
                (#[trigger] p[k]).0,
                name,
            ) by {
                if k < last {
                    text::lemma_before_is_transitive(p[k].0, p[last].0, name);
                }
            }
            p.len() as int
        } else {
            let q = p.drop_last();
            if map_of(q).contains_key(name) {
                let i = choose|i: int| stands_at(q, name, i);
                assert(stands_at(p, name, i));
            }
            let at = lemma_place(q, name);
            assert forall|k: int| 0 <= k < last implies #[trigger] p[k] == q[k] by {}
            at
        }
    }
}

/// Every finite map is spelled out by an ordered list.
proof fn lemma_list_exists(map: Map<Seq<char>, Seq<char>>) -> (pairs: Seq<(Seq<char>, Seq<char>)>)
    requires
        map.dom().finite(),
    ensures
        ordered(pairs),
        map_of(pairs) == map,
    decreases map.dom().len(),
{
    if map.dom().is_empty() {
        let pairs = Seq::<(Seq<char>, Seq<char>)>::empty();
        assert(map_of(pairs) =~= map);
        pairs
    } else {
        let name = map.dom().choose();
        let value = map[name];
        let rest = lemma_list_exists(map.remove(name));
        let at = lemma_place(rest, name);
        let pairs = rest.insert(at, (name, value));
        assert forall|i: int, j: int| 0 <= i < j < pairs.len() implies text::comes_before(
            (#[trigger] pairs[i]).0,
            (#[trigger] pairs[j]).0,
        ) by {
            let p = if i < at {
                i
            } else {
                i - 1
            };
            let q = if j < at {
                j
            } else {
                j - 1
            };
            if i != at {
                assert(pairs[i] == rest[p]);
            }
            if j != at {
                assert(pairs[j] == rest[q]);
            }
        }
        lemma_map_after_insert(rest, pairs, at, false, name, value);
        assert(map.remove(name).insert(name, value) =~= map);
        pairs
    }
}

/// The list of a finite map is ordered and spells it out.
pub proof fn lemma_listed_spells_out(map: Map<Seq<char>, Seq<char>>)
    requires
        map.dom().finite(),
    ensures
        ordered(listed(map)),
        map_of(listed(map)) == map,
{
    let pairs = lemma_list_exists(map);
}

/// A list has finitely many names.
pub proof fn lemma_map_of_is_finite(pairs: Seq<(Seq<char>, Seq<char>)>)
    ensures
        map_of(pairs).dom().finite(),
{
    let names = Seq::new(pairs.len(), |i: int| pairs[i].0);
    assert forall|name: Seq<char>| map_of(pairs).dom().contains(name) implies names.to_set().contains(
        name,
    ) by {
        let i = choose|i: int| stands_at(pairs, name, i);
        assert(names[i] == name);
    }
    vstd::seq_lib::seq_to_set_is_finite(names);
    vstd::set_lib::lemma_set_subset_finite(names.to_set(), map_of(pairs).dom());
}

/// An ordered list has as many names as pairs.
pub proof fn lemma_map_of_ordered_len(pairs: Seq<(Seq<char>, Seq<char>)>)
    requires
        ordered(pairs),
    ensures
        map_of(pairs).dom().finite(),
        map_of(pairs).dom().len() == pairs.len(),
    decreases pairs.len(),
{
    lemma_map_of_is_finite(pairs);
    if pairs.len() == 0 {
        assert(map_of(pairs).dom() =~= Set::empty());
    } else {
        lemma_map_at(pairs, 0);
        lemma_map_of_rest(pairs);
        lemma_map_of_ordered_len(pairs.drop_first());
    }
}

/// A named value.
#[derive(Debug)]
pub struct Field {
    /// Name of the field.
    pub name: String,
    /// Value of the field, as text.
    pub value: String,
}

/// A map from field names to values, kept in ascending order of names.
#[derive(Debug)]
pub struct FieldMap {
    fields: Vec<Field>,
}

/// The pairs behind a list of fields.
spec fn pairs_of(fields: Seq<Field>) -> Seq<(Seq<char>, Seq<char>)> {
    Seq::new(fields.len(), |i: int| (fields[i].name@, fields[i].value@))
}

impl FieldMap {
    #[verifier::type_invariant]
    closed spec fn in_order(self) -> bool {
        ordered(pairs_of(self.fields@))
    }

    /// The names and values in ascending order of names.
    pub closed spec fn pairs(&self) -> Seq<(Seq<char>, Seq<char>)> {
        pairs_of(self.fields@)
    }

    /// The map from names to values.
    pub open spec fn view(&self) -> Map<Seq<char>, Seq<char>> {
        map_of(self.pairs())
    }

    /// The map without fields.
    pub fn new() -> (r: FieldMap)
        ensures
            r@ == Map::<Seq<char>, Seq<char>>::empty(),
            r.pairs() == Seq::<(Seq<char>, Seq<char>)>::empty(),
    {
        let r = FieldMap { fields: Vec::new() };
        assert(r.pairs() =~= Seq::<(Seq<char>, Seq<char>)>::empty());
        assert(r@ =~= Map::<Seq<char>, Seq<char>>::empty());
        r
    }

    /// Number of fields.
    pub fn len(&self) -> (r: usize)
        ensures
            r == self.pairs().len(),
            ordered(self.pairs()),
            self.pairs() == listed(self@),
    {
        proof {
            use_type_invariant(self);
            lemma_ordered_list_is_listed(self.pairs());
        }
        self.fields.len()
    }

    /// Whether there are no fields.
    pub fn is_empty(&self) -> (r: bool)
        ensures
            r == (self@ == Map::<Seq<char>, Seq<char>>::empty()),
            r == (self.pairs().len() == 0),
    {
        proof {
            if self.fields@.len() > 0 {
                assert(stands_at(self.pairs(), self.pairs()[0].0, 0));
                assert(self@.contains_key(self.pairs()[0].0));
            } else {
                assert(self@ =~= Map::<Seq<char>, Seq<char>>::empty());
            }
        }
        self.fields.is_empty()
    }

    /// The field at a place of the ascending list.
    pub fn field_at(&self, i: usize) -> (r: &Field)
        requires
            i < self.pairs().len(),
        ensures
            (r.name@, r.value@) == self.pairs()[i as int],
            self@.contains_key(r.name@),
            self@[r.name@] == r.value@,
    {
        proof {
            use_type_invariant(self);
            lemma_map_at(self.pairs(), i as int);
        }
        &self.fields[i]
    }

    /// The value of a field.
    pub fn get(&self, name: &str) -> (r: Option<&String>)
        ensures
            r is Some <==> self@.contains_key(name@),
            r matches Some(value) ==> value@ == self@[name@],
    {
        proof {
            use_type_invariant(self);
        }
        let mut i: usize = 0;
        while i < self.fields.len()
            invariant
                ordered(pairs_of(self.fields@)),
                i <= self.fields@.len(),
                forall|k: int| 0 <= k < i ==> self.pairs()[k].0 != name@,
            decreases self.fields@.len() - i,
        {
            if matches!(compare_text(self.fields[i].name.as_str(), name), TextOrder::Same) {
                proof {
                    lemma_map_at(self.pairs(), i as int);
                }
                return Some(&self.fields[i].value);
            }
            i += 1;
        }
        None
    }

    /// Sets the value of a field, whether or not it was there before.
    pub fn insert(&mut self, name: String, value: String)
        ensures
            final(self)@ == old(self)@.insert(name@, value@),
    {
        proof {
            use_type_invariant(&*self);
        }
        let mut fields: Vec<Field> = Vec::new();
        core::mem::swap(&mut fields, &mut self.fields);
        let ghost start = pairs_of(fields@);
        let ghost word = name@;
        let ghost told = value@;
        let mut at: usize = 0;
        let mut found: bool = false;
        while at < fields.len()
            invariant_except_break
                !found,
            invariant
                pairs_of(fields@) == start,
                fields@.len() == start.len(),
                ordered(start),
                at <= start.len(),
                name@ == word,
                forall|k: int| 0 <= k < at ==> text::comes_before((#[trigger] start[k]).0, word),
            ensures
                found ==> at < start.len() && start[at as int].0 == word,
                !found ==> at == start.len() || text::comes_before(word, start[at as int].0),
            decreases start.len() - at,
        {
            assert(start[at as int].0 == fields@[at as int].name@);
            match compare_text(fields[at].name.as_str(), name.as_str()) {
                TextOrder::Before => {
                    at += 1;
                },
                TextOrder::Same => {
                    found = true;
                    break;
                },
                TextOrder::After => {
                    break;
                },
            }
        }
        if found {
            fields[at].value = value;
        } else {
            fields.insert(at, Field { name, value });
        }
        proof {
            let pairs = pairs_of(fields@);
            if found {
                assert(pairs =~= start.update(at as int, (word, told)));
                assert forall|i: int, j: int| 0 <= i < j < pairs.len() implies text::comes_before(
                    (#[trigger] pairs[i]).0,
                    (#[trigger] pairs[j]).0,
                ) by {
                    assert(pairs[i].0 == start[i].0 && pairs[j].0 == start[j].0);
                }
            } else {
                assert(pairs =~= start.insert(at as int, (word, told)));
                assert forall|i: int, j: int| 0 <= i < j < pairs.len() implies text::comes_before(
                    (#[trigger] pairs[i]).0,
                    (#[trigger] pairs[j]).0,
                ) by {
                    if i == at {
                        if j > at + 1 {
                            text::lemma_before_is_transitive(
                                word,
                                start[at as int].0,
                                start[j - 1].0,
                            );
                        }
                    } else if j != at {
                        let p = if i < at {
                            i
                        } else {
                            i - 1
                        };
                        let q = if j < at {
                            j
                        } else {
                            j - 1
                        };
                        assert(pairs[i] == start[p] && pairs[j] == start[q]);
                    }
                }
            }
            lemma_map_after_insert(start, pairs, at as int, found, word, told);
        }
        self.fields = fields;
    }

    /// Takes over all fields of another map; where both have a field, the
    /// other's value counts.
    pub fn extend(&mut self, other: &FieldMap)
        ensures
            final(self)@ == old(self)@.union_prefer_right(other@),
    {
        let count = other.len();
        let mut i: usize = 0;
        let ghost start = self@;
        assert(start.union_prefer_right(map_of(other.pairs().take(0))) =~= start);
        while i < count
            invariant
                count == other.pairs().len(),
                ordered(other.pairs()),
                i <= count,
                self@ == start.union_prefer_right(map_of(other.pairs().take(i as int))),
            decreases count - i,
        {
            let field = other.field_at(i);
            self.insert(field.name.clone(), field.value.clone());
            proof {
                lemma_map_of_prefix(other.pairs(), i as int);
                assert(self@ =~= start.union_prefer_right(
                    map_of(other.pairs().take(i + 1)),
                ));
            }
            i += 1;
        }
        assert(other.pairs().take(count as int) =~= other.pairs());
    }

    /// The fields whose names are not in a set.
    pub fn without(&self, excluded: &NameSet) -> (r: FieldMap)
        ensures
            r@ == self@.remove_keys(excluded@),
    {
        let count = self.len();
        let mut kept = FieldMap::new();
        let mut i: usize = 0;
        assert(map_of(self.pairs().take(0)).remove_keys(excluded@) =~= kept@);
        while i < count
            invariant
                count == self.pairs().len(),
                ordered(self.pairs()),
                i <= count,
                kept@ == map_of(self.pairs().take(i as int)).remove_keys(excluded@),
            decreases count - i,
        {
            let field = self.field_at(i);
            if !excluded.contains(field.name.as_str()) {
                kept.insert(field.name.clone(), field.value.clone());
            }
            proof {
                lemma_map_of_prefix(self.pairs(), i as int);
                assert(kept@ =~= map_of(self.pairs().take(i + 1)).remove_keys(excluded@));
            }
            i += 1;
        }
        assert(self.pairs().take(count as int) =~= self.pairs());
        kept
    }
}

/// One more pair at the end of a prefix sets one more name.
proof fn lemma_map_of_prefix(pairs: Seq<(Seq<char>, Seq<char>)>, i: int)
    requires
        ordered(pairs),
        0 <= i < pairs.len(),
    ensures
        map_of(pairs.take(i + 1)) == map_of(pairs.take(i)).insert(pairs[i].0, pairs[i].1),
{
    let older = pairs.take(i);
    let newer = pairs.take(i + 1);
    assert(newer =~= older.insert(i, pairs[i]));
    assert(ordered(older) && ordered(newer)) by {
        assert forall|a: int, b: int| 0 <= a < b < older.len() implies text::comes_before(
            (#[trigger] older[a]).0,
            (#[trigger] older[b]).0,
        ) by {
            assert(older[a] == pairs[a] && older[b] == pairs[b]);
        }
        assert forall|a: int, b: int| 0 <= a < b < newer.len() implies text::comes_before(
            (#[trigger] newer[a]).0,
            (#[trigger] newer[b]).0,
        ) by {
            assert(newer[a] == pairs[a] && newer[b] == pairs[b]);
        }
    }
    lemma_map_after_insert(older, newer, i, false, pairs[i].0, pairs[i].1);
}

/// Replacing the value at a place, or putting a new pair at its place, sets one
/// name of the map.
proof fn lemma_map_after_insert(
    start: Seq<(Seq<char>, Seq<char>)>,
    pairs: Seq<(Seq<char>, Seq<char>)>,
    at: int,
    found: bool,
    name: Seq<char>,
    value: Seq<char>,
)
    requires
        ordered(start),
        ordered(pairs),
        found ==> 0 <= at < start.len() && start[at].0 == name && pairs == start.update(
            at,
            (name, value),
        ),
        !found ==> 0 <= at <= start.len() && pairs == start.insert(at, (name, value)),
    ensures
        map_of(pairs) == map_of(start).insert(name, value),
{
    let before = map_of(start);
    let after = map_of(pairs);
    lemma_map_at(pairs, at);
    assert forall|k: Seq<char>| after.contains_key(k) <==> before.insert(name, value).contains_key(
        k,
    ) by {
        if before.contains_key(k) {
            let i = choose|i: int| stands_at(start, k, i);
            if found || i < at {
                assert(stands_at(pairs, k, i));
            } else {
                assert(stands_at(pairs, k, i + 1));
            }
        }
        if after.contains_key(k) {
            let i = choose|i: int| stands_at(pairs, k, i);
            if i != at {
                if found || i < at {
                    assert(stands_at(start, k, i));
                } else {
                    assert(stands_at(start, k, i - 1));
                }
            }
        }
    }
    assert forall|k: Seq<char>| #[trigger] after.contains_key(k) && k != name implies after[k]
        == before[k] by {
        let i = choose|i: int| stands_at(pairs, k, i);
        lemma_map_at(pairs, i);
        if found || i < at {
            lemma_map_at(start, i);
        } else {
            lemma_map_at(start, i - 1);
        }
    }
    assert(after =~= before.insert(name, value));
}

impl Clone for FieldMap {
    fn clone(&self) -> (r: FieldMap)
        ensures
            r.pairs() == self.pairs(),
            r@ == self@,
    {
        proof {
            use_type_invariant(self);
        }
        let mut fields: Vec<Field> = Vec::new();
        let mut i: usize = 0;
        while i < self.fields.len()
            invariant
                i <= self.fields@.len(),
                fields@.len() == i,
                forall|k: int|
                    0 <= k < i ==> (#[trigger] fields@[k]).name@ == self.fields@[k].name@
                        && fields@[k].value@ == self.fields@[k].value@,
            decreases self.fields@.len() - i,
        {
            fields.push(
                Field {
                    name: self.fields[i].name.clone(),
                    value: self.fields[i].value.clone(),
                },
            );
            i += 1;
        }
        assert(pairs_of(fields@) =~= self.pairs());
        FieldMap { fields }
    }
}

/// Another value for a name that a map has changes one pair of its list, and keeps the
/// place of that pair.
pub proof fn lemma_listed_after_change(
    map: Map<Seq<char>, Seq<char>>,
    name: Seq<char>,
    value: Seq<char>,
) -> (at: int)
    requires
        map.dom().finite(),
        map.contains_key(name),
    ensures
        0 <= at < listed(map).len(),
        listed(map)[at] == (name, map[name]),
        listed(map.insert(name, value)) == listed(map).update(at, (name, value)),
{
    lemma_listed_spells_out(map);
    let p = listed(map);
    let at = choose|i: int| stands_at(p, name, i);
    assert(map_of(p).contains_key(name));
    lemma_map_at(p, at);
    let q = p.update(at, (name, value));
    assert forall|i: int, j: int| 0 <= i < j < q.len() implies text::comes_before(
        (#[trigger] q[i]).0,
        (#[trigger] q[j]).0,
    ) by {
        assert(q[i].0 == p[i].0 && q[j].0 == p[j].0);
    }
    lemma_map_after_insert(p, q, at, true, name, value);
    lemma_ordered_list_is_listed(q);
    at
}

/// The list of a finite map has a pair for every name of the map, with its value, and
/// no other pair.
pub proof fn lemma_list_holds_the_map(map: Map<Seq<char>, Seq<char>>, name: Seq<char>)
    requires
        map.dom().finite(),
    ensures
        map.contains_key(name) <==> exists|i: int|
            0 <= i < listed(map).len() && (#[trigger] listed(map)[i]).0 == name,
        map.contains_key(name) ==> listed(map).contains((name, map[name])),
{
    lemma_listed_spells_out(map);
    let p = listed(map);
    if map.contains_key(name) {
        assert(map_of(p).contains_key(name));
        let i = choose|i: int| stands_at(p, name, i);
        lemma_map_at(p, i);
        assert(p[i] == (name, map[name]));
    }
    assert forall|i: int| 0 <= i < p.len() && (#[trigger] p[i]).0 == name implies map.contains_key(
        name,
    ) by {
        assert(stands_at(p, name, i));
        assert(map_of(p).contains_key(name));
    }
}

} // verus!
