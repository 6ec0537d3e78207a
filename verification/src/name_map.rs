//! A small map from names to values, kept as a list in which no name
//! occurs twice.
use vstd::prelude::*;

verus! {

/// A map from names to values.
pub struct NameMap<V> {
    slots: Vec<(String, V)>,
}

spec fn listed<V>(slots: Seq<(String, V)>, name: Seq<char>) -> bool {
    exists|i: int| 0 <= i < slots.len() && (#[trigger] slots[i]).0@ == name
}

spec fn place_of<V>(slots: Seq<(String, V)>, name: Seq<char>) -> int {
    choose|i: int| 0 <= i < slots.len() && (#[trigger] slots[i]).0@ == name
}

spec fn distinct<V>(slots: Seq<(String, V)>) -> bool {
    forall|i: int, j: int|
        0 <= i < j < slots.len() ==> (#[trigger] slots[i]).0@ != (#[trigger] slots[j]).0@
}

spec fn mapping<V>(slots: Seq<(String, V)>) -> Map<Seq<char>, V> {
    Map::new(|name: Seq<char>| listed(slots, name), |name: Seq<char>| slots[place_of(slots, name)].1)
}

proof fn lemma_place_of<V>(slots: Seq<(String, V)>, i: int)
    requires
        distinct(slots),
        0 <= i < slots.len(),
    ensures
        listed(slots, slots[i].0@),
        place_of(slots, slots[i].0@) == i,
        mapping(slots).contains_key(slots[i].0@),
        mapping(slots)[slots[i].0@] == slots[i].1,
{
    let name = slots[i].0@;
    assert(listed(slots, name));
    let j = place_of(slots, name);
    if j < i {
        assert(slots[j].0@ != slots[i].0@);
    } else if i < j {
        assert(slots[i].0@ != slots[j].0@);
    }
}

proof fn lemma_mapping_push<V>(slots: Seq<(String, V)>, slot: (String, V))
    requires
        distinct(slots),
        !listed(slots, slot.0@),
    ensures
        distinct(slots.push(slot)),
        mapping(slots.push(slot)) == mapping(slots).insert(slot.0@, slot.1),
{
    let more = slots.push(slot);
    assert forall|i: int, j: int| 0 <= i < j < more.len() implies (#[trigger] more[i]).0@ != (
    #[trigger] more[j]).0@ by {
        assert(more[i] == slots[i]);
        if j < slots.len() {
            assert(more[j] == slots[j]);
        }
    }
    let a = mapping(more);
    let b = mapping(slots).insert(slot.0@, slot.1);
    assert forall|name: Seq<char>| a.contains_key(name) <==> b.contains_key(name) by {
        if listed(more, name) {
            let i = place_of(more, name);
            if i < slots.len() {
                assert(more[i] == slots[i]);
            }
        }
        if listed(slots, name) {
            let i = place_of(slots, name);
            assert(more[i] == slots[i]);
        }
        if name == slot.0@ {
            assert(more[slots.len() as int] == slot);
        }
    }
    assert forall|name: Seq<char>| a.contains_key(name) implies a[name] == b[name] by {
        let i = place_of(more, name);
        lemma_place_of(more, i);
        if i < slots.len() {
            assert(more[i] == slots[i]);
            lemma_place_of(slots, i);
        }
    }
    assert(a =~= b);
}

proof fn lemma_mapping_update<V>(slots: Seq<(String, V)>, i: int, slot: (String, V))
    requires
        distinct(slots),
        0 <= i < slots.len(),
        slot.0@ == slots[i].0@,
    ensures
        distinct(slots.update(i, slot)),
        mapping(slots.update(i, slot)) == mapping(slots).insert(slot.0@, slot.1),
{
    let next = slots.update(i, slot);
    assert forall|a: int, b: int| 0 <= a < b < next.len() implies (#[trigger] next[a]).0@ != (
    #[trigger] next[b]).0@ by {
        assert(next[a].0@ == slots[a].0@);
        assert(next[b].0@ == slots[b].0@);
    }
    let x = mapping(next);
    let y = mapping(slots).insert(slot.0@, slot.1);
    assert forall|name: Seq<char>| x.contains_key(name) <==> y.contains_key(name) by {
        if listed(next, name) {
            let k = place_of(next, name);
            assert(slots[k].0@ == name);
        }
        if listed(slots, name) {
            let k = place_of(slots, name);
            assert(next[k].0@ == name);
        }
    }
    lemma_place_of(slots, i);
    assert forall|name: Seq<char>| x.contains_key(name) implies x[name] == y[name] by {
        let k = place_of(next, name);
        lemma_place_of(next, k);
        if k != i {
            assert(next[k] == slots[k]);
            lemma_place_of(slots, k);
        }
    }
    assert(x =~= y);
}

/// The map in which every name of `names` stands for `value`; other
/// names stand for what they stood for.
pub open spec fn reset_names<V>(map: Map<Seq<char>, V>, names: Seq<Seq<char>>, value: V) -> Map<
    Seq<char>,
    V,
> {
    Map::new(
        |name: Seq<char>| map.contains_key(name) || names.contains(name),
        |name: Seq<char>|
            if names.contains(name) {
                value
            } else {
                map[name]
            },
    )
}

impl<V> View for NameMap<V> {
    type V = Map<Seq<char>, V>;

    closed spec fn view(&self) -> Map<Seq<char>, V> {
        mapping(self.slots@)
    }
}

impl<V> NameMap<V> {
    /// No name is listed twice.
    pub closed spec fn wf(&self) -> bool {
        distinct(self.slots@)
    }

    /// The empty map.
    pub fn new() -> (map: Self)
        ensures
            map.wf(),
            map@ == Map::<Seq<char>, V>::empty(),
    {
        let map = NameMap { slots: Vec::new() };
        assert(map@ =~= Map::<Seq<char>, V>::empty());
        map
    }

    fn find(&self, name: &String) -> (found: Option<usize>)
        ensures
            match found {
                Some(i) => i < self.slots.len() && self.slots[i as int].0@ == name@,
                None => !listed(self.slots@, name@),
            },
    {
        let mut i: usize = 0;
        while i < self.slots.len()
            invariant
                i <= self.slots.len(),
                forall|j: int| 0 <= j < i ==> (#[trigger] self.slots[j]).0@ != name@,
            decreases self.slots.len() - i,
        {
            if self.slots[i].0 == *name {
                return Some(i);
            }
            i += 1;
        }
        None
    }

    /// Whether the map holds `name`.
    pub fn contains_key(&self, name: &str) -> (found: bool)
        ensures
            found == self@.contains_key(name@),
    {
        let wanted = name.to_owned();
        self.find(&wanted).is_some()
    }

    /// The value under `name`, if there is one.
    pub fn get(&self, name: &str) -> (value: Option<&V>)
        requires
            self.wf(),
        ensures
            match value {
                Some(value) => self@.contains_key(name@) && *value == self@[name@],
                None => !self@.contains_key(name@),
            },
    {
        let wanted = name.to_owned();
        match self.find(&wanted) {
            Some(i) => {
                proof {
                    lemma_place_of(self.slots@, i as int);
                }
                Some(&self.slots[i].1)
            },
            None => None,
        }
    }

    /// Puts `value` under `name`, in place of what was there.
    pub fn insert(&mut self, name: &str, value: V)
        requires
            old(self).wf(),
        ensures
            final(self).wf(),
            final(self)@ == old(self)@.insert(name@, value),
    {
        let wanted = name.to_owned();
        let ghost before = self.slots@;
        match self.find(&wanted) {
            Some(i) => {
                self.slots[i].1 = value;
                proof {
                    lemma_mapping_update(before, i as int, self.slots@[i as int]);
                    assert(self.slots@ =~= before.update(i as int, self.slots@[i as int]));
                }
            },
            None => {
                proof {
                    lemma_mapping_push(before, (wanted, value));
                }
                self.slots.push((wanted, value));
            },
        }
    }
}

} // verus!
