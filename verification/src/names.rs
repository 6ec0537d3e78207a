//! Sets of node ids held as lists of strings.
use vstd::prelude::*;

verus! {

/// The set of names that a list of strings holds.
pub open spec fn name_set(names: Seq<String>) -> Set<Seq<char>> {
    Set::new(|n: Seq<char>| exists|i: int| 0 <= i < names.len() && #[trigger] names[i]@ == n)
}

/// No name occurs twice in the list.
pub open spec fn distinct_names(names: Seq<String>) -> bool {
    forall|i: int, j: int| 0 <= i < j < names.len() ==> names[i]@ != names[j]@
}

/// Adding a name at the end of the list adds it to the set.
pub proof fn lemma_name_set_push(names: Seq<String>, name: String)
    ensures
        name_set(names.push(name)) == name_set(names).insert(name@),
{
    let a = name_set(names.push(name));
    let b = name_set(names).insert(name@);
    assert forall|n: Seq<char>| a.contains(n) implies b.contains(n) by {
        let i = choose|i: int| 0 <= i < names.push(name).len() && #[trigger] names.push(name)[i]@ == n;
        if i < names.len() {
            assert(names[i]@ == n);
        }
    }
    assert forall|n: Seq<char>| b.contains(n) implies a.contains(n) by {
        if n == name@ {
            assert(names.push(name)[names.len() as int]@ == n);
        } else {
            let i = choose|i: int| 0 <= i < names.len() && #[trigger] names[i]@ == n;
            assert(names.push(name)[i]@ == n);
        }
    }
    assert(a =~= b);
}

/// The empty list holds no name.
pub proof fn lemma_name_set_empty()
    ensures
        name_set(Seq::<String>::empty()) == Set::<Seq<char>>::empty(),
{
    assert(name_set(Seq::<String>::empty()) =~= Set::<Seq<char>>::empty());
}

/// The names of a list of strings, in order.
pub open spec fn name_seq(names: Seq<String>) -> Seq<Seq<char>> {
    Seq::new(names.len(), |i: int| names[i]@)
}

/// The list of names and the set of names hold the same names.
pub proof fn lemma_name_seq_set(names: Seq<String>)
    ensures
        name_seq(names).to_set() == name_set(names),
        forall|n: Seq<char>| name_seq(names).contains(n) <==> name_set(names).contains(n),
        distinct_names(names) <==> name_seq(names).no_duplicates(),
{
    let s = name_seq(names);
    assert forall|n: Seq<char>| s.contains(n) <==> name_set(names).contains(n) by {
        if s.contains(n) {
            let i = choose|i: int| 0 <= i < s.len() && s[i] == n;
            assert(names[i]@ == n);
        }
        if name_set(names).contains(n) {
            let i = choose|i: int| 0 <= i < names.len() && #[trigger] names[i]@ == n;
            assert(s[i] == n);
        }
    }
    assert(s.to_set() =~= name_set(names));
    if distinct_names(names) {
        assert forall|i: int, j: int| 0 <= i < s.len() && 0 <= j < s.len() && i != j implies s[i]
            != s[j] by {
            if i < j {
                assert(names[i]@ != names[j]@);
            } else {
                assert(names[j]@ != names[i]@);
            }
        }
    }
    if s.no_duplicates() {
        assert forall|i: int, j: int| 0 <= i < j < names.len() implies names[i]@ != names[j]@ by {
            assert(s[i] != s[j]);
        }
    }
}

/// Whether the list holds the name.
pub fn contains_name(names: &Vec<String>, name: &String) -> (found: bool)
    ensures
        found == name_set(names@).contains(name@),
{
    let mut i: usize = 0;
    while i < names.len()
        invariant
            i <= names.len(),
            forall|j: int| 0 <= j < i ==> names[j]@ != name@,
        decreases names.len() - i,
    {
        if names[i] == *name {
            return true;
        }
        i += 1;
    }
    false
}

/// Adds the name unless the list already holds it.
pub fn insert_name(names: &mut Vec<String>, name: &String)
    ensures
        name_set(final(names)@) == name_set(old(names)@).insert(name@),
        distinct_names(old(names)@) ==> distinct_names(final(names)@),
        old(names)@.len() <= final(names)@.len() <= old(names)@.len() + 1,
        name_set(old(names)@).contains(name@) ==> final(names)@ == old(names)@,
{
    if !contains_name(names, name) {
        proof {
            lemma_name_set_push(names@, *name);
        }
        names.push(name.clone());
    } else {
        assert(name_set(names@).insert(name@) =~= name_set(names@));
    }
}

/// Adds every name of `more` that the list does not hold yet.
pub fn union_names(names: &mut Vec<String>, more: &Vec<String>)
    ensures
        name_set(final(names)@) == name_set(old(names)@).union(name_set(more@)),
        distinct_names(old(names)@) ==> distinct_names(final(names)@),
        name_set(more@).subset_of(name_set(old(names)@)) ==> final(names)@ == old(names)@,
{
    let mut i: usize = 0;
    proof {
        lemma_name_set_empty();
        assert(more@.take(0) =~= Seq::<String>::empty());
        assert(name_set(names@).union(Set::<Seq<char>>::empty()) =~= name_set(names@));
    }
    while i < more.len()
        invariant
            i <= more.len(),
            name_set(names@) == name_set(old(names)@).union(name_set(more@.take(i as int))),
            distinct_names(old(names)@) ==> distinct_names(names@),
            name_set(more@).subset_of(name_set(old(names)@)) ==> names@ == old(names)@,
        decreases more.len() - i,
    {
        proof {
            lemma_name_set_push(more@.take(i as int), more@[i as int]);
            assert(more@.take(i as int).push(more@[i as int]) =~= more@.take(i + 1));
            assert(name_set(more@).contains(more@[i as int]@));
        }
        let ghost before = names@;
        insert_name(names, &more[i]);
        proof {
            assert(name_set(before).insert(more@[i as int]@) =~= name_set(old(names)@).union(
                name_set(more@.take(i + 1)),
            ));
        }
        i += 1;
    }
    proof {
        assert(more@.take(more.len() as int) =~= more@);
    }
}

/// Whether every name of `needed` is in the list.
pub fn contains_all(names: &Vec<String>, needed: &Vec<String>) -> (all: bool)
    ensures
        all == name_set(needed@).subset_of(name_set(names@)),
{
    let mut i: usize = 0;
    while i < needed.len()
        invariant
            i <= needed.len(),
            forall|j: int| 0 <= j < i ==> name_set(names@).contains(#[trigger] needed[j]@),
        decreases needed.len() - i,
    {
        if !contains_name(names, &needed[i]) {
            assert(name_set(needed@).contains(needed[i as int]@));
            return false;
        }
        i += 1;
    }
    assert forall|n: Seq<char>| name_set(needed@).contains(n) implies name_set(names@).contains(
        n,
    ) by {
        let j = choose|j: int| 0 <= j < needed.len() && #[trigger] needed[j]@ == n;
    }
    true
}

/// A copy of the list.
pub fn clone_names(names: &Vec<String>) -> (copy: Vec<String>)
    ensures
        copy@ == names@,
{
    let copy = names.clone();
    assert(copy@ =~= names@);
    copy
}

/// The names of `node_ids` other than `me`, each once, in their order.
pub open spec fn others(node_ids: Seq<Seq<char>>, me: Seq<char>) -> Seq<Seq<char>>
    decreases node_ids.len(),
{
    if node_ids.len() == 0 {
        Seq::empty()
    } else {
        let rest = others(node_ids.drop_last(), me);
        if node_ids.last() == me || rest.contains(node_ids.last()) {
            rest
        } else {
            rest.push(node_ids.last())
        }
    }
}

/// The names of `node_ids` other than `me`, each once, in their order.
pub fn others_of(node_ids: &Vec<String>, me: &String) -> (rest: Vec<String>)
    ensures
        name_seq(rest@) == others(name_seq(node_ids@), me@),
        distinct_names(rest@),
        !name_set(rest@).contains(me@),
{
    let mut rest: Vec<String> = Vec::new();
    let mut i: usize = 0;
    proof {
        assert(name_seq(node_ids@).take(0) =~= Seq::<Seq<char>>::empty());
        assert(name_seq(rest@) =~= Seq::<Seq<char>>::empty());
    }
    while i < node_ids.len()
        invariant
            i <= node_ids.len(),
            name_seq(rest@) == others(name_seq(node_ids@).take(i as int), me@),
            distinct_names(rest@),
            !name_set(rest@).contains(me@),
        decreases node_ids.len() - i,
    {
        proof {
            let upto = name_seq(node_ids@).take(i + 1);
            assert(upto.drop_last() =~= name_seq(node_ids@).take(i as int));
            assert(upto.last() == node_ids@[i as int]@);
            lemma_name_seq_set(rest@);
        }
        if !(node_ids[i] == *me) && !contains_name(&rest, &node_ids[i]) {
            let ghost before = rest@;
            proof {
                lemma_name_set_push(before, node_ids@[i as int]);
                lemma_distinct_push(before, node_ids@[i as int]);
            }
            rest.push(node_ids[i].clone());
            assert(name_seq(rest@) =~= name_seq(before).push(node_ids@[i as int]@));
        }
        i += 1;
    }
    proof {
        assert(name_seq(node_ids@).take(node_ids.len() as int) =~= name_seq(node_ids@));
    }
    rest
}

/// A list without a name twice stays so when a name that it lacks is
/// added.
pub proof fn lemma_distinct_push(names: Seq<String>, name: String)
    requires
        distinct_names(names),
        !name_set(names).contains(name@),
    ensures
        distinct_names(names.push(name)),
{
    let more = names.push(name);
    assert forall|i: int, j: int| 0 <= i < j < more.len() implies more[i]@ != more[j]@ by {
        if j < names.len() {
            assert(more[i] == names[i] && more[j] == names[j]);
        } else {
            assert(more[i] == names[i]);
            if names[i]@ == name@ {
                assert(name_set(names).contains(name@));
            }
        }
    }
}

} // verus!
