//! A set of environment variables, in the order of their names.

use vstd::prelude::*;

use crate::text::{before, same_text};
#[allow(unused_imports)]
use crate::text::{comes_before, lemma_before_irreflexive, lemma_before_total, lemma_before_transitive};

verus! {

/// The mapping that a list of name and value pairs stands for: of two pairs
/// with one name the later counts.
pub open spec fn mapping(pairs: Seq<(Seq<char>, Seq<char>)>) -> Map<Seq<char>, Seq<char>>
    decreases pairs.len(),
{
    if pairs.len() == 0 {
        Map::empty()
    } else {
        mapping(pairs.drop_last()).insert(pairs.last().0, pairs.last().1)
    }
}

/// Each name comes before those of the pairs that follow.
pub open spec fn names_ascend(pairs: Seq<(Seq<char>, Seq<char>)>) -> bool {
    forall|i: int, j: int| 0 <= i < j < pairs.len() ==> comes_before(pairs[i].0, pairs[j].0)
}

/// Environment variables, each name once.
pub struct EnvVars {
    entries: Vec<(String, String)>,
}

impl View for EnvVars {
    type V = Map<Seq<char>, Seq<char>>;

    /// The value of each variable, by its name.
    open spec fn view(&self) -> Map<Seq<char>, Seq<char>> {
        mapping(self.pairs())
    }
}

spec fn pair_texts(entries: Seq<(String, String)>) -> Seq<(Seq<char>, Seq<char>)> {
    Seq::new(entries.len(), |i: int| (entries[i].0@, entries[i].1@))
}

impl EnvVars {
    /// The variables in the order in which they are handed out.
    pub closed spec fn pairs(&self) -> Seq<(Seq<char>, Seq<char>)> {
        pair_texts(self.entries@)
    }

    #[verifier::type_invariant]
    spec fn ordered(&self) -> bool {
        names_ascend(pair_texts(self.entries@))
    }

    /// No variable.
    pub fn new() -> (r: Self)
        ensures
            r@ == Map::<Seq<char>, Seq<char>>::empty(),
            r.pairs() == Seq::<(Seq<char>, Seq<char>)>::empty(),
    {
        let r = EnvVars { entries: Vec::new() };
        assert(r.pairs() =~= Seq::empty());
        r
    }

    /// Gives a variable its value, in place of one that it had.
    pub fn insert(&mut self, name: String, value: String)
        ensures
            final(self)@ == old(self)@.insert(name@, value@),
    {
        proof {
            use_type_invariant(&*self);
        }
        let ghost old_pairs = self.pairs();
        let mut entries: Vec<(String, String)> = Vec::new();
        std::mem::swap(&mut entries, &mut self.entries);
        let mut i: usize = 0;
        while i < entries.len() && before(entries[i].0.as_str(), name.as_str())
            invariant
                i <= entries@.len(),
                forall|k: int| 0 <= k < i ==> comes_before(entries@[k].0@, name@),
            decreases entries@.len() - i,
        {
            i = i + 1;
        }
        let ghost start = entries@;
        let ghost new_name = name@;
        let ghost new_value = value@;
        if i < entries.len() && same_text(entries[i].0.as_str(), name.as_str()) {
            entries.set(i, (name, value));
            proof {
                let fresh = pair_texts(entries@);
                assert(fresh =~= old_pairs.update(i as int, (new_name, new_value)));
                lemma_names_distinct(old_pairs);
                lemma_update(old_pairs, i as int, new_value);
            }
        } else {
            entries.insert(i, (name, value));
            proof {
                let fresh = pair_texts(entries@);
                assert(fresh =~= old_pairs.insert(i as int, (new_name, new_value)));
                assert forall|k: int| i <= k < start.len() implies #[trigger] comes_before(
                    new_name,
                    old_pairs[k].0,
                ) by {
                    lemma_before_total(new_name, old_pairs[i as int].0);
                    if k > i {
                        assert(comes_before(old_pairs[i as int].0, old_pairs[k].0));
                        lemma_before_transitive(new_name, old_pairs[i as int].0, old_pairs[k].0);
                    }
                }
                assert forall|a: int, b: int| 0 <= a < b < fresh.len() implies comes_before(
                    fresh[a].0,
                    fresh[b].0,
                ) by {
                    if a < i && b > i {
                        assert(comes_before(old_pairs[a].0, old_pairs[b - 1].0));
                    } else if a > i {
                        assert(comes_before(old_pairs[a - 1].0, old_pairs[b - 1].0));
                    } else if b < i {
                        assert(comes_before(old_pairs[a].0, old_pairs[b].0));
                    } else if a == i {
                        assert(comes_before(new_name, old_pairs[b - 1].0));
                    } else {
                        assert(old_pairs[a].0 == start[a].0@);
                    }
                }
                lemma_names_distinct(fresh);
                assert(fresh[i as int].0 == new_name);
                assert forall|k: int| 0 <= k < old_pairs.len() implies old_pairs[k].0
                    != new_name by {
                    assert(old_pairs[k] == fresh[if k < i { k } else { k + 1 }]);
                }
                lemma_insert(old_pairs, i as int, (new_name, new_value));
            }
        }
        self.entries = entries;
    }

    /// The value of a variable, where it is set.
    pub fn get(&self, name: &str) -> (r: Option<&str>)
        ensures
            r is Some <==> self@.contains_key(name@),
            r matches Some(value) ==> value@ == self@[name@],
    {
        proof {
            use_type_invariant(self);
            lemma_mapping(self.pairs());
            lemma_names_distinct(self.pairs());
        }
        let mut i: usize = 0;
        while i < self.entries.len()
            invariant
                i <= self.entries@.len(),
                self.pairs().len() == self.entries@.len(),
                forall|k: int| 0 <= k < i ==> self.pairs()[k].0 != name@,
                forall|k: int|
                    0 <= k < self.pairs().len() ==> self@[#[trigger] self.pairs()[k].0]
                        == self.pairs()[k].1,
                forall|n: Seq<char>| #[trigger]
                    self@.contains_key(n) <==> exists|k: int|
                        0 <= k < self.pairs().len() && #[trigger] self.pairs()[k].0 == n,
            decreases self.entries@.len() - i,
        {
            assert(self.pairs()[i as int] == (self.entries@[i as int].0@, self.entries@[i as int].1@));
            if same_text(self.entries[i].0.as_str(), name) {
                assert(self.pairs()[i as int].0 == name@);
                return Some(self.entries[i].1.as_str());
            }
            i = i + 1;
        }
        None
    }

    /// The number of variables.
    pub fn len(&self) -> (r: usize)
        ensures
            r == self.pairs().len(),
            names_ascend(self.pairs()),
    {
        proof {
            use_type_invariant(self);
        }
        self.entries.len()
    }

    /// The name and the value of the variable at a position in the order.
    pub fn pair(&self, i: usize) -> (r: (&str, &str))
        requires
            i < self.pairs().len(),
        ensures
            (r.0@, r.1@) == self.pairs()[i as int],
    {
        (self.entries[i].0.as_str(), self.entries[i].1.as_str())
    }
}

/// A list in order holds no name twice.
proof fn lemma_names_distinct(pairs: Seq<(Seq<char>, Seq<char>)>)
    requires
        names_ascend(pairs),
    ensures
        forall|i: int, j: int|
            0 <= i < pairs.len() && 0 <= j < pairs.len() && i != j ==> pairs[i].0 != pairs[j].0,
{
    assert forall|i: int, j: int|
        0 <= i < pairs.len() && 0 <= j < pairs.len() && i != j implies pairs[i].0 != pairs[j].0 by {
        lemma_before_irreflexive(pairs[i].0);
        if i < j {
            assert(comes_before(pairs[i].0, pairs[j].0));
        } else {
            assert(comes_before(pairs[j].0, pairs[i].0));
        }
    }
}

/// What a list of pairs maps: the names that stand in it, each to the value of
/// its last pair.
pub proof fn lemma_mapping(pairs: Seq<(Seq<char>, Seq<char>)>)
    ensures
        forall|name: Seq<char>| #[trigger]
            mapping(pairs).contains_key(name) <==> exists|i: int|
                0 <= i < pairs.len() && #[trigger] pairs[i].0 == name,
        forall|i: int|
            0 <= i < pairs.len() && (forall|j: int| i < j < pairs.len() ==> pairs[j].0 != pairs[i].0)
                ==> mapping(pairs)[#[trigger] pairs[i].0] == pairs[i].1,
    decreases pairs.len(),
{
    if pairs.len() > 0 {
        let rest = pairs.drop_last();
        lemma_mapping(rest);
        assert forall|name: Seq<char>| #[trigger]
            mapping(pairs).contains_key(name) <==> exists|i: int|
                0 <= i < pairs.len() && #[trigger] pairs[i].0 == name by {
            if mapping(pairs).contains_key(name) {
                if name == pairs.last().0 {
                    assert(pairs[pairs.len() - 1].0 == name);
                } else {
                    assert(mapping(rest).contains_key(name));
                    let i = choose|i: int| 0 <= i < rest.len() && #[trigger] rest[i].0 == name;
                    assert(pairs[i].0 == name);
                }
            }
            if exists|i: int| 0 <= i < pairs.len() && #[trigger] pairs[i].0 == name {
                let i = choose|i: int| 0 <= i < pairs.len() && #[trigger] pairs[i].0 == name;
                if i < rest.len() {
                    assert(rest[i].0 == name);
                    assert(mapping(rest).contains_key(name));
                }
            }
        }
        assert forall|i: int|
            0 <= i < pairs.len() && (forall|j: int| i < j < pairs.len() ==> pairs[j].0 != pairs[i].0)
            implies mapping(pairs)[#[trigger] pairs[i].0] == pairs[i].1 by {
            if i < rest.len() {
                assert(pairs[pairs.len() - 1].0 != pairs[i].0);
                assert(rest[i] == pairs[i]);
                assert forall|j: int| i < j < rest.len() implies rest[j].0 != rest[i].0 by {
                    assert(pairs[j].0 != pairs[i].0);
                }
            }
        }
    }
}

/// The pair at `i` is the last with the name.
pub open spec fn is_last(pairs: Seq<(Seq<char>, Seq<char>)>, i: int, name: Seq<char>) -> bool {
    &&& 0 <= i < pairs.len()
    &&& pairs[i].0 == name
    &&& forall|j: int| i < j < pairs.len() ==> #[trigger] pairs[j].0 != name
}

/// A name that is mapped has a last pair, whose value it is mapped to.
pub proof fn lemma_last(pairs: Seq<(Seq<char>, Seq<char>)>, name: Seq<char>) -> (i: int)
    requires
        mapping(pairs).contains_key(name),
    ensures
        is_last(pairs, i, name),
        mapping(pairs)[name] == pairs[i].1,
    decreases pairs.len(),
{
    if pairs.last().0 == name {
        pairs.len() - 1
    } else {
        let rest = pairs.drop_last();
        let i = lemma_last(rest, name);
        assert forall|j: int| i < j < pairs.len() implies #[trigger] pairs[j].0 != name by {
            if j < rest.len() {
                assert(rest[j].0 != name);
            }
        }
        i
    }
}

/// Another value in one pair is another value of that name.
proof fn lemma_update(pairs: Seq<(Seq<char>, Seq<char>)>, at: int, value: Seq<char>)
    requires
        0 <= at < pairs.len(),
        forall|i: int, j: int|
            0 <= i < pairs.len() && 0 <= j < pairs.len() && i != j ==> pairs[i].0 != pairs[j].0,
    ensures
        mapping(pairs.update(at, (pairs[at].0, value))) == mapping(pairs).insert(pairs[at].0, value),
    decreases pairs.len(),
{
    let fresh = pairs.update(at, (pairs[at].0, value));
    if at == pairs.len() - 1 {
        assert(fresh.drop_last() =~= pairs.drop_last());
        assert(mapping(fresh) =~= mapping(pairs).insert(pairs[at].0, value));
    } else {
        let rest = pairs.drop_last();
        lemma_update(rest, at, value);
        assert(fresh.drop_last() =~= rest.update(at, (rest[at].0, value)));
        assert(pairs.last().0 != pairs[at].0);
        assert(mapping(fresh) =~= mapping(pairs).insert(pairs[at].0, value));
    }
}

/// A pair with a name of its own adds that name wherever it is put.
proof fn lemma_insert(pairs: Seq<(Seq<char>, Seq<char>)>, at: int, pair: (Seq<char>, Seq<char>))
    requires
        0 <= at <= pairs.len(),
        forall|i: int| 0 <= i < pairs.len() ==> pairs[i].0 != pair.0,
    ensures
        mapping(pairs.insert(at, pair)) == mapping(pairs).insert(pair.0, pair.1),
    decreases pairs.len(),
{
    let fresh = pairs.insert(at, pair);
    if at == pairs.len() {
        assert(fresh.drop_last() =~= pairs);
    } else {
        let rest = pairs.drop_last();
        lemma_insert(rest, at, pair);
        assert(fresh.drop_last() =~= rest.insert(at, pair));
        assert(fresh.last() == pairs.last());
        assert(pairs.last().0 != pair.0);
        assert(mapping(fresh) =~= mapping(pairs).insert(pair.0, pair.1));
    }
}

/// Variables are handed out in the order of their names, each as often as it is
/// set: once.
pub proof fn law_variables_in_order(
    vars: &EnvVars,
    count: usize,
    i: usize,
    j: usize,
    first: (&str, &str),
    second: (&str, &str),
)
    requires
        call_ensures(EnvVars::len, (vars,), count),
        call_ensures(EnvVars::pair, (vars, i), first),
        call_ensures(EnvVars::pair, (vars, j), second),
        i < j < count,
    ensures
        comes_before(first.0@, second.0@),
        first.0@ != second.0@,
        vars@.contains_key(first.0@),
        vars@[first.0@] == first.1@,
        vars@.contains_key(second.0@),
        vars@[second.0@] == second.1@,
{
    lemma_names_distinct(vars.pairs());
    lemma_mapping(vars.pairs());
    assert(vars.pairs()[i as int].0 == first.0@);
    assert(vars.pairs()[j as int].0 == second.0@);
}

/// What is handed out is all that is set.
pub proof fn law_every_variable_is_handed_out(vars: &EnvVars, count: usize, name: Seq<char>) -> (i:
    int)
    requires
        call_ensures(EnvVars::len, (vars,), count),
        vars@.contains_key(name),
    ensures
        0 <= i < count,
        forall|p: (&str, &str)| #[trigger]
            call_ensures(EnvVars::pair, (vars, i as usize), p) ==> p.0@ == name && p.1@ == vars@[name],
{
    lemma_last(vars.pairs(), name)
}

/// A variable is found exactly where it is handed out at some place, with the
/// value that it is handed out with.
pub proof fn law_found_where_handed_out(
    vars: &EnvVars,
    name: &str,
    r: Option<&str>,
    count: usize,
    i: usize,
    p: (&str, &str),
)
    requires
        call_ensures(EnvVars::get, (vars, name), r),
        call_ensures(EnvVars::len, (vars,), count),
        call_ensures(EnvVars::pair, (vars, i), p),
        i < count,
    ensures
        r is Some <==> vars@.contains_key(name@),
        p.0@ == name@ ==> r is Some && r->0@ == p.1@,
{
    lemma_names_distinct(vars.pairs());
    lemma_mapping(vars.pairs());
    assert(vars.pairs()[i as int].0 == p.0@);
}

} // verus!
