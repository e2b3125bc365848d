//! Values under names.

use vstd::prelude::*;

verus! {

/// The values that a list of names and values leaves in force: of several under
/// one name, the last.
pub open spec fn in_force<T>(pairs: Seq<(Seq<char>, T)>) -> Map<Seq<char>, T>
    decreases pairs.len(),
{
    if pairs.len() == 0 {
        Map::empty()
    } else {
        in_force(pairs.drop_last()).insert(pairs.last().0, pairs.last().1)
    }
}

/// A new value in place of the last one under a name is as good as one more
/// value under that name.
proof fn lemma_replace_last<T>(pairs: Seq<(Seq<char>, T)>, i: int, value: T)
    requires
        0 <= i < pairs.len(),
        forall|j: int| i < j < pairs.len() ==> (#[trigger] pairs[j]).0 != pairs[i].0,
    ensures
        in_force(pairs.update(i, (pairs[i].0, value))) == in_force(pairs).insert(pairs[i].0, value),
    decreases pairs.len(),
{
    let name = pairs[i].0;
    let updated = pairs.update(i, (name, value));
    if i == pairs.len() - 1 {
        assert(updated.drop_last() =~= pairs.drop_last());
        assert(in_force(updated) =~= in_force(pairs).insert(name, value));
    } else {
        assert(updated.drop_last() =~= pairs.drop_last().update(i, (name, value)));
        lemma_replace_last(pairs.drop_last(), i, value);
        assert(in_force(updated) =~= in_force(pairs).insert(name, value));
    }
}

/// A name that no pair has is under no value.
proof fn lemma_absent<T>(pairs: Seq<(Seq<char>, T)>, name: Seq<char>)
    requires
        forall|j: int| 0 <= j < pairs.len() ==> (#[trigger] pairs[j]).0 != name,
    ensures
        !in_force(pairs).contains_key(name),
    decreases pairs.len(),
{
    if pairs.len() > 0 {
        lemma_absent(pairs.drop_last(), name);
    }
}

/// The last pair with a name gives the value under it.
proof fn lemma_present<T>(pairs: Seq<(Seq<char>, T)>, i: int)
    requires
        0 <= i < pairs.len(),
        forall|j: int| i < j < pairs.len() ==> (#[trigger] pairs[j]).0 != pairs[i].0,
    ensures
        in_force(pairs).contains_key(pairs[i].0),
        in_force(pairs)[pairs[i].0] == pairs[i].1,
    decreases pairs.len(),
{
    if i < pairs.len() - 1 {
        lemma_present(pairs.drop_last(), i);
    }
}

/// Values under names.
#[derive(Debug)]
pub struct Directory<V> {
    pub entries: Vec<(String, V)>,
}

impl<V: View> Directory<V> {
    /// The names and the values, in order.
    pub open spec fn pairs(&self) -> Seq<(Seq<char>, V::V)> {
        self.entries@.map_values(|e: (String, V)| (e.0@, e.1@))
    }
}

impl<V: View> View for Directory<V> {
    type V = Map<Seq<char>, V::V>;

    open spec fn view(&self) -> Map<Seq<char>, V::V> {
        in_force(self.pairs())
    }
}

impl<V: View> Directory<V> {
    /// No values.
    pub fn new() -> (r: Directory<V>)
        ensures
            r@ == Map::<Seq<char>, V::V>::empty(),
            r.pairs() == Seq::<(Seq<char>, V::V)>::empty(),
    {
        let r = Directory { entries: Vec::new() };
        assert(r.pairs() =~= Seq::<(Seq<char>, V::V)>::empty());
        r
    }

    /// The position of the last entry with a name.
    fn position(&self, name: &String) -> (r: Option<usize>)
        ensures
            match r {
                Some(i) => {
                    &&& i < self.pairs().len()
                    &&& self.pairs()[i as int].0 == name@
                    &&& forall|j: int|
                        i < j < self.pairs().len() ==> (#[trigger] self.pairs()[j]).0 != name@
                },
                None => forall|j: int|
                    0 <= j < self.pairs().len() ==> (#[trigger] self.pairs()[j]).0 != name@,
            },
    {
        let mut i: usize = self.entries.len();
        while i > 0
            invariant
                i <= self.entries@.len(),
                forall|j: int|
                    i <= j < self.pairs().len() ==> (#[trigger] self.pairs()[j]).0 != name@,
            decreases i,
        {
            i -= 1;
            if self.entries[i].0 == *name {
                return Some(i);
            }
        }
        None
    }

    /// The value under a name.
    pub fn get(&self, name: &str) -> (r: Option<&V>)
        ensures
            match r {
                Some(value) => self@.contains_key(name@) && self@[name@] == value@,
                None => !self@.contains_key(name@),
            },
    {
        match self.position(&name.to_owned()) {
            Some(i) => {
                proof {
                    lemma_present(self.pairs(), i as int);
                }
                Some(&self.entries[i].1)
            },
            None => {
                proof {
                    lemma_absent(self.pairs(), name@);
                }
                None
            },
        }
    }

    /// Puts a value under a name, in place of the one that was there.
    pub fn insert(&mut self, name: String, value: V)
        ensures
            final(self)@ == old(self)@.insert(name@, value@),
    {
        match self.position(&name) {
            Some(i) => {
                proof {
                    lemma_replace_last(self.pairs(), i as int, value@);
                }
                self.entries[i] = (name, value);
                assert(self.pairs() =~= old(self).pairs().update(i as int, (name@, value@)));
            },
            None => {
                self.entries.push((name, value));
                assert(self.pairs().drop_last() =~= old(self).pairs());
            },
        }
    }
}

} // verus!
