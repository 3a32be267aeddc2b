//! Values bound to variable names.

use vstd::prelude::*;

verus! {

/// The map that a list of bindings stands for: a later binding of a name
/// replaces an earlier one.
pub open spec fn bound_values(s: Seq<(Seq<char>, usize)>) -> Map<Seq<char>, usize>
    decreases s.len(),
{
    if s.len() == 0 {
        Map::empty()
    } else {
        bound_values(s.drop_last()).insert(s.last().0, s.last().1)
    }
}

/// After the last binding of `name`, nothing changes what `name` is bound to.
proof fn lemma_bound_prefix(s: Seq<(Seq<char>, usize)>, i: int, name: Seq<char>)
    requires
        0 <= i <= s.len(),
        forall|j: int| i <= j < s.len() ==> (#[trigger] s[j]).0 != name,
    ensures
        bound_values(s).contains_key(name) == bound_values(s.take(i)).contains_key(name),
        bound_values(s).contains_key(name) ==> bound_values(s)[name] == bound_values(s.take(i))[name],
    decreases s.len() - i,
{
    if i == s.len() {
        assert(s.take(i) =~= s);
    } else {
        assert(s.last().0 != name);
        assert(s.drop_last().take(i) =~= s.take(i));
        assert forall|j: int| i <= j < s.drop_last().len() implies (#[trigger] s.drop_last()[j]).0
            != name by {
            assert(s[j].0 != name);
        }
        lemma_bound_prefix(s.drop_last(), i, name);
    }
}

/// Values for variables, by name.
#[derive(Debug)]
pub struct Bindings {
    entries: Vec<(String, usize)>,
}

impl Bindings {
    /// The bindings in the order in which they were made.
    pub closed spec fn entries(&self) -> Seq<(Seq<char>, usize)> {
        Seq::new(self.entries@.len(), |i: int| (self.entries@[i].0@, self.entries@[i].1))
    }

    /// No variable bound.
    pub fn new() -> (r: Bindings)
        ensures
            r@ == Map::<Seq<char>, usize>::empty(),
    {
        let r = Bindings { entries: Vec::new() };
        assert(r.entries() =~= Seq::empty());
        r
    }

    /// Binds `name` to `value`, in place of what it was bound to.
    pub fn insert(&mut self, name: &str, value: usize)
        ensures
            final(self)@ == old(self)@.insert(name@, value),
    {
        let ghost before = self.entries();
        self.entries.push((name.to_owned(), value));
        assert(self.entries() =~= before.push((name@, value)));
        assert(self.entries().drop_last() =~= before);
    }

    /// These bindings and one more.
    pub fn with(self, name: &str, value: usize) -> (r: Bindings)
        ensures
            r@ == self@.insert(name@, value),
    {
        let mut r = self;
        r.insert(name, value);
        r
    }

    /// What `name` is bound to.
    pub fn get(&self, name: &str) -> (r: Option<usize>)
        ensures
            r == if self@.contains_key(name@) {
                Some(self@[name@])
            } else {
                None::<usize>
            },
    {
        let ghost s = self.entries();
        let key = name.to_owned();
        let mut i: usize = self.entries.len();
        while i > 0
            invariant
                0 <= i <= self.entries.len(),
                s == self.entries(),
                key@ == name@,
                forall|j: int| i <= j < s.len() ==> (#[trigger] s[j]).0 != name@,
            decreases i,
        {
            i -= 1;
            assert(s[i as int].0 == self.entries@[i as int].0@);
            if self.entries[i].0 == key {
                proof {
                    lemma_bound_prefix(s, i as int + 1, name@);
                    assert(s.take(i as int + 1).last() == s[i as int]);
                }
                return Some(self.entries[i].1);
            }
        }
        proof {
            lemma_bound_prefix(s, 0, name@);
            assert(s.take(0) =~= Seq::empty());
        }
        None
    }
}

impl View for Bindings {
    type V = Map<Seq<char>, usize>;

    closed spec fn view(&self) -> Map<Seq<char>, usize> {
        bound_values(self.entries())
    }
}

} // verus!
