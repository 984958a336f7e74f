use vstd::prelude::*;

verus! {

/// The latest binding of `name` among `entries`, searching from the end.
pub open spec fn latest_binding(entries: Seq<(String, i32)>, name: Seq<char>) -> Option<i32>
    decreases entries.len(),
{
    if entries.len() == 0 {
        None
    } else if entries.last().0@ == name {
        Some(entries.last().1)
    } else {
        latest_binding(entries.drop_last(), name)
    }
}

/// Variable names bound to their last assigned values.
pub struct SymbolTable {
    entries: Vec<(String, i32)>,
}

impl View for SymbolTable {
    type V = Map<Seq<char>, i32>;

    closed spec fn view(&self) -> Map<Seq<char>, i32> {
        Map::new(
            |name: Seq<char>| latest_binding(self.entries@, name) is Some,
            |name: Seq<char>| latest_binding(self.entries@, name)->Some_0,
        )
    }
}

impl SymbolTable {
    pub fn new() -> (t: SymbolTable)
        ensures
            t@ == Map::<Seq<char>, i32>::empty(),
    {
        let t = SymbolTable { entries: Vec::new() };
        assert(t@ =~= Map::<Seq<char>, i32>::empty());
        t
    }

    /// Binds `name` to `value`, replacing any earlier binding.
    pub fn insert(&mut self, name: String, value: i32)
        ensures
            final(self)@ == old(self)@.insert(name@, value),
    {
        let ghost key = name@;
        self.entries.push((name, value));
        assert(self.entries@.drop_last() =~= old(self).entries@);
        assert(self@ =~= old(self)@.insert(key, value));
    }

    /// The value bound to `name`, if any.
    pub fn get(&self, name: &String) -> (r: Option<i32>)
        ensures
            r == (if self@.contains_key(name@) {
                Some(self@[name@])
            } else {
                None
            }),
    {
        let mut i: usize = self.entries.len();
        assert(self.entries@.subrange(0, i as int) =~= self.entries@);
        while i > 0
            invariant
                i <= self.entries@.len(),
                latest_binding(self.entries@, name@) == latest_binding(
                    self.entries@.subrange(0, i as int),
                    name@,
                ),
            decreases i,
        {
            assert(self.entries@.subrange(0, i as int).drop_last() =~= self.entries@.subrange(
                0,
                i - 1,
            ));
            if self.entries[i - 1].0 == *name {
                return Some(self.entries[i - 1].1);
            }
            i = i - 1;
        }
        assert(self.entries@.subrange(0, 0) =~= Seq::<(String, i32)>::empty());
        None
    }
}

} // verus!
