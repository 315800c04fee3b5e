//! The identifier set: the accumulator the label phase fills and the image
//! phase reads. Membership is by exact identifier string; the view is the
//! mathematical set of identifiers held.

use vstd::prelude::*;

verus! {

/// A set of tile identifier strings. The label phase inserts the identifier
/// of every accepted label tile; once that phase has fully drained, the image
/// phase only reads it.
pub struct IdentifierSet {
    items: Vec<String>,
}

impl View for IdentifierSet {
    type V = Set<Seq<char>>;

    closed spec fn view(&self) -> Set<Seq<char>> {
        Set::new(
            |s: Seq<char>|
                exists|i: int| 0 <= i < self.items@.len() && self.items@[i]@ == s,
        )
    }
}

impl IdentifierSet {
    /// The empty set.
    pub fn new() -> (r: IdentifierSet)
        ensures
            r@ == Set::<Seq<char>>::empty(),
    {
        let r = IdentifierSet { items: Vec::new() };
        proof {
            assert(r@ =~= Set::<Seq<char>>::empty());
        }
        r
    }

    /// Membership strategy of the validity filter: whether the identifier
    /// was recorded.
    pub fn contains(&self, id: &String) -> (b: bool)
        ensures
            b == self@.contains(id@),
    {
        let mut i: usize = 0;
        while i < self.items.len()
            invariant
                i <= self.items@.len(),
                forall|k: int| 0 <= k < i ==> self.items@[k]@ != id@,
            decreases self.items@.len() - i,
        {
            if self.items[i].eq(id) {
                return true;
            }
            i = i + 1;
        }
        false
    }

    /// Records an identifier; recording one already present changes nothing.
    pub fn insert(&mut self, id: String)
        ensures
            final(self)@ == old(self)@.insert(id@),
    {
        let present = self.contains(&id);
        if !present {
            let ghost old_items = self.items@;
            self.items.push(id);
            proof {
                assert forall|s: Seq<char>| #[trigger] self@.contains(s) implies old(
                    self,
                )@.insert(id@).contains(s) by {
                    let i = choose|i: int| 0 <= i < self.items@.len() && self.items@[i]@ == s;
                    if i < old_items.len() {
                        assert(old_items[i]@ == s);
                    } else {
                        assert(self.items@[i] == id);
                    }
                }
                assert forall|s: Seq<char>| old(self)@.insert(id@).contains(s) implies #[trigger] self@.contains(s) by {
                    if s == id@ {
                        assert(self.items@[old_items.len() as int]@ == s);
                    } else {
                        let i = choose|i: int| 0 <= i < old_items.len() && old_items[i]@ == s;
                        assert(self.items@[i]@ == s);
                    }
                }
                assert(self@ =~= old(self)@.insert(id@));
            }
        } else {
            proof {
                assert(self@ =~= old(self)@.insert(id@));
            }
        }
    }

    /// How many identifier strings are held, duplicates never among them.
    pub fn len(&self) -> usize {
        self.items.len()
    }
}

} // verus!
