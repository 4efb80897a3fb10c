use vstd::prelude::*;

verus! {

/// The text of each string of a sequence.
pub open spec fn string_views(v: Seq<String>) -> Seq<Seq<char>> {
    v.map_values(|g: String| g@)
}

/// The guest set of one event: unique account names rooted at a storage key.
/// Guests are enumerated in the order in which they were first inserted.
pub struct GuestSet {
    root: Vec<u8>,
    elements: Vec<String>,
}

impl View for GuestSet {
    type V = Seq<Seq<char>>;

    closed spec fn view(&self) -> Seq<Seq<char>> {
        string_views(self.elements@)
    }
}

impl GuestSet {
    /// The storage key that the set is rooted at.
    pub closed spec fn root(&self) -> Seq<u8> {
        self.root@
    }

    /// A set holds each guest at most once.
    pub open spec fn wf(&self) -> bool {
        self@.no_duplicates()
    }

    /// An empty set rooted at `root`.
    pub fn new(root: Vec<u8>) -> (r: GuestSet)
        ensures
            r@ == Seq::<Seq<char>>::empty(),
            r.root() == root@,
            r.wf(),
    {
        let r = GuestSet { root, elements: Vec::new() };
        assert(r@ =~= Seq::<Seq<char>>::empty());
        r
    }

    /// Whether `guest` is in the set.
    pub fn contains(&self, guest: &String) -> (r: bool)
        ensures
            r == self@.contains(guest@),
    {
        let mut i: usize = 0;
        while i < self.elements.len()
            invariant
                i <= self.elements@.len(),
                forall|j: int| 0 <= j < i ==> self@[j] != guest@,
            decreases self.elements@.len() - i,
        {
            if self.elements[i] == *guest {
                assert(self@[i as int] == guest@);
                return true;
            }
            i = i + 1;
        }
        false
    }

    /// Adds `guest` unless it is already there; returns whether it was added.
    pub fn insert(&mut self, guest: &String) -> (r: bool)
        requires
            old(self).wf(),
        ensures
            final(self).wf(),
            final(self).root() == old(self).root(),
            r == !old(self)@.contains(guest@),
            final(self)@ == if r {
                old(self)@.push(guest@)
            } else {
                old(self)@
            },
    {
        if self.contains(guest) {
            false
        } else {
            self.elements.push(guest.clone());
            assert(self@ =~= old(self)@.push(guest@));
            true
        }
    }

    /// The number of guests.
    pub fn len(&self) -> (r: usize)
        ensures
            r == self@.len(),
    {
        self.elements.len()
    }

    /// The guests, in enumeration order.
    pub fn to_vec(&self) -> (r: Vec<String>)
        ensures
            string_views(r@) == self@,
    {
        let mut r: Vec<String> = Vec::new();
        let mut i: usize = 0;
        while i < self.elements.len()
            invariant
                i <= self.elements@.len(),
                r@.len() == i,
                string_views(r@) == self@.subrange(0, i as int),
            decreases self.elements@.len() - i,
        {
            let ghost before = r@;
            let g = self.elements[i].clone();
            r.push(g);
            assert(r@ == before.push(g));
            assert(g@ == self@[i as int]);
            assert(string_views(r@) =~= self@.subrange(0, i + 1)) by {
                assert(string_views(before) == self@.subrange(0, i as int));
                assert forall|j: int| 0 <= j < i implies string_views(r@)[j] == string_views(before)[j] by {
                    assert(r@[j] == before[j]);
                }
            }
            i = i + 1;
        }
        assert(self@.subrange(0, i as int) =~= self@);
        r
    }
}

/// The persistent record of an event: a price and a guest set rooted in the
/// store.
pub struct Event {
    pub price: u128,
    pub guests: GuestSet,
}

} // verus!
